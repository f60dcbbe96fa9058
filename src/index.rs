//! The parent-to-children index over the directory tree that a set of file
//! paths implies, rooted at their longest common prefix.
use vstd::prelude::*;
use crate::paths::{
    compare_bytes, copy_bytes, is_longest_common_prefix, is_prefix, lemma_lex_lt_irreflexive,
    lemma_lex_lt_transitive, lex_lt, longest_common_prefix, paths_eq, views, TreePath,
};

verus! {

/// The directory tree below the common root of a set of file paths.
///
/// Nodes are numbered; node 0 is the common root. Each other node is one path
/// that extends the root and is a prefix of some file path (the file itself
/// included), and lists its immediate children in ascending order of name.
pub struct PathIndex {
    /// The common root's path.
    pub root: TreePath,
    /// Each node's full path.
    pub full: Vec<TreePath>,
    /// Each node's last component (unused for node 0).
    pub names: Vec<Vec<u8>>,
    /// Each node's parent (unused for node 0).
    pub parents: Vec<usize>,
    /// Each node's children, ascending by name.
    pub children: Vec<Vec<usize>>,
}

impl PathIndex {
    /// The number of nodes.
    pub open spec fn count(&self) -> int {
        self.full@.len() as int
    }

    /// The path of node `i`.
    pub open spec fn path(&self, i: int) -> Seq<Seq<u8>> {
        self.full@[i]@
    }

    /// The `t`-th child of node `i`.
    pub open spec fn child_id(&self, i: int, t: int) -> int {
        self.children@[i]@[t] as int
    }

    /// Node `j` is listed among node `i`'s children.
    pub open spec fn has_child(&self, i: int, j: int) -> bool {
        exists|t: int| 0 <= t < self.num_children(i) && #[trigger] self.child_id(i, t) == j
    }

    /// The number of children of node `i`.
    pub open spec fn num_children(&self, i: int) -> int {
        self.children@[i]@.len() as int
    }

    /// Node `i` has children of its own: its path is a key of the index.
    pub open spec fn is_key(&self, i: int) -> bool {
        self.num_children(i) > 0
    }

    /// The paths of node `i`'s children, in order.
    pub open spec fn child_paths(&self, i: int) -> Seq<Seq<Seq<u8>>> {
        Seq::new(self.num_children(i) as nat, |t: int| self.path(self.child_id(i, t)))
    }

    /// The structure is a tree below node 0 with consistent parent and child
    /// links, distinct paths, and children sorted strictly by name.
    pub open spec fn wf(&self) -> bool {
        let n = self.count();
        &&& n >= 1
        &&& self.names@.len() == n
        &&& self.parents@.len() == n
        &&& self.children@.len() == n
        &&& self.path(0) == self.root@
        &&& forall|i: int|
            0 < i < n ==> {
                &&& #[trigger] self.parents@[i] < i
                &&& self.path(i) == self.path(self.parents@[i] as int).push(self.names@[i]@)
            }
        &&& forall|i: int, t: int|
            0 <= i < n && 0 <= t < self.num_children(i) ==> {
                &&& 0 < #[trigger] self.child_id(i, t) < n
                &&& self.parents@[self.child_id(i, t)] == i
            }
        &&& forall|j: int| 0 < j < n ==> #[trigger] self.has_child(self.parents@[j] as int, j)
        &&& forall|i: int, s: int, t: int|
            0 <= i < n && 0 <= s < t < self.num_children(i) ==> lex_lt(
                self.names@[#[trigger] self.child_id(i, s)]@,
                self.names@[#[trigger] self.child_id(i, t)]@,
            )
        &&& forall|i: int, j: int| 0 <= i < n && 0 <= j < n && i != j ==> #[trigger] self.path(i) != #[trigger] self.path(j)
        &&& forall|i: int| 0 <= i < n ==> is_prefix(self.root@, #[trigger] self.path(i))
        &&& forall|i: int| 0 < i < n ==> #[trigger] self.path(i).len() > self.root@.len()
    }

    /// Node `i` is a prefix of some path of `fs`.
    pub open spec fn on_way(&self, i: int, fs: Seq<Seq<Seq<u8>>>) -> bool {
        exists|k: int| 0 <= k < fs.len() && is_prefix(self.path(i), #[trigger] fs[k])
    }

    /// Some node has path `q`.
    pub open spec fn holds_path(&self, q: Seq<Seq<u8>>) -> bool {
        exists|i: int| 0 <= i < self.count() && #[trigger] self.path(i) == q
    }

    /// Every node but the root lies on the way to one of `fs`, and every
    /// prefix of a path of `fs` that extends the root is a node.
    pub open spec fn covers(&self, fs: Seq<Seq<Seq<u8>>>) -> bool {
        &&& forall|i: int| 0 < i < self.count() ==> #[trigger] self.on_way(i, fs)
        &&& forall|k: int, d: int|
            0 <= k < fs.len() && self.root@.len() <= d <= fs[k].len() ==> #[trigger] self.holds_path(fs[k].subrange(0, d))
    }

    /// An index that holds only `root`.
    pub fn new(root: TreePath) -> (r: PathIndex)
        ensures
            r.wf(),
            r.root@ == root@,
            r.count() == 1,
            r.num_children(0) == 0,
    {
        let top = root.prefix(root.len());
        let mut full: Vec<TreePath> = Vec::new();
        full.push(top);
        let mut names: Vec<Vec<u8>> = Vec::new();
        names.push(Vec::new());
        let mut parents: Vec<usize> = Vec::new();
        parents.push(0);
        let mut children: Vec<Vec<usize>> = Vec::new();
        children.push(Vec::new());
        let r = PathIndex { root, full, names, parents, children };
        assert(r.path(0) =~= r.root@);
        r
    }
}

impl PathIndex {
    /// A name that no child of `p` has gives a path that no node has.
    proof fn lemma_fresh_path(&self, p: int, name: Seq<u8>)
        requires
            self.wf(),
            0 <= p < self.count(),
            forall|t: int| 0 <= t < self.num_children(p) ==> self.names@[#[trigger] self.child_id(p, t)]@ != name,
        ensures
            forall|j: int| 0 <= j < self.count() ==> #[trigger] self.path(j) != self.path(p).push(name),
    {
        assert forall|j: int| 0 <= j < self.count() implies #[trigger] self.path(j) != self.path(p).push(name) by {
            let q = self.path(p).push(name);
            if self.path(j) == q {
                assert(is_prefix(self.root@, self.path(p)));
                assert(j != 0);
                let pj = self.parents@[j] as int;
                assert(self.path(j) == self.path(pj).push(self.names@[j]@));
                assert(self.path(pj) == q.drop_last());
                assert(self.path(p) =~= q.drop_last());
                assert(self.names@[j]@ == q.last());
                assert(pj == p);
                assert(self.has_child(p, j));
                let t = choose|t: int| 0 <= t < self.num_children(p) && #[trigger] self.child_id(p, t) == j;
            }
        }
    }

    /// The child of node `p` whose last component is `name`, added if absent.
    #[verifier::rlimit(40)]
    fn child_named(&mut self, p: usize, name: &Vec<u8>) -> (r: usize)
        requires
            old(self).wf(),
            p < old(self).count(),
        ensures
            final(self).wf(),
            final(self).root@ == old(self).root@,
            r < final(self).count(),
            final(self).path(r as int) == old(self).path(p as int).push(name@),
            old(self).count() <= final(self).count() <= old(self).count() + 1,
            forall|i: int| 0 <= i < old(self).count() ==> #[trigger] final(self).path(i) == old(self).path(i),
            final(self).count() == old(self).count() + 1 ==> r == old(self).count(),
    {
        let ghost pre = *self;
        let n = self.full.len();
        let mut k: usize = 0;
        let mut stop = false;
        while k < self.children[p].len() && !stop
            invariant
                *self == pre,
                self.wf(),
                p < self.count(),
                n == self.count(),
                k <= self.num_children(p as int),
                forall|t: int| 0 <= t < k ==> lex_lt(self.names@[#[trigger] self.child_id(p as int, t)]@, name@),
                stop ==> k < self.num_children(p as int) && lex_lt(name@, self.names@[self.child_id(p as int, k as int)]@),
            decreases self.num_children(p as int) - k + (if stop { 0int } else { 1int }),
        {
            let c = self.children[p][k];
            assert(c == self.child_id(p as int, k as int));
            let o = compare_bytes(&self.names[c], name);
            if o == 0 {
                assert(self.path(c as int) == self.path(p as int).push(self.names@[c as int]@));
                return c;
            }
            if o > 0 {
                stop = true;
            } else {
                k = k + 1;
            }
        }
        // no child is named `name`: a new node goes in at position `k`
        proof {
            assert forall|t: int| k <= t < self.num_children(p as int) implies lex_lt(name@, self.names@[#[trigger] self.child_id(p as int, t)]@) by {
                let ck = self.child_id(p as int, k as int);
                if t > k {
                    lemma_lex_lt_transitive(name@, self.names@[ck]@, self.names@[self.child_id(p as int, t)]@);
                }
            }
            assert forall|t: int| 0 <= t < self.num_children(p as int) implies self.names@[#[trigger] self.child_id(p as int, t)]@ != name@ by {
                lemma_lex_lt_irreflexive(name@);
            }
            self.lemma_fresh_path(p as int, name@);
        }
        let ghost old_ch = self.children@[p as int]@;
        let new_path = self.full[p].child(name);
        self.full.push(new_path);
        self.names.push(copy_bytes(name));
        self.parents.push(p);
        self.children.push(Vec::new());
        self.children[p].insert(k, n);
        let ghost new_ch = self.children@[p as int]@;
        proof {
            assert(new_ch == old_ch.insert(k as int, n));
            assert forall|t: int| 0 <= t < new_ch.len() implies #[trigger] new_ch[t] == (if t < k { old_ch[t] } else if t == k { n } else { old_ch[t - 1] }) by {}
            assert forall|i: int| 0 <= i < self.count() && i != p implies #[trigger] self.children@[i]@ == (if i < n { pre.children@[i]@ } else { Seq::<usize>::empty() }) by {}
            assert forall|i: int| 0 <= i < n implies #[trigger] self.path(i) == pre.path(i) by {}
            assert(self.path(n as int) == pre.path(p as int).push(name@));
            assert forall|i: int| 0 < i < self.count() implies {
                &&& #[trigger] self.parents@[i] < i
                &&& self.path(i) == self.path(self.parents@[i] as int).push(self.names@[i]@)
            } by {
                if i < n {
                    assert(pre.parents@[i] < i);
                }
            }
            assert forall|i: int, t: int| 0 <= i < self.count() && 0 <= t < self.num_children(i) implies {
                &&& 0 < #[trigger] self.child_id(i, t) < self.count()
                &&& self.parents@[self.child_id(i, t)] == i
            } by {
                if i == p {
                    if t < k {
                        assert(pre.child_id(i, t) == self.child_id(i, t));
                    } else if t > k {
                        assert(pre.child_id(i, t - 1) == self.child_id(i, t));
                    }
                } else {
                    assert(i < n);
                    assert(pre.child_id(i, t) == self.child_id(i, t));
                }
            }
            assert forall|j: int| 0 < j < self.count() implies #[trigger] self.has_child(self.parents@[j] as int, j) by {
                if j < n {
                    let pj = pre.parents@[j] as int;
                    assert(pre.has_child(pj, j));
                    let t = choose|t: int| 0 <= t < pre.num_children(pj) && #[trigger] pre.child_id(pj, t) == j;
                    if pj == p {
                        if t < k {
                            assert(self.child_id(pj, t) == j);
                        } else {
                            assert(self.child_id(pj, t + 1) == j);
                        }
                    } else {
                        assert(self.child_id(pj, t) == j);
                    }
                } else {
                    assert(self.child_id(p as int, k as int) == n);
                }
            }
            assert forall|i: int, s: int, t: int| 0 <= i < self.count() && 0 <= s < t < self.num_children(i) implies lex_lt(
                self.names@[#[trigger] self.child_id(i, s)]@,
                self.names@[#[trigger] self.child_id(i, t)]@,
            ) by {
                if i == p {
                    assert(self.names@[n as int]@ == name@);
                    if t < k {
                        assert(pre.child_id(i, s) == self.child_id(i, s));
                        assert(pre.child_id(i, t) == self.child_id(i, t));
                        assert(lex_lt(pre.names@[pre.child_id(i, s)]@, pre.names@[pre.child_id(i, t)]@));
                    } else if t == k {
                        assert(pre.child_id(i, s) == self.child_id(i, s));
                        assert(lex_lt(pre.names@[pre.child_id(i, s)]@, name@));
                    } else if s < k {
                        assert(pre.child_id(i, s) == self.child_id(i, s));
                        assert(pre.child_id(i, t - 1) == self.child_id(i, t));
                        assert(lex_lt(pre.names@[pre.child_id(i, s)]@, name@));
                        assert(lex_lt(name@, pre.names@[pre.child_id(i, t - 1)]@));
                        lemma_lex_lt_transitive(pre.names@[pre.child_id(i, s)]@, name@, pre.names@[pre.child_id(i, t - 1)]@);
                    } else if s == k {
                        assert(pre.child_id(i, t - 1) == self.child_id(i, t));
                        assert(lex_lt(name@, pre.names@[pre.child_id(i, t - 1)]@));
                    } else {
                        assert(pre.child_id(i, s - 1) == self.child_id(i, s));
                        assert(pre.child_id(i, t - 1) == self.child_id(i, t));
                        assert(lex_lt(pre.names@[pre.child_id(i, s - 1)]@, pre.names@[pre.child_id(i, t - 1)]@));
                    }
                } else if i < n {
                    assert(pre.child_id(i, s) == self.child_id(i, s));
                    assert(pre.child_id(i, t) == self.child_id(i, t));
                    assert(lex_lt(pre.names@[pre.child_id(i, s)]@, pre.names@[pre.child_id(i, t)]@));
                }
            }
            assert forall|i: int, j: int| 0 <= i < self.count() && 0 <= j < self.count() && i != j implies #[trigger] self.path(i) != #[trigger] self.path(j) by {
                if i < n && j < n {
                    assert(pre.path(i) != pre.path(j));
                } else if i < n {
                    assert(pre.path(i) != pre.path(p as int).push(name@));
                } else {
                    assert(pre.path(j) != pre.path(p as int).push(name@));
                }
            }
            assert(is_prefix(self.root@, pre.path(p as int)));
            assert(self.path(n as int).subrange(0, self.root@.len() as int) =~= pre.path(p as int).subrange(0, self.root@.len() as int));
            assert forall|i: int| 0 <= i < self.count() implies is_prefix(self.root@, #[trigger] self.path(i)) by {
                if i < n {
                    assert(is_prefix(self.root@, pre.path(i)));
                }
            }
            assert forall|i: int| 0 < i < self.count() implies #[trigger] self.path(i).len() > self.root@.len() by {
                if i < n {
                    assert(pre.path(i).len() > self.root@.len());
                }
            }
        }
        n
    }
}

impl PathIndex {
    /// Adds the nodes on the way from the root to `f`, `f` included.
    fn insert_file(&mut self, f: &TreePath)
        requires
            old(self).wf(),
            is_prefix(old(self).root@, f@),
        ensures
            final(self).wf(),
            final(self).root@ == old(self).root@,
            old(self).count() <= final(self).count(),
            forall|i: int| 0 <= i < old(self).count() ==> #[trigger] final(self).path(i) == old(self).path(i),
            forall|i: int| old(self).count() <= i < final(self).count() ==> is_prefix(#[trigger] final(self).path(i), f@),
            forall|d: int| old(self).root@.len() <= d <= f@.len() ==>
                exists|i: int| 0 <= i < final(self).count() && #[trigger] final(self).path(i) == #[trigger] f@.subrange(0, d),
    {
        let ghost pre = *self;
        let mut cur: usize = 0;
        let mut d: usize = self.root.len();
        assert(self.path(0) =~= f@.subrange(0, d as int));
        while d < f.len()
            invariant
                self.wf(),
                self.root@ == pre.root@,
                pre.count() <= self.count(),
                forall|i: int| 0 <= i < pre.count() ==> #[trigger] self.path(i) == pre.path(i),
                forall|i: int| pre.count() <= i < self.count() ==> is_prefix(#[trigger] self.path(i), f@),
                pre.root@.len() <= d <= f@.len(),
                cur < self.count(),
                self.path(cur as int) == f@.subrange(0, d as int),
                forall|e: int| pre.root@.len() <= e <= d ==>
                    exists|i: int| 0 <= i < self.count() && #[trigger] self.path(i) == #[trigger] f@.subrange(0, e),
            decreases f@.len() - d,
        {
            let ghost mid = *self;
            let r = self.child_named(cur, &f.comps[d]);
            proof {
                assert(f@[d as int] == f.comps@[d as int]@);
                assert(self.path(r as int) =~= f@.subrange(0, d + 1));
                assert forall|i: int| pre.count() <= i < self.count() implies is_prefix(#[trigger] self.path(i), f@) by {
                    if i < mid.count() {
                        assert(mid.path(i) == self.path(i));
                    } else {
                        assert(self.path(i).len() == d + 1);
                        assert(f@.subrange(0, self.path(i).len() as int) == f@.subrange(0, d + 1));
                    }
                }
                assert forall|e: int| pre.root@.len() <= e <= d + 1 implies
                    exists|i: int| 0 <= i < self.count() && #[trigger] self.path(i) == #[trigger] f@.subrange(0, e) by {
                    if e <= d {
                        let i = choose|i: int| 0 <= i < mid.count() && #[trigger] mid.path(i) == #[trigger] f@.subrange(0, e);
                        assert(self.path(i) == mid.path(i));
                    } else {
                        assert(self.path(r as int) == f@.subrange(0, e));
                    }
                }
            }
            cur = r;
            d = d + 1;
        }
    }
}

/// Builds the index of the directory tree that `files` implies: the root is
/// their longest common prefix, and the nodes are exactly the root and every
/// prefix of a file that extends the root (files included).
pub fn path_map(files: &Vec<TreePath>) -> (r: PathIndex)
    ensures
        r.wf(),
        is_longest_common_prefix(r.root@, views(files@)),
        r.covers(views(files@)),
        forall|i: int, c: Seq<Seq<u8>>|
            0 <= i < r.count() ==> (#[trigger] r.child_paths(i).contains(c) <==> step_toward(r.path(i), views(files@), c)),
{
    let ghost fs = views(files@);
    let root = longest_common_prefix(files);
    let mut index = PathIndex::new(root);
    let mut j: usize = 0;
    while j < files.len()
        invariant
            fs == views(files@),
            index.wf(),
            is_longest_common_prefix(index.root@, fs),
            j <= files.len(),
            index.covers(fs.subrange(0, j as int)),
        decreases files.len() - j,
    {
        let ghost pre = index;
        let ghost done = fs.subrange(0, j as int);
        let ghost next = fs.subrange(0, j + 1);
        assert(fs[j as int] == files@[j as int]@);
        assert(is_prefix(index.root@, fs[j as int]));
        index.insert_file(&files[j]);
        proof {
            assert forall|i: int| 0 < i < index.count() implies #[trigger] index.on_way(i, next) by {
                if i < pre.count() {
                    assert(pre.path(i) == index.path(i));
                    assert(pre.on_way(i, done));
                    let k = choose|k: int| 0 <= k < done.len() && is_prefix(pre.path(i), #[trigger] done[k]);
                    assert(next[k] == done[k]);
                } else {
                    assert(next[j as int] == fs[j as int]);
                    assert(is_prefix(index.path(i), next[j as int]));
                }
            }
            assert forall|k: int, d: int| 0 <= k < next.len() && index.root@.len() <= d <= next[k].len() implies
                #[trigger] index.holds_path(next[k].subrange(0, d)) by {
                if k < j {
                    assert(next[k] == done[k]);
                    assert(pre.holds_path(done[k].subrange(0, d)));
                    let i = choose|i: int| 0 <= i < pre.count() && #[trigger] pre.path(i) == done[k].subrange(0, d);
                    assert(index.path(i) == pre.path(i));
                } else {
                    assert(next[k] == files@[j as int]@);
                    assert(pre.root@.len() <= d <= files@[j as int]@.len());
                    let i = choose|i: int| 0 <= i < index.count() && #[trigger] index.path(i) == #[trigger] files@[j as int]@.subrange(0, d);
                }
            }
            assert(index.covers(next));
        }
        j = j + 1;
    }
    assert(fs.subrange(0, j as int) =~= fs);
    assert forall|i: int, c: Seq<Seq<u8>>| 0 <= i < index.count() implies (#[trigger] index.child_paths(i).contains(c) <==> step_toward(index.path(i), fs, c)) by {
        index.lemma_children_exact(fs, i, c);
    }
    index
}

/// `c` is `p` followed by the next component of some path of `fs` that `p`
/// is a proper prefix of.
pub open spec fn step_toward(p: Seq<Seq<u8>>, fs: Seq<Seq<Seq<u8>>>, c: Seq<Seq<u8>>) -> bool {
    exists|k: int|
        0 <= k < fs.len() && p.len() < fs[k].len() && is_prefix(p, #[trigger] fs[k]) && c == fs[k].subrange(
            0,
            p.len() + 1 as int,
        )
}

impl PathIndex {
    /// Node `i` can be reached from node 0 in at most `steps` steps down
    /// child links.
    pub open spec fn reachable(&self, i: int, steps: nat) -> bool
        decreases steps,
    {
        i == 0 || (steps > 0 && exists|j: int|
            0 <= j < self.count() && #[trigger] self.has_child(j, i) && self.reachable(j, (steps - 1) as nat))
    }

    /// The children of node `i` are exactly the one-component steps from its
    /// path toward the files; it is a key exactly when its path is a proper
    /// prefix of some file.
    pub proof fn lemma_children_exact(&self, fs: Seq<Seq<Seq<u8>>>, i: int, c: Seq<Seq<u8>>)
        requires
            self.wf(),
            self.covers(fs),
            0 <= i < self.count(),
        ensures
            self.child_paths(i).contains(c) <==> step_toward(self.path(i), fs, c),
            self.is_key(i) <==> exists|k: int| 0 <= k < fs.len() && is_prefix(self.path(i), #[trigger] fs[k]) && self.path(i).len() < fs[k].len(),
    {
        self.lemma_child_iff(fs, i, c);
        let p = self.path(i);
        if self.is_key(i) {
            let c0 = self.path(self.child_id(i, 0));
            assert(self.child_paths(i)[0] == c0);
            self.lemma_child_iff(fs, i, c0);
        }
        if exists|k: int| 0 <= k < fs.len() && is_prefix(p, #[trigger] fs[k]) && p.len() < fs[k].len() {
            let k = choose|k: int| 0 <= k < fs.len() && is_prefix(p, #[trigger] fs[k]) && p.len() < fs[k].len();
            let c1 = fs[k].subrange(0, p.len() + 1 as int);
            assert(step_toward(p, fs, c1));
            self.lemma_child_iff(fs, i, c1);
        }
    }

    proof fn lemma_child_iff(&self, fs: Seq<Seq<Seq<u8>>>, i: int, c: Seq<Seq<u8>>)
        requires
            self.wf(),
            self.covers(fs),
            0 <= i < self.count(),
        ensures
            self.child_paths(i).contains(c) <==> step_toward(self.path(i), fs, c),
    {
        let p = self.path(i);
        if self.child_paths(i).contains(c) {
            let t = choose|t: int| 0 <= t < self.child_paths(i).len() && self.child_paths(i)[t] == c;
            let j = self.child_id(i, t);
            assert(self.on_way(j, fs));
            let k = choose|k: int| 0 <= k < fs.len() && is_prefix(self.path(j), #[trigger] fs[k]);
            assert(self.path(j) == p.push(self.names@[j]@));
            assert(fs[k].subrange(0, p.len() as int) =~= self.path(j).subrange(0, p.len() as int));
            assert(self.path(j).subrange(0, p.len() as int) =~= p);
            assert(step_toward(p, fs, c));
        }
        if step_toward(p, fs, c) {
            let k = choose|k: int| 0 <= k < fs.len() && p.len() < fs[k].len() && is_prefix(p, #[trigger] fs[k]) && c == fs[k].subrange(0, p.len() + 1 as int);
            assert(is_prefix(self.root@, p));
            assert(self.holds_path(fs[k].subrange(0, p.len() + 1 as int)));
            let j = choose|j: int| 0 <= j < self.count() && #[trigger] self.path(j) == c;
            assert(j != 0);
            let pj = self.parents@[j] as int;
            assert(self.path(pj) =~= c.drop_last());
            assert(c.drop_last() =~= p);
            assert(pj == i);
            assert(self.has_child(i, j));
            let t = choose|t: int| 0 <= t < self.num_children(i) && #[trigger] self.child_id(i, t) == j;
            assert(self.child_paths(i)[t] == c);
        }
    }

    /// Every node is reachable from the root node down child links.
    pub proof fn lemma_reachable(&self, i: int)
        requires
            self.wf(),
            0 <= i < self.count(),
        ensures
            self.reachable(i, i as nat),
        decreases i,
    {
        if i > 0 {
            let j = self.parents@[i] as int;
            self.lemma_reachable(j);
            self.lemma_reachable_more(j, j as nat, (i - 1) as nat);
            assert(self.has_child(j, i));
        }
    }

    proof fn lemma_reachable_more(&self, i: int, s: nat, t: nat)
        requires
            self.reachable(i, s),
            s <= t,
        ensures
            self.reachable(i, t),
        decreases s,
    {
        if i != 0 {
            let j = choose|j: int| 0 <= j < self.count() && #[trigger] self.has_child(j, i) && self.reachable(j, (s - 1) as nat);
            self.lemma_reachable_more(j, (s - 1) as nat, (t - 1) as nat);
        }
    }

    /// No path is a child of two nodes.
    pub proof fn lemma_one_parent(&self, i1: int, i2: int, c: Seq<Seq<u8>>)
        requires
            self.wf(),
            0 <= i1 < self.count(),
            0 <= i2 < self.count(),
            self.child_paths(i1).contains(c),
            self.child_paths(i2).contains(c),
        ensures
            i1 == i2,
    {
        let t1 = choose|t: int| 0 <= t < self.child_paths(i1).len() && self.child_paths(i1)[t] == c;
        let t2 = choose|t: int| 0 <= t < self.child_paths(i2).len() && self.child_paths(i2)[t] == c;
        assert(self.path(self.child_id(i1, t1)) == self.path(self.child_id(i2, t2)));
    }

    /// Every node, and so every key, is reachable from the common root down
    /// child links.
    pub proof fn lemma_all_reachable(&self)
        requires
            self.wf(),
        ensures
            forall|i: int| 0 <= i < self.count() ==> #[trigger] self.reachable(i, i as nat),
    {
        assert forall|i: int| 0 <= i < self.count() implies #[trigger] self.reachable(i, i as nat) by {
            self.lemma_reachable(i);
        }
    }
}

impl PathIndex {
    /// The number of children of `node`.
    pub fn child_count(&self, node: usize) -> (r: usize)
        requires
            self.wf(),
            node < self.count(),
        ensures
            r == self.num_children(node as int),
    {
        self.children[node].len()
    }

    /// The `t`-th child of `node`, in ascending order of name.
    pub fn child(&self, node: usize, t: usize) -> (r: usize)
        requires
            self.wf(),
            node < self.count(),
            t < self.num_children(node as int),
        ensures
            r == self.child_id(node as int, t as int),
            0 < r < self.count(),
    {
        self.children[node][t]
    }

    /// Whether `node` has children of its own, so that it can be browsed.
    pub fn is_dir(&self, node: usize) -> (r: bool)
        requires
            self.wf(),
            node < self.count(),
        ensures
            r == self.is_key(node as int),
    {
        self.children[node].len() > 0
    }

    /// The parent of a node other than the root node.
    pub fn parent(&self, node: usize) -> (r: usize)
        requires
            self.wf(),
            0 < node < self.count(),
        ensures
            r == self.parents@[node as int],
            r < node,
            self.path(r as int) == self.path(node as int).drop_last(),
    {
        assert(self.path(node as int).drop_last() =~= self.path(self.parents@[node as int] as int));
        self.parents[node]
    }

    /// The full path of `node`.
    pub fn path_of(&self, node: usize) -> (r: &TreePath)
        requires
            self.wf(),
            node < self.count(),
        ensures
            r@ == self.path(node as int),
    {
        &self.full[node]
    }

    /// The last component of a node other than the root node.
    pub fn name_of(&self, node: usize) -> (r: &Vec<u8>)
        requires
            self.wf(),
            0 < node < self.count(),
        ensures
            r@ == self.path(node as int).last(),
    {
        assert(self.path(node as int) == self.path(self.parents@[node as int] as int).push(self.names@[node as int]@));
        &self.names[node]
    }

    /// The node whose path is `p`, if there is one.
    pub fn find(&self, p: &TreePath) -> (r: Option<usize>)
        requires
            self.wf(),
        ensures
            match r {
                Some(i) => i < self.count() && self.path(i as int) == p@,
                None => !self.holds_path(p@),
            },
    {
        let mut i: usize = 0;
        while i < self.full.len()
            invariant
                self.wf(),
                i <= self.count(),
                forall|j: int| 0 <= j < i ==> #[trigger] self.path(j) != p@,
            decreases self.count() - i,
        {
            if paths_eq(&self.full[i], p) {
                return Some(i);
            }
            i = i + 1;
        }
        None
    }
}

} // verus!
