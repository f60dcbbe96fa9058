//! Paths as sequences of components, their order, and their longest common prefix.
use vstd::prelude::*;

verus! {

/// A path held as its components, one byte string each (`/a/b` is `["a", "b"]`).
pub struct TreePath {
    pub comps: Vec<Vec<u8>>,
}

impl View for TreePath {
    type V = Seq<Seq<u8>>;

    open spec fn view(&self) -> Seq<Seq<u8>> {
        comps_view(self.comps@)
    }
}

/// The components' byte strings.
pub open spec fn comps_view(s: Seq<Vec<u8>>) -> Seq<Seq<u8>> {
    s.map_values(|c: Vec<u8>| c@)
}

/// The views of a sequence of paths.
pub open spec fn views(ps: Seq<TreePath>) -> Seq<Seq<Seq<u8>>> {
    ps.map_values(|p: TreePath| p@)
}

/// `a` is a (not necessarily proper) prefix of `b`, component by component.
pub open spec fn is_prefix(a: Seq<Seq<u8>>, b: Seq<Seq<u8>>) -> bool {
    a.len() <= b.len() && b.subrange(0, a.len() as int) == a
}

/// `r` is a prefix of every path in `ps`.
pub open spec fn is_common_prefix(r: Seq<Seq<u8>>, ps: Seq<Seq<Seq<u8>>>) -> bool {
    forall|i: int| 0 <= i < ps.len() ==> is_prefix(r, #[trigger] ps[i])
}

/// `r` is the longest prefix shared by every path in `ps`; the empty path when
/// `ps` is empty.
pub open spec fn is_longest_common_prefix(r: Seq<Seq<u8>>, ps: Seq<Seq<Seq<u8>>>) -> bool {
    if ps.len() == 0 {
        r.len() == 0
    } else {
        &&& is_common_prefix(r, ps)
        &&& forall|q: Seq<Seq<u8>>| #[trigger] is_common_prefix(q, ps) ==> q.len() <= r.len()
    }
}

/// Lexicographic order on byte strings: `a` comes strictly before `b`.
pub open spec fn lex_lt(a: Seq<u8>, b: Seq<u8>) -> bool {
    exists|i: int| #[trigger] lex_lt_at(a, b, i)
}

/// `a` and `b` agree before index `i`, and `i` is where `a` comes first.
pub open spec fn lex_lt_at(a: Seq<u8>, b: Seq<u8>, i: int) -> bool {
    &&& 0 <= i <= a.len()
    &&& i < b.len()
    &&& forall|j: int| 0 <= j < i ==> a[j] == b[j]
    &&& (i == a.len() || a[i] < b[i])
}

pub proof fn lemma_lex_lt_irreflexive(a: Seq<u8>)
    ensures
        !lex_lt(a, a),
{
}

pub proof fn lemma_lex_lt_asymmetric(a: Seq<u8>, b: Seq<u8>)
    requires
        lex_lt(a, b),
    ensures
        !lex_lt(b, a),
{
    let i = choose|i: int| lex_lt_at(a, b, i);
    if lex_lt(b, a) {
        let k = choose|k: int| lex_lt_at(b, a, k);
        if i < k {
            assert(a[i] == b[i]);
        } else if k < i {
            assert(a[k] == b[k]);
        }
    }
}

pub proof fn lemma_lex_lt_transitive(a: Seq<u8>, b: Seq<u8>, c: Seq<u8>)
    requires
        lex_lt(a, b),
        lex_lt(b, c),
    ensures
        lex_lt(a, c),
{
    let i = choose|i: int| lex_lt_at(a, b, i);
    let k = choose|k: int| lex_lt_at(b, c, k);
    if i <= k {
        assert(lex_lt_at(a, c, i));
    } else {
        assert(lex_lt_at(a, c, k));
    }
}

/// Compares two byte strings: negative, zero or positive as `a` comes before,
/// equals, or comes after `b`.
pub fn compare_bytes(a: &Vec<u8>, b: &Vec<u8>) -> (r: i8)
    ensures
        r < 0 <==> lex_lt(a@, b@),
        r == 0 <==> a@ == b@,
        r > 0 <==> lex_lt(b@, a@),
{
    let mut i: usize = 0;
    while i < a.len() && i < b.len() && a[i] == b[i]
        invariant
            i <= a.len(),
            i <= b.len(),
            forall|j: int| 0 <= j < i ==> a@[j] == b@[j],
        decreases a.len() - i,
    {
        i = i + 1;
    }
    if i < a.len() && i < b.len() {
        if a[i] < b[i] {
            assert(lex_lt_at(a@, b@, i as int));
            proof { lemma_lex_lt_asymmetric(a@, b@); }
            -1
        } else {
            assert(lex_lt_at(b@, a@, i as int));
            proof { lemma_lex_lt_asymmetric(b@, a@); }
            1
        }
    } else if i < b.len() {
        assert(lex_lt_at(a@, b@, i as int));
        proof { lemma_lex_lt_asymmetric(a@, b@); }
        -1
    } else if i < a.len() {
        assert(lex_lt_at(b@, a@, i as int));
        proof { lemma_lex_lt_asymmetric(b@, a@); }
        1
    } else {
        assert(a@ =~= b@);
        0
    }
}

/// A copy of a byte string.
pub fn copy_bytes(a: &Vec<u8>) -> (r: Vec<u8>)
    ensures
        r@ == a@,
{
    let mut r: Vec<u8> = Vec::with_capacity(a.len());
    let mut i: usize = 0;
    while i < a.len()
        invariant
            i <= a.len(),
            r@ == a@.subrange(0, i as int),
        decreases a.len() - i,
    {
        r.push(a[i]);
        i = i + 1;
    }
    assert(r@ =~= a@);
    r
}

impl TreePath {
    /// The path made of the first `n` components of `self`.
    pub fn prefix(&self, n: usize) -> (r: TreePath)
        requires
            n <= self@.len(),
        ensures
            r@ == self@.subrange(0, n as int),
    {
        let mut comps: Vec<Vec<u8>> = Vec::with_capacity(n);
        let mut i: usize = 0;
        while i < n
            invariant
                i <= n,
                n <= self.comps.len(),
                comps.len() == i,
                comps_view(comps@) =~= self@.subrange(0, i as int),
            decreases n - i,
        {
            let c = copy_bytes(&self.comps[i]);
            let ghost prev = comps@;
            comps.push(c);
            assert forall|t: int| 0 <= t < i + 1 implies #[trigger] comps_view(comps@)[t]
                == self@.subrange(0, i + 1)[t] by {
                if t < i {
                    assert(comps_view(prev)[t] == self@.subrange(0, i as int)[t]);
                    assert(comps@[t] == prev[t]);
                } else {
                    assert(comps@[t] == comps@.last());
                    assert(self@[t] == self.comps@[t]@);
                }
            }
            assert(comps_view(comps@) =~= self@.subrange(0, i + 1));
            i = i + 1;
        }
        TreePath { comps }
    }

    /// The path of `self` followed by one more component.
    pub fn child(&self, name: &Vec<u8>) -> (r: TreePath)
        ensures
            r@ == self@.push(name@),
    {
        let mut r = self.prefix(self.len());
        let ghost prev = r.comps@;
        r.comps.push(copy_bytes(name));
        assert(r@ =~= self@.push(name@)) by {
            assert(comps_view(prev) =~= self@);
            assert forall|t: int| 0 <= t < r@.len() implies #[trigger] r@[t] == self@.push(name@)[t] by {
                if t < self@.len() {
                    assert(r.comps@[t] == prev[t]);
                    assert(comps_view(prev)[t] == self@[t]);
                }
            }
        }
        r
    }

    /// The number of components.
    pub fn len(&self) -> (r: usize)
        ensures
            r == self@.len(),
    {
        self.comps.len()
    }
}

/// The longest path that is a prefix of every path in `files`, component by
/// component; the empty path when `files` is empty.
pub fn longest_common_prefix(files: &Vec<TreePath>) -> (r: TreePath)
    ensures
        is_longest_common_prefix(r@, views(files@)),
{
    if files.len() == 0 {
        return TreePath { comps: Vec::new() };
    }
    let ghost ps = views(files@);
    let first = &files[0];
    let mut n: usize = first.len();
    // a path that stops at `n` or differs from `first` there
    let mut witness: Ghost<int> = Ghost(0);
    let mut j: usize = 1;
    while j < files.len()
        invariant
            ps == views(files@),
            first == files@[0],
            1 <= j <= files.len(),
            n <= first@.len(),
            0 <= witness@ < j,
            forall|k: int| 0 <= k < j ==> is_prefix(first@.subrange(0, n as int), #[trigger] ps[k]),
            n == ps[witness@].len() || (n < ps[witness@].len() && n < first@.len()
                && ps[witness@][n as int] != first@[n as int]),
        decreases files.len() - j,
    {
        let other = &files[j];
        let mut m: usize = 0;
        while m < n && m < other.comps.len() && bytes_eq(&first.comps[m], &other.comps[m])
            invariant
                m <= n,
                j < files.len(),
                n <= first@.len(),
                m <= other@.len(),
                other == files@[j as int],
                first == files@[0],
                forall|t: int| 0 <= t < m ==> first@[t] == other@[t],
            decreases n - m,
        {
            m = m + 1;
        }
        assert(ps[j as int] == other@);
        if m < n {
            let ghost old_n = n;
            n = m;
            witness = Ghost(j as int);
            assert forall|k: int| 0 <= k <= j implies is_prefix(first@.subrange(0, n as int), #[trigger] ps[k]) by {
                if k < j {
                    assert(is_prefix(first@.subrange(0, old_n as int), ps[k]));
                    assert(ps[k].subrange(0, n as int) =~= ps[k].subrange(0, old_n as int).subrange(0, n as int));
                    assert(first@.subrange(0, n as int) =~= first@.subrange(0, old_n as int).subrange(0, n as int));
                } else {
                    assert(ps[k].subrange(0, n as int) =~= first@.subrange(0, n as int));
                }
            }
        } else {
            assert(ps[j as int].subrange(0, n as int) =~= first@.subrange(0, n as int));
        }
        j = j + 1;
    }
    let r = first.prefix(n);
    assert forall|q: Seq<Seq<u8>>| #[trigger] is_common_prefix(q, ps) implies q.len() <= r@.len() by {
        let w = witness@;
        assert(is_prefix(q, ps[w]));
        assert(is_prefix(q, ps[0]));
        if q.len() > n {
            assert(q[n as int] == ps[w][n as int]);
            assert(q[n as int] == ps[0][n as int]);
        }
    }
    r
}

/// Whether two byte strings are equal.
pub fn bytes_eq(a: &Vec<u8>, b: &Vec<u8>) -> (r: bool)
    ensures
        r == (a@ == b@),
{
    compare_bytes(a, b) == 0
}

/// Whether two paths are equal.
pub fn paths_eq(a: &TreePath, b: &TreePath) -> (r: bool)
    ensures
        r == (a@ == b@),
{
    if a.comps.len() != b.comps.len() {
        return false;
    }
    let mut i: usize = 0;
    while i < a.comps.len()
        invariant
            a@.len() == b@.len(),
            i <= a@.len(),
            forall|t: int| 0 <= t < i ==> a@[t] == b@[t],
        decreases a@.len() - i,
    {
        if !bytes_eq(&a.comps[i], &b.comps[i]) {
            assert(a@[i as int] != b@[i as int]);
            return false;
        }
        i = i + 1;
    }
    assert(a@ =~= b@);
    true
}

/// Whether `a` is a prefix of `b`, component by component.
pub fn starts_with(b: &TreePath, a: &TreePath) -> (r: bool)
    ensures
        r == is_prefix(a@, b@),
{
    if a.comps.len() > b.comps.len() {
        return false;
    }
    let mut i: usize = 0;
    while i < a.comps.len()
        invariant
            a@.len() <= b@.len(),
            i <= a@.len(),
            forall|t: int| 0 <= t < i ==> a@[t] == b@[t],
        decreases a@.len() - i,
    {
        if !bytes_eq(&a.comps[i], &b.comps[i]) {
            assert(b@.subrange(0, a@.len() as int)[i as int] != a@[i as int]);
            return false;
        }
        i = i + 1;
    }
    assert(b@.subrange(0, a@.len() as int) =~= a@);
    true
}

/// The positions in `files`, ascending, of the files that lie at or below
/// `node`: the records whose statistics belong to it.
pub fn records_under(files: &Vec<TreePath>, node: &TreePath) -> (r: Vec<usize>)
    ensures
        forall|s: int, t: int| 0 <= s < t < r@.len() ==> r@[s] < r@[t],
        forall|t: int| 0 <= t < r@.len() ==> #[trigger] r@[t] < files@.len(),
        forall|k: int|
            0 <= k < files@.len() ==> (r@.contains(k as usize) <==> is_prefix(node@, #[trigger] files@[k]@)),
{
    let mut r: Vec<usize> = Vec::new();
    let mut k: usize = 0;
    while k < files.len()
        invariant
            k <= files@.len(),
            forall|s: int, t: int| 0 <= s < t < r@.len() ==> r@[s] < r@[t],
            forall|t: int| 0 <= t < r@.len() ==> #[trigger] r@[t] < k,
            forall|j: int| 0 <= j < k ==> (r@.contains(j as usize) <==> is_prefix(node@, #[trigger] files@[j]@)),
        decreases files@.len() - k,
    {
        let ghost prev = r@;
        if starts_with(&files[k], node) {
            r.push(k);
            assert(r@.last() == k);
            assert forall|j: int| 0 <= j < k implies (#[trigger] r@.contains(j as usize) <==> prev.contains(j as usize)) by {
                if prev.contains(j as usize) {
                    let t = choose|t: int| 0 <= t < prev.len() && prev[t] == j as usize;
                    assert(r@[t] == j as usize);
                }
                if r@.contains(j as usize) {
                    let t = choose|t: int| 0 <= t < r@.len() && r@[t] == j as usize;
                    if t < prev.len() {
                        assert(prev[t] == j as usize);
                    }
                }
            }
            assert(r@[prev.len() as int] == k);
        } else {
            assert(!r@.contains(k));
        }
        k = k + 1;
    }
    r
}

} // verus!
