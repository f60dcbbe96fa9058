use tokei_tui::index::{path_map, PathIndex};
use tokei_tui::paths::{compare_bytes, longest_common_prefix, paths_eq, records_under, starts_with, TreePath};

fn tp(s: &str) -> TreePath {
    TreePath {
        comps: s.split('/').filter(|c| !c.is_empty()).map(|c| c.as_bytes().to_vec()).collect(),
    }
}

fn paths(ps: &[&str]) -> Vec<TreePath> {
    ps.iter().map(|p| tp(p)).collect()
}

fn text(p: &TreePath) -> String {
    let parts: Vec<String> = p.comps.iter().map(|c| String::from_utf8(c.clone()).unwrap()).collect();
    format!("/{}", parts.join("/"))
}

fn children_of(index: &PathIndex, p: &str) -> Vec<String> {
    let node = index.find(&tp(p)).expect("node");
    (0..index.child_count(node)).map(|t| text(index.path_of(index.child(node, t)))).collect()
}

#[test]
fn three_files_example() {
    let index = path_map(&paths(&["/a/b/x.rs", "/a/b/y.rs", "/a/c/z.rs"]));
    assert_eq!(text(&index.root), "/a");
    assert_eq!(index.find(&tp("/a")), Some(0));
    assert_eq!(children_of(&index, "/a"), vec!["/a/b", "/a/c"]);
    assert_eq!(children_of(&index, "/a/b"), vec!["/a/b/x.rs", "/a/b/y.rs"]);
    assert_eq!(children_of(&index, "/a/c"), vec!["/a/c/z.rs"]);
    assert!(index.is_dir(index.find(&tp("/a/b")).unwrap()));
    assert!(!index.is_dir(index.find(&tp("/a/b/x.rs")).unwrap()));
    assert_eq!(index.find(&tp("/")), None);
}

#[test]
fn children_sorted_and_unique() {
    let index = path_map(&paths(&["/r/b", "/r/a", "/r/B", "/r/a", "/r/ab"]));
    assert_eq!(text(&index.root), "/r");
    assert_eq!(children_of(&index, "/r"), vec!["/r/B", "/r/a", "/r/ab", "/r/b"]);
}

#[test]
fn empty_input() {
    let index = path_map(&Vec::new());
    assert_eq!(index.root.comps.len(), 0);
    assert_eq!(index.child_count(0), 0);
    assert!(!index.is_dir(0));
}

#[test]
fn single_file_is_its_own_root() {
    let index = path_map(&paths(&["/a/b/x.rs"]));
    assert_eq!(text(&index.root), "/a/b/x.rs");
    assert_eq!(index.child_count(0), 0);
}

#[test]
fn every_node_reaches_root() {
    let index = path_map(&paths(&["/p/q/r/s.rs", "/p/q/t.rs", "/p/u/v/w/x.rs", "/p/y.rs"]));
    let total = count_nodes(&index);
    assert_eq!(total, 10);
    for start in 1..total {
        let mut node = start;
        while node != 0 {
            let parent = index.parent(node);
            assert!(parent < node);
            let listed: Vec<usize> = (0..index.child_count(parent))
                .filter(|t| index.child(parent, *t) == node)
                .collect();
            assert_eq!(listed.len(), 1);
            node = parent;
        }
    }
}

fn count_nodes(index: &PathIndex) -> usize {
    let mut n = 1;
    let mut stack = vec![0usize];
    while let Some(v) = stack.pop() {
        for t in 0..index.child_count(v) {
            stack.push(index.child(v, t));
            n += 1;
        }
    }
    n
}

#[test]
fn common_prefix_is_by_component() {
    let lcp = longest_common_prefix(&paths(&["/a/b/x.rs", "/a/b/xy.rs"]));
    assert_eq!(text(&lcp), "/a/b");
    let lcp = longest_common_prefix(&paths(&["/a/bc", "/a/bd"]));
    assert_eq!(text(&lcp), "/a");
    let lcp = longest_common_prefix(&paths(&["/x", "/y"]));
    assert_eq!(lcp.comps.len(), 0);
}

#[test]
fn byte_order() {
    assert!(compare_bytes(&b"a".to_vec(), &b"b".to_vec()) < 0);
    assert!(compare_bytes(&b"ab".to_vec(), &b"a".to_vec()) > 0);
    assert_eq!(compare_bytes(&b"ab".to_vec(), &b"ab".to_vec()), 0);
    assert!(compare_bytes(&b"B".to_vec(), &b"a".to_vec()) < 0);
    assert!(paths_eq(&tp("/a/b"), &tp("/a/b")));
    assert!(!paths_eq(&tp("/a/b"), &tp("/a/c")));
    assert!(!paths_eq(&tp("/a"), &tp("/a/b")));
}

#[test]
fn prefix_and_child_copy() {
    let p = tp("/a/b/c");
    assert_eq!(text(&p.prefix(2)), "/a/b");
    assert_eq!(text(&p.child(&b"d".to_vec())), "/a/b/c/d");
    assert_eq!(p.len(), 3);
}

#[test]
fn records_under_a_node() {
    let files = paths(&["/a/b/x.rs", "/a/c/z.rs", "/a/b/y.rs", "/a/bb/q.rs"]);
    assert_eq!(records_under(&files, &tp("/a/b")), vec![0, 2]);
    assert_eq!(records_under(&files, &tp("/a")), vec![0, 1, 2, 3]);
    assert_eq!(records_under(&files, &tp("/a/c/z.rs")), vec![1]);
    assert_eq!(records_under(&files, &tp("/z")), Vec::<usize>::new());
    assert!(starts_with(&tp("/a/b/x.rs"), &tp("/a/b")));
    assert!(!starts_with(&tp("/a/bb/q.rs"), &tp("/a/b")));
    assert!(!starts_with(&tp("/a"), &tp("/a/b")));
}
