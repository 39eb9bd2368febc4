use std::collections::HashMap;

use watch_rs::metadata::Snapshot;
use watch_rs::modes::Cut;
use watch_rs::node::Node;
use watch_rs::treemap::{Treemap, clone_path, same_path};

struct FakeFs {
    times: HashMap<Vec<String>, i128>,
}

impl FakeFs {
    /// What a look at this filesystem finds now.
    fn snap(&self) -> Snapshot {
        let mut seen = Snapshot::new();
        for (path, t) in &self.times {
            seen.insert(path.clone(), true, Ok(*t));
        }
        seen
    }
}

fn p(parts: &[&str]) -> Vec<String> {
    parts.iter().map(|s| s.to_string()).collect()
}

fn leaves(t: &Treemap) -> Vec<Vec<String>> {
    let mut v = t.poll_map(Cut::Leaves, 0);
    v.sort();
    v
}

#[test]
fn test_conf_node_one_file() {
    let conf_node = Node { command: None, root: p(&["/", "home", "bob_ross"]), path_pattern: None };
    let branch_inner = vec![Treemap::new("bob_ross".to_string(), Vec::new(), p(&["/", "home"]))];
    let branch = vec![Treemap::new("home".to_string(), branch_inner, p(&["/"]))];
    let top = vec![Treemap::new("/".to_string(), branch, Vec::new())];
    assert_eq!(conf_node.build_treemap(Ok(Vec::new())).unwrap(), Treemap::root(top));
}

#[test]
fn new_joins_the_path() {
    let t = Treemap::new("c.txt".to_string(), Vec::new(), p(&["a", "b"]));
    assert_eq!(t.full_path, p(&["a", "b", "c.txt"]));
    assert_eq!(t.node, "c.txt");
    assert_eq!(t.last_update, None);
    assert!(t.branches.is_empty());
}

#[test]
fn root_stands_for_no_path() {
    let t = Treemap::root(Vec::new());
    assert!(t.full_path.is_empty());
    assert!(t.is_root_node());
    assert!(!Treemap::new("a".to_string(), Vec::new(), Vec::new()).is_root_node());
}

#[test]
fn link_conf_node_records_the_spec() {
    let mut t = Treemap::new("a".to_string(), Vec::new(), Vec::new());
    let spec = Node { root: p(&["a"]), path_pattern: None, command: Some("make".to_string()) };
    t.link_conf_node(spec.clone()).link_conf_node(spec);
    assert_eq!(t.conf_node.len(), 2);
    assert_eq!(t.conf_node[0].command, Some("make".to_string()));
}

#[test]
fn merge_adopts_and_combines_branches() {
    let mut a = Node::build_treemap_inner(&p(&["/", "x", "1.txt"]));
    let b = Node::build_treemap_inner(&p(&["/", "x", "2.txt"]));
    let c = Node::build_treemap_inner(&p(&["/", "y"]));
    a.merge(b);
    a.merge(c);
    assert_eq!(a.branches.len(), 1);
    assert_eq!(a.branches[0].branches.len(), 2);
    assert_eq!(leaves(&a), vec![p(&["/", "x", "1.txt"]), p(&["/", "x", "2.txt"]), p(&["/", "y"])]);
}

#[test]
fn merge_of_a_prefix_keeps_the_longer_path_as_leaf() {
    let mut a = Node::build_treemap_inner(&p(&["/", "x"]));
    a.merge(Node::build_treemap_inner(&p(&["/", "x", "1.txt"])));
    assert_eq!(leaves(&a), vec![p(&["/", "x", "1.txt"])]);
}

#[test]
fn merge_order_gives_the_same_leaves() {
    let paths = [p(&["/", "x", "1.txt"]), p(&["/", "y", "2.txt"]), p(&["/", "x", "3.txt"])];
    let mut ab = Node::build_treemap_inner(&paths[0]);
    ab.merge(Node::build_treemap_inner(&paths[1]));
    ab.merge(Node::build_treemap_inner(&paths[2]));
    let mut ba = Node::build_treemap_inner(&paths[2]);
    let mut bc = Node::build_treemap_inner(&paths[1]);
    bc.merge(Node::build_treemap_inner(&paths[0]));
    ba.merge(bc);
    assert_eq!(leaves(&ab), leaves(&ba));
    assert_eq!(leaves(&ab).len(), 3);
}

#[test]
fn merge_keeps_own_times() {
    let fs = FakeFs { times: HashMap::from([(p(&["a"]), 5i128), (p(&["a", "b"]), 7i128)]) };
    let mut a = Node::build_treemap_inner(&p(&["a", "b"]));
    let _ = a.poll_branches(&fs.snap());
    a.merge(Node::build_treemap_inner(&p(&["a", "c"])));
    assert_eq!(a.branches[0].last_update, Some(5));
    assert_eq!(a.branches[0].branches[0].last_update, Some(7));
    assert_eq!(a.branches[0].branches[1].last_update, None);
}

#[test]
fn poll_point_reports_once() {
    let mut fs = FakeFs { times: HashMap::from([(p(&["a"]), 5i128)]) };
    let mut t = Treemap::new("a".to_string(), Vec::new(), Vec::new());
    assert!(t.poll_point(&fs.snap()));
    assert_eq!(t.last_update, Some(5));
    assert!(!t.poll_point(&fs.snap()));
    fs.times.insert(p(&["a"]), 3);
    assert!(!t.poll_point(&fs.snap()));
    assert_eq!(t.last_update, Some(5));
    fs.times.insert(p(&["a"]), 9);
    assert!(t.poll_point(&fs.snap()));
    assert_eq!(t.last_update, Some(9));
    fs.times.clear();
    assert!(t.poll_point(&fs.snap()));
    assert_eq!(t.last_update, None);
    assert!(!t.poll_point(&fs.snap()));
}

#[test]
fn poll_point_counts_unreadable_as_absent() {
    let mut unreadable = Snapshot::new();
    unreadable.insert(p(&["a"]), true, Err(()));
    assert_eq!(unreadable.lookup(&p(&["a"])), None);
    let mut t = Treemap::new("a".to_string(), Vec::new(), Vec::new());
    assert!(!t.poll_point(&unreadable));
    t.last_update = Some(4);
    assert!(t.poll_point(&unreadable));
    assert_eq!(t.last_update, None);
}

#[test]
fn record_applies_one_observation() {
    let mut t = Treemap::new("a".to_string(), Vec::new(), Vec::new());
    assert!(t.record(Some(1)));
    assert!(!t.record(Some(1)));
    assert!(t.record(None));
    assert!(!t.record(None));
}

#[test]
fn poll_branches_prunes_an_unchanged_node() {
    let mut fs = FakeFs {
        times: HashMap::from([(p(&["d"]), 1i128), (p(&["d", "f"]), 1i128), (p(&["d", "g"]), 1i128)]),
    };
    let mut t = Node::build_treemap_inner(&p(&["d", "f"]));
    t.merge(Node::build_treemap_inner(&p(&["d", "g"])));
    let mut first = t.poll_branches(&fs.snap());
    first.sort();
    assert_eq!(first, vec![p(&["d", "f"]), p(&["d", "g"])]);
    fs.times.insert(p(&["d", "g"]), 2);
    assert!(t.poll_branches(&fs.snap()).is_empty());
    assert_eq!(t.branches[0].branches[1].last_update, Some(1));
    fs.times.insert(p(&["d"]), 2);
    assert_eq!(t.poll_branches(&fs.snap()), vec![p(&["d", "g"])]);
}

#[test]
fn alike_trees_compare_equal() {
    let a = Node::build_treemap_inner(&p(&["a", "b"]));
    let b = Node::build_treemap_inner(&p(&["a", "b"]));
    let c = Node::build_treemap_inner(&p(&["a", "c"]));
    assert!(a == b);
    assert!(a != c);
    let mut d = Node::build_treemap_inner(&p(&["a", "b"]));
    d.branches[0].last_update = Some(1);
    assert!(a != d);
}

#[test]
fn paths_compare_by_components() {
    assert!(same_path(&p(&["a", "b"]), &p(&["a", "b"])));
    assert!(!same_path(&p(&["a", "b"]), &p(&["a"])));
    assert!(!same_path(&p(&["a", "b"]), &p(&["a", "c"])));
    assert_eq!(clone_path(&p(&["x", "y"])), p(&["x", "y"]));
}

#[test]
fn merge_keeps_branches_in_component_order() {
    let mut t = Node::build_treemap_inner(&p(&["d", "zeta"]));
    t.merge(Node::build_treemap_inner(&p(&["d", "alpha"])));
    t.merge(Node::build_treemap_inner(&p(&["d", "mu"])));
    t.merge(Node::build_treemap_inner(&p(&["d", "alpha", "x"])));
    let names: Vec<String> = t.branches[0].branches.iter().map(|b| b.node.clone()).collect();
    assert_eq!(names, vec!["alpha".to_string(), "mu".to_string(), "zeta".to_string()]);
    assert_eq!(t.branches[0].branches[0].branches.len(), 1);
}

#[test]
fn trees_built_in_any_order_are_equal() {
    let a = Node::build_tree(&vec![p(&["x", "1"]), p(&["y"]), p(&["x", "2"])]).unwrap();
    let b = Node::build_tree(&vec![p(&["x", "2"]), p(&["x", "1"]), p(&["y"]), p(&["y"])]).unwrap();
    assert_eq!(a, b);
}

#[test]
fn render_draws_one_line_per_node() {
    let t = Node::build_treemap_inner(&p(&["a", "b"]));
    assert_eq!(t.render(), "- \n| -a \n| -b \n");
    let mut u = Node::build_treemap_inner(&p(&["a", "b"]));
    u.merge(Node::build_treemap_inner(&p(&["a", "c"])));
    assert_eq!(u.render(), "- \n| -a \n| -b \n| -c \n");
}

#[test]
fn snapshot_keeps_the_first_observation() {
    let mut seen = Snapshot::new();
    seen.insert(p(&["a"]), true, Ok(3));
    seen.insert(p(&["a"]), true, Ok(9));
    seen.insert(p(&["b"]), false, Ok(9));
    seen.insert(p(&["c"]), true, Ok(-5));
    assert_eq!(seen.lookup(&p(&["a"])), Some(3));
    assert_eq!(seen.lookup(&p(&["b"])), None);
    assert_eq!(seen.lookup(&p(&["c"])), Some(-5));
    assert_eq!(seen.lookup(&p(&["d"])), None);
    assert!(seen.knows_path(&p(&["b"])));
    assert!(!seen.knows_path(&p(&["d"])));
}

#[test]
fn node_paths_lists_every_node_but_the_root() {
    let mut t = Node::build_treemap_inner(&p(&["a", "b"]));
    t.merge(Node::build_treemap_inner(&p(&["a", "c"])));
    let mut all = t.node_paths();
    all.sort();
    assert_eq!(all, vec![p(&["a"]), p(&["a", "b"]), p(&["a", "c"])]);
}

#[test]
fn linked_specs_count_in_equality_as_a_set() {
    let spec_a = Node { root: p(&["a"]), path_pattern: None, command: None };
    let spec_b = Node { root: p(&["b"]), path_pattern: Some("*".to_string()), command: None };
    let mut x = Node::build_treemap_inner(&p(&["a"]));
    let mut y = Node::build_treemap_inner(&p(&["a"]));
    assert!(x == y);
    x.link_conf_node(spec_a.clone()).link_conf_node(spec_b.clone());
    assert!(x != y);
    y.link_conf_node(spec_b.clone()).link_conf_node(spec_a.clone()).link_conf_node(spec_a);
    assert!(x == y);
}

#[test]
fn merge_keeps_the_links_of_both_trees_at_each_path() {
    let spec_a = Node { root: p(&["a"]), path_pattern: None, command: None };
    let spec_b = Node { root: p(&["b"]), path_pattern: None, command: None };
    let mut x = Node::build_treemap_inner(&p(&["d", "f"]));
    x.branches[0].link_conf_node(spec_a.clone());
    let mut y = Node::build_treemap_inner(&p(&["d", "g"]));
    y.branches[0].link_conf_node(spec_b.clone());
    y.branches[0].branches[0].link_conf_node(spec_b.clone());
    x.merge(y);
    let d = &x.branches[0];
    assert_eq!(d.conf_node.len(), 2);
    assert_eq!(d.conf_node[0].root, p(&["a"]));
    assert_eq!(d.conf_node[1].root, p(&["b"]));
    assert_eq!(d.branches[1].conf_node.len(), 1);
    assert!(d.branches[0].conf_node.is_empty());
}
