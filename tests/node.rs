use watch_rs::modes::Cut;
use watch_rs::node::{BuildError, Node, path_prefix};

fn p(parts: &[&str]) -> Vec<String> {
    parts.iter().map(|s| s.to_string()).collect()
}

fn spec(pattern: Option<&str>) -> Node {
    Node { root: p(&["/", "pics"]), path_pattern: pattern.map(|s| s.to_string()), command: None }
}

#[test]
fn build_paths_without_pattern_is_the_root() {
    let r = spec(None).build_paths(Ok(vec![Some(p(&["/", "other"]))]));
    assert_eq!(r, Ok(vec![p(&["/", "pics"])]));
}

#[test]
fn build_paths_keeps_resolved_matches_in_order() {
    let ms = vec![Some(p(&["/", "pics", "b.png"])), None, Some(p(&["/", "pics", "a.png"]))];
    let r = spec(Some("*.png")).build_paths(Ok(ms));
    assert_eq!(r, Ok(vec![p(&["/", "pics", "b.png"]), p(&["/", "pics", "a.png"])]));
}

#[test]
fn build_paths_with_no_match_is_an_empty_watch_set() {
    assert_eq!(spec(Some("*.png")).build_paths(Ok(Vec::new())), Err(BuildError::EmptyWatchSet));
    assert_eq!(spec(Some("*.png")).build_paths(Ok(vec![None, None])), Err(BuildError::EmptyWatchSet));
}

#[test]
fn build_paths_with_a_bad_pattern_is_rejected() {
    assert_eq!(spec(Some("[")).build_paths(Err(())), Err(BuildError::InvalidPattern));
}

#[test]
fn build_treemap_with_no_match_fails() {
    assert_eq!(spec(Some("*.png")).build_treemap(Ok(Vec::new())).err(), Some(BuildError::EmptyWatchSet));
}

#[test]
fn build_tree_of_no_paths_fails() {
    assert_eq!(Node::build_tree(&Vec::new()).err(), Some(BuildError::EmptyWatchSet));
}

#[test]
fn build_treemap_holds_every_match() {
    let ms = vec![
        Some(p(&["/", "pics", "the old mill.png"])),
        Some(p(&["/", "pics", "mountain retreat.png"])),
        Some(p(&["/", "pics", "WIP", "Wilderness Day.png"])),
    ];
    let t = spec(Some("**/*.png")).build_treemap(Ok(ms)).unwrap();
    let mut leaves = t.poll_map(Cut::Leaves, 0);
    leaves.sort();
    assert_eq!(
        leaves,
        vec![
            p(&["/", "pics", "WIP", "Wilderness Day.png"]),
            p(&["/", "pics", "mountain retreat.png"]),
            p(&["/", "pics", "the old mill.png"]),
        ]
    );
    assert_eq!(t.branches.len(), 1);
    assert_eq!(t.branches[0].branches[0].branches.len(), 3);
}

#[test]
fn build_order_gives_the_same_leaves() {
    let a = Node::build_tree(&vec![p(&["x", "1"]), p(&["y"]), p(&["x", "2"])]).unwrap();
    let b = Node::build_tree(&vec![p(&["x", "2"]), p(&["x", "1"]), p(&["y"]), p(&["y"])]).unwrap();
    let mut la = a.poll_map(Cut::Leaves, 0);
    let mut lb = b.poll_map(Cut::Leaves, 0);
    la.sort();
    lb.sort();
    assert_eq!(la, lb);
}

#[test]
fn chain_has_one_node_per_component() {
    let t = Node::build_treemap_inner(&p(&["/", "a", "b"]));
    assert!(t.is_root_node());
    assert_eq!(t.branches.len(), 1);
    assert_eq!(t.branches[0].full_path, p(&["/"]));
    assert_eq!(t.branches[0].branches[0].full_path, p(&["/", "a"]));
    assert_eq!(t.branches[0].branches[0].branches[0].full_path, p(&["/", "a", "b"]));
    assert!(t.branches[0].branches[0].branches[0].branches.is_empty());
}

#[test]
fn path_prefix_takes_the_first_components() {
    assert_eq!(path_prefix(&p(&["a", "b", "c"]), 2), p(&["a", "b"]));
    assert_eq!(path_prefix(&p(&["a"]), 0), Vec::<String>::new());
}
