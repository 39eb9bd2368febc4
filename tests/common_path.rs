use watch_rs::common_path::common_path;

fn p(parts: &[&str]) -> Vec<String> {
    parts.iter().map(|s| s.to_string()).collect()
}

#[test]
fn test_common_path_empty_input() {
    let files = Vec::new();
    assert_eq!(common_path(files), None);
}

#[test]
fn test_common_path_single_file() {
    let file_path = p(&["/", "tmp", "file.txt"]);
    assert_eq!(common_path(vec![file_path.clone()]), Some(file_path));
}

#[test]
fn test_common_path_common_root() {
    let files = vec![p(&["/", "tmp", "file1.txt"]), p(&["/", "tmp", "file2.txt"])];
    assert_eq!(common_path(files), Some(p(&["/", "tmp"])));
}

#[test]
fn test_common_path_no_common_path() {
    let files = vec![p(&["/", "tmp", "folder1", "file1.txt"]), p(&["/", "tmp", "folder2", "file2.txt"])];
    assert_eq!(common_path(files), Some(p(&["/", "tmp"])));
}

#[test]
fn common_path_of_disjoint_paths_is_none() {
    assert_eq!(common_path(vec![p(&["a", "x"]), p(&["b", "x"])]), None);
    assert_eq!(common_path(vec![p(&["a"]), Vec::new()]), None);
}

#[test]
fn common_path_of_a_path_and_its_prefix_is_the_prefix() {
    assert_eq!(common_path(vec![p(&["a", "b", "c"]), p(&["a", "b"]), p(&["a", "b", "d"])]), Some(p(&["a", "b"])));
}
