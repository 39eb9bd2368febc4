use watch_rs::metadata::{decide, observation};
use watch_rs::pathmap::path_map;

#[test]
fn observation_lumps_failures_with_absence() {
    assert_eq!(observation(true, Ok(7)), Some(7));
    assert_eq!(observation(true, Err(())), None);
    assert_eq!(observation(false, Ok(7)), None);
}

#[test]
fn decide_covers_every_transition() {
    assert_eq!(decide(None, Some(3)), (true, Some(3)));
    assert_eq!(decide(Some(3), Some(4)), (true, Some(4)));
    assert_eq!(decide(Some(4), Some(4)), (false, Some(4)));
    assert_eq!(decide(Some(4), Some(2)), (false, Some(4)));
    assert_eq!(decide(Some(4), None), (true, None));
    assert_eq!(decide(None, None), (false, None));
}

#[test]
fn second_observation_of_the_same_is_no_change() {
    for last in [None, Some(1i128), Some(9)] {
        for now in [None, Some(5i128)] {
            let (_, stored) = decide(last, now);
            assert_eq!(decide(stored, now), (false, stored));
        }
    }
}

#[test]
fn deletion_is_reported_once() {
    let (changed, stored) = decide(None, Some(10));
    assert!(changed);
    let (changed, stored) = decide(stored, None);
    assert!(changed);
    assert_eq!(decide(stored, None), (false, None));
}

#[test]
fn path_map_builds_one_tree() {
    assert!(path_map(Vec::new()).is_empty());
    let files = vec![vec!["a".to_string(), "x".to_string()], vec!["a".to_string(), "y".to_string()]];
    let forest = path_map(files);
    assert_eq!(forest.len(), 1);
    assert_eq!(forest[0].branches.len(), 1);
    assert_eq!(forest[0].branches[0].branches.len(), 2);
}
