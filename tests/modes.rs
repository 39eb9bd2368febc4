use std::collections::HashMap;

use watch_rs::config::Mode;
use watch_rs::metadata::Snapshot;
use watch_rs::modes::mix::Mix;
use watch_rs::modes::notify::Notify;
use watch_rs::modes::poll::Poll;
use watch_rs::modes::{to_observe, Cut, Poll as PollTrait, Ratio};
use watch_rs::node::Node;
use watch_rs::treemap::Treemap;

/// A filesystem held in memory: each existing path with its modification time.
struct FakeFs {
    times: HashMap<Vec<String>, i128>,
}

impl FakeFs {
    fn new() -> FakeFs {
        FakeFs { times: HashMap::new() }
    }

    fn touch(&mut self, path: &[&str], t: i128) {
        self.times.insert(p(path), t);
    }

    fn remove(&mut self, path: &[&str]) {
        self.times.remove(&p(path));
    }
}

impl FakeFs {
    /// What a look at this filesystem finds now.
    fn snap(&self) -> Snapshot {
        let mut seen = Snapshot::new();
        for (path, t) in &self.times {
            seen.insert(path.clone(), true, Ok(*t));
        }
        seen
    }
}

fn p(parts: &[&str]) -> Vec<String> {
    parts.iter().map(|s| s.to_string()).collect()
}

fn join(dir: &[&str], name: &str) -> Vec<String> {
    let mut v = p(dir);
    v.push(name.to_string());
    v
}

/// Builds the tree of `dir` with a pattern that matched `files`, and records
/// the current times, as a first poll does.
fn build(fs: &FakeFs, dir: &[&str], files: &[Vec<String>]) -> Treemap {
    let node = Node { root: p(dir), path_pattern: Some("*".to_string()), command: None };
    let matches: Vec<Option<Vec<String>>> = files.iter().map(|f| Some(f.clone())).collect();
    let mut t = node.build_treemap(Ok(matches)).unwrap();
    let _ = Poll::default().poll(&mut t, &fs.snap());
    let _ = Mix { poll_rate_ms: 0, branch_depth_ratio: Ratio { num: 0, den: 1 } }.poll(&mut t, &fs.snap());
    t
}

fn build_dir(fs: &FakeFs, dir: &[&str]) -> Treemap {
    let node = Node { root: p(dir), path_pattern: None, command: None };
    let mut t = node.build_treemap(Ok(Vec::new())).unwrap();
    let _ = Poll::default().poll(&mut t, &fs.snap());
    t
}

fn sorted(mut v: Vec<Vec<String>>) -> Vec<Vec<String>> {
    v.sort();
    v
}

fn dir_fs(dir: &[&str], files: &[&str]) -> (FakeFs, Vec<Vec<String>>) {
    let mut fs = FakeFs::new();
    for k in 1..=dir.len() {
        fs.touch(&dir[..k], 10);
    }
    let mut paths = Vec::new();
    for f in files {
        let path = join(dir, f);
        fs.times.insert(path.clone(), 10);
        paths.push(path);
    }
    (fs, paths)
}

const POLL_DIR0: [&str; 3] = ["/", "tmp", "poll_poll_test0"];

#[test]
fn test_poll_poll_no_update() {
    let (fs, _) = dir_fs(&POLL_DIR0, &[]);
    let mut map = build_dir(&fs, &POLL_DIR0);
    assert_eq!(Poll::default().poll(&mut map, &fs.snap()), None);
}

#[test]
fn test_poll_poll_1file_1pass() {
    let dir = ["/", "tmp", "poll_poll_test1"];
    let (mut fs, files) = dir_fs(&dir, &["file_poll1_poll1.txt"]);
    let mut map = build(&fs, &dir, &files);
    fs.times.insert(files[0].clone(), 500);
    assert_eq!(Poll::default().poll(&mut map, &fs.snap()), Some(vec![files[0].clone()]));
}

#[test]
fn test_poll_poll_2file_1pass() {
    let dir = ["/", "tmp", "poll_poll_test2"];
    let (mut fs, files) = dir_fs(&dir, &["file_poll2_poll1.txt", "file_poll2_poll2.txt"]);
    let mut map = build(&fs, &dir, &files);
    fs.times.insert(files[0].clone(), 500);
    assert_eq!(Poll::default().poll(&mut map, &fs.snap()), Some(vec![files[0].clone()]));
}

#[test]
fn test_poll_poll_2file_2pass() {
    let dir = ["/", "tmp", "poll_poll_test3"];
    let (mut fs, files) = dir_fs(&dir, &["file_poll3_poll1.txt", "file_poll3_poll2.txt"]);
    let mut map = build(&fs, &dir, &files);
    fs.times.insert(files[0].clone(), 500);
    fs.times.insert(files[1].clone(), 500);
    let res = Poll::default().poll(&mut map, &fs.snap()).unwrap();
    assert_eq!(sorted(res), sorted(files.clone()));
}

#[test]
fn test_poll_poll_2file_0pass() {
    let dir = ["/", "tmp", "poll_poll_test4"];
    let (fs, files) = dir_fs(&dir, &["file_poll4_poll1.txt", "file_poll4_poll2.txt"]);
    let mut map = build(&fs, &dir, &files);
    assert_eq!(Poll::default().poll(&mut map, &fs.snap()), None);
}

fn nested_fs(dir: &[&str], f1: &str, f2: &str) -> (FakeFs, Vec<Vec<String>>) {
    let (mut fs, mut files) = dir_fs(dir, &[f1, f2]);
    let inner = join(dir, "inner");
    fs.times.insert(inner.clone(), 10);
    let mut f3 = inner.clone();
    f3.push(f2.to_string());
    fs.times.insert(f3.clone(), 10);
    files.push(inner);
    files.push(f3);
    (fs, files)
}

#[test]
fn test_poll_poll_3file_2pass() {
    let dir = ["/", "tmp", "poll_poll_test5"];
    let (mut fs, files) = nested_fs(&dir, "file_poll5_poll1.txt", "file_poll5_poll2.txt");
    let mut map = build(&fs, &dir, &files);
    fs.times.insert(files[0].clone(), 500);
    fs.times.insert(files[1].clone(), 500);
    let res = Poll::default().poll(&mut map, &fs.snap()).unwrap();
    assert_eq!(sorted(res), sorted(vec![files[0].clone(), files[1].clone()]));
}

#[test]
fn test_poll_poll_3file_1pass_inner() {
    let dir = ["/", "tmp", "poll_poll_test6"];
    let (mut fs, files) = nested_fs(&dir, "file_poll6_poll1.txt", "file_poll6_poll2.txt");
    let mut map = build(&fs, &dir, &files);
    fs.times.insert(files[3].clone(), 500);
    let res = Poll::default().poll(&mut map, &fs.snap()).unwrap();
    assert_eq!(res, vec![files[3].clone()]);
}

#[test]
fn test_poll_poll_map() {
    let dir = ["/", "tmp", "poll_poll_test6"];
    let (fs, files) = nested_fs(&dir, "file_poll6_poll1.txt", "file_poll6_poll2.txt");
    let map = build(&fs, &dir, &files);
    let res = map.poll_map(Cut::Leaves, 0);
    assert_eq!(res.len(), 3);
}

#[test]
fn test_mix_poll_no_update() {
    let dir = ["/", "tmp", "mix_poll_test0"];
    let (fs, _) = dir_fs(&dir, &[]);
    let mut map = build_dir(&fs, &dir);
    assert_eq!(Mix::default().poll(&mut map, &fs.snap()), None);
}

#[test]
fn test_mix_poll_1file_1pass() {
    let dir = ["/", "tmp", "mix_poll_test1"];
    let (mut fs, files) = dir_fs(&dir, &["file_mix1_poll1.txt"]);
    let mut map = build(&fs, &dir, &files);
    fs.times.insert(files[0].clone(), 500);
    assert_eq!(Mix::default().poll(&mut map, &fs.snap()), Some(vec![files[0].clone()]));
}

#[test]
fn test_mix_poll_2file_1pass() {
    let dir = ["/", "tmp", "mix_poll_test2"];
    let (mut fs, files) = dir_fs(&dir, &["file_mix2_poll1.txt", "file_mix2_poll2.txt"]);
    let mut map = build(&fs, &dir, &files);
    fs.times.insert(files[0].clone(), 500);
    assert_eq!(Mix::default().poll(&mut map, &fs.snap()), Some(vec![files[0].clone()]));
}

#[test]
fn test_mix_poll_2file_2pass() {
    let dir = ["/", "tmp", "mix_poll_test3"];
    let (mut fs, files) = dir_fs(&dir, &["file_mix3_poll1.txt", "file_mix3_poll2.txt"]);
    let mut map = build(&fs, &dir, &files);
    fs.times.insert(files[0].clone(), 500);
    fs.times.insert(files[1].clone(), 500);
    let res = Mix::default().poll(&mut map, &fs.snap()).unwrap();
    assert_eq!(sorted(res), sorted(files.clone()));
}

#[test]
fn test_mix_poll_2file_0pass() {
    let dir = ["/", "tmp", "mix_poll_test4"];
    let (fs, files) = dir_fs(&dir, &["file_mix4_poll1.txt", "file_mix4_poll2.txt"]);
    let mut map = build(&fs, &dir, &files);
    assert_eq!(Mix::default().poll(&mut map, &fs.snap()), None);
}

#[test]
fn test_mix_poll_3file_2pass() {
    let dir = ["/", "tmp", "mix_poll_test5"];
    let (mut fs, files) = nested_fs(&dir, "file_mix5_poll1.txt", "file_mix5_poll2.txt");
    let mut map = build(&fs, &dir, &files);
    fs.times.insert(files[0].clone(), 500);
    fs.times.insert(files[1].clone(), 500);
    let res = Mix::default().poll(&mut map, &fs.snap()).unwrap();
    assert_eq!(sorted(res), sorted(vec![files[0].clone(), files[1].clone()]));
}

#[test]
fn test_mix_poll_3file_1pass_inner() {
    let dir = ["/", "tmp", "mix_poll_test6"];
    let (mut fs, files) = nested_fs(&dir, "file_mix6_poll1.txt", "file_mix6_poll2.txt");
    let mut map = build(&fs, &dir, &files);
    fs.times.insert(files[3].clone(), 500);
    let res = Mix::default().poll(&mut map, &fs.snap()).unwrap();
    assert_eq!(res, vec![files[3].clone()]);
}

#[test]
fn test_mix_poll_map() {
    let dir = ["/", "tmp", "mix_poll_test6"];
    let (fs, files) = nested_fs(&dir, "file_mix6_poll1.txt", "file_mix6_poll2.txt");
    let map = build(&fs, &dir, &files);
    let res = map.poll_map(Cut::Coalesce(Ratio { num: 1, den: 2 }), 0);
    assert_eq!(res.len(), 1);
    let res = map.poll_map(Cut::Coalesce(Ratio { num: 2, den: 1 }), 0);
    assert_eq!(res.len(), 3);
}

#[test]
fn mix_default_ratio_is_four() {
    let m = Mix::default();
    assert_eq!(m.branch_depth_ratio, Ratio { num: 4, den: 1 });
    assert_eq!(m.poll_rate_ms, 200);
    assert_eq!(Poll::default().poll_rate_ms, 500);
    assert_eq!(Notify::default().poll_rate_ms, 200);
}

/// `a` with five files, one of them two levels down: `/a/inner/c.txt`.
fn wide_fs() -> (FakeFs, Vec<Vec<String>>) {
    let mut fs = FakeFs::new();
    fs.touch(&["a"], 10);
    fs.touch(&["a", "inner"], 10);
    let mut files = Vec::new();
    for f in ["w.txt", "x.txt", "y.txt", "z.txt"] {
        fs.touch(&["a", f], 10);
        files.push(p(&["a", f]));
    }
    fs.touch(&["a", "inner", "c.txt"], 10);
    files.push(p(&["a", "inner", "c.txt"]));
    (fs, files)
}

#[test]
fn narrow_ratio_cuts_at_the_wide_node() {
    let (fs, files) = wide_fs();
    let map = build(&fs, &["a"], &files);
    let cut = Cut::Coalesce(Ratio { num: 1, den: 2 });
    assert_eq!(map.poll_map(cut, 0), vec![p(&["a"])]);
}

#[test]
fn narrow_ratio_sees_an_entry_change_below_the_cut() {
    let (mut fs, files) = wide_fs();
    let mut map = build(&fs, &["a"], &files);
    let mix = Mix { poll_rate_ms: 200, branch_depth_ratio: Ratio { num: 1, den: 2 } };
    fs.touch(&["a"], 20);
    fs.touch(&["a", "inner"], 20);
    fs.touch(&["a", "inner", "c.txt"], 20);
    assert_eq!(mix.poll(&mut map, &fs.snap()), Some(vec![p(&["a", "inner", "c.txt"])]));
}

#[test]
fn narrow_ratio_misses_a_content_edit_below_an_unchanged_directory() {
    let (mut fs, files) = wide_fs();
    let mut map = build(&fs, &["a"], &files);
    let mix = Mix { poll_rate_ms: 200, branch_depth_ratio: Ratio { num: 1, den: 2 } };
    fs.touch(&["a", "inner", "c.txt"], 20);
    assert_eq!(mix.poll(&mut map, &fs.snap()), None);
    assert_eq!(Poll::default().poll(&mut map, &fs.snap()), Some(vec![p(&["a", "inner", "c.txt"])]));
}

#[test]
fn notify_misses_a_content_edit_below_an_unchanged_directory() {
    let (mut fs, files) = wide_fs();
    let mut map = build(&fs, &["a"], &files);
    fs.touch(&["a", "x.txt"], 20);
    assert_eq!(Notify::default().poll(&mut map, &fs.snap()), None);
}

#[test]
fn notify_follows_changed_directories_down() {
    let (mut fs, files) = wide_fs();
    let mut map = build(&fs, &["a"], &files);
    fs.touch(&["a"], 20);
    fs.touch(&["a", "x.txt"], 20);
    assert_eq!(Notify::default().poll(&mut map, &fs.snap()), Some(vec![p(&["a", "x.txt"])]));
}

#[test]
fn unbounded_ratio_reports_like_exhaustive() {
    let (mut fs, files) = wide_fs();
    let mut m1 = build(&fs, &["a"], &files);
    let mut m2 = build(&fs, &["a"], &files);
    fs.touch(&["a", "inner", "c.txt"], 30);
    fs.touch(&["a", "w.txt"], 30);
    fs.remove(&["a", "y.txt"]);
    let mix = Mix { poll_rate_ms: 200, branch_depth_ratio: Ratio { num: 1, den: 0 } };
    let r1 = mix.poll(&mut m1, &fs.snap()).unwrap();
    let r2 = Poll::default().poll(&mut m2, &fs.snap()).unwrap();
    assert_eq!(sorted(r1.clone()), sorted(r2));
    assert_eq!(sorted(r1), vec![p(&["a", "inner", "c.txt"]), p(&["a", "w.txt"]), p(&["a", "y.txt"])]);
}

#[test]
fn frontier_ignores_times() {
    let (mut fs, files) = wide_fs();
    let mut map = build(&fs, &["a"], &files);
    let cut = Cut::Coalesce(Ratio { num: 2, den: 1 });
    let before = map.poll_map(cut, 0);
    fs.touch(&["a"], 50);
    fs.touch(&["a", "inner", "c.txt"], 50);
    let _ = Notify::default().poll(&mut map, &fs.snap());
    let _ = Poll::default().poll(&mut map, &fs.snap());
    assert_eq!(map.poll_map(cut, 0), before);
    assert_eq!(map.poll_map(cut, 0), map.poll_map(cut, 0));
}

#[test]
fn whole_cut_is_the_root() {
    let (fs, files) = wide_fs();
    let map = build(&fs, &["a"], &files);
    assert_eq!(map.poll_map(Cut::Whole, 0), vec![Vec::<String>::new()]);
}

#[test]
fn mode_dispatches_to_its_strategy() {
    let (mut fs, files) = wide_fs();
    let mut map = build(&fs, &["a"], &files);
    fs.touch(&["a", "x.txt"], 40);
    assert_eq!(Mode::Notify(Notify::default()).poll(&mut map, &fs.snap()), None);
    assert_eq!(Mode::Poll(Poll::default()).poll(&mut map, &fs.snap()), Some(vec![p(&["a", "x.txt"])]));
    assert_eq!(Mode::default().poll(&mut map, &fs.snap()), None);
}

#[test]
fn default_mode_is_mix() {
    match Mode::default() {
        Mode::Mix(m) => assert_eq!(m.branch_depth_ratio, Ratio { num: 4, den: 1 }),
        _ => panic!("the default mode is not Mix"),
    }
}

#[test]
fn single_leaf_scenarios() {
    let mut fs = FakeFs::new();
    fs.touch(&["a"], 1);
    fs.touch(&["a", "b.txt"], 1);
    let mut map = build(&fs, &["a"], &[p(&["a", "b.txt"])]);
    assert_eq!(Poll::default().poll(&mut map, &fs.snap()), None);
    fs.touch(&["a", "b.txt"], 2);
    assert_eq!(Poll::default().poll(&mut map, &fs.snap()), Some(vec![p(&["a", "b.txt"])]));
    assert_eq!(Poll::default().poll(&mut map, &fs.snap()), None);
    fs.remove(&["a", "b.txt"]);
    assert_eq!(Poll::default().poll(&mut map, &fs.snap()), Some(vec![p(&["a", "b.txt"])]));
    assert_eq!(Poll::default().poll(&mut map, &fs.snap()), None);
}

#[test]
fn exhaustive_poll_records_every_directory() {
    let (mut fs, files) = wide_fs();
    let node = Node { root: p(&["a"]), path_pattern: Some("*".to_string()), command: None };
    let matches: Vec<Option<Vec<String>>> = files.iter().map(|f| Some(f.clone())).collect();
    let mut t = node.build_treemap(Ok(matches)).unwrap();
    let _ = Poll::default().poll(&mut t, &fs.snap());
    assert_eq!(t.branches[0].last_update, Some(10));
    let inner = t.branches[0].branches.iter().find(|b| b.node == "inner").unwrap();
    assert_eq!(inner.last_update, Some(10));
    fs.touch(&["a", "inner"], 30);
    assert_eq!(Poll::default().poll(&mut t, &fs.snap()), None);
    let inner = t.branches[0].branches.iter().find(|b| b.node == "inner").unwrap();
    assert_eq!(inner.last_update, Some(30));
}

#[test]
fn lookups_follow_the_strategy() {
    let (mut fs, files) = wide_fs();
    let map = build(&fs, &["a"], &files);
    let mut all = map.lookups(Cut::Leaves, 0, &fs.snap());
    all.sort();
    assert_eq!(all.len(), 7);
    assert_eq!(map.lookups(Cut::Coalesce(Ratio { num: 1, den: 2 }), 0, &fs.snap()), vec![p(&["a"])]);
    fs.touch(&["a"], 20);
    let mut below = map.lookups(Cut::Coalesce(Ratio { num: 1, den: 2 }), 0, &fs.snap());
    below.sort();
    assert_eq!(below.len(), 6);
    assert!(!below.contains(&p(&["a", "inner", "c.txt"])));
}

#[test]
fn observing_in_rounds_asks_only_what_is_consulted() {
    let (mut fs, files) = wide_fs();
    let mut map = build(&fs, &["a"], &files);
    fs.touch(&["a"], 20);
    fs.touch(&["a", "inner"], 20);
    fs.touch(&["a", "inner", "c.txt"], 20);
    let cut = Cut::Coalesce(Ratio { num: 1, den: 2 });
    let full = fs.snap();
    let mut seen = Snapshot::new();
    let mut asked = 0;
    let mut rounds = 0;
    loop {
        let next = to_observe(&map, cut, &seen);
        if next.is_empty() {
            break;
        }
        rounds += 1;
        for path in next {
            match full.lookup(&path) {
                Some(t) => seen.insert(path, true, Ok(t)),
                None => seen.insert(path, false, Err(())),
            }
            asked += 1;
        }
    }
    assert_eq!(rounds, 3);
    assert_eq!(asked, 7);
    let mix = Mix { poll_rate_ms: 200, branch_depth_ratio: Ratio { num: 1, den: 2 } };
    assert_eq!(mix.poll(&mut map, &seen), Some(vec![p(&["a", "inner", "c.txt"])]));
}
