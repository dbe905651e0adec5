use newest_files::scan::{handle_input_path, scan, ScanConfig, ScanState};
use newest_files::time::Timestamp;
use newest_files::walk::{get_mtime, FsNode};

fn b(s: &str) -> Vec<u8> {
    s.as_bytes().to_vec()
}

fn ts(secs: u64) -> Timestamp {
    Timestamp::new(secs, 0)
}

fn file(path: &str, secs: u64) -> FsNode {
    FsNode::File { path: b(path), mtime: Some(ts(secs)) }
}

fn dir(path: &str, secs: u64, children: Vec<FsNode>) -> FsNode {
    FsNode::Dir { path: b(path), mtime: Some(ts(secs)), children, truncated: false }
}

fn cfg(wanted: &[&str], count: usize, reverse: bool, unordered: bool) -> ScanConfig {
    ScanConfig {
        wanted_exts: wanted.iter().map(|e| b(e)).collect(),
        exclude_exts: vec![],
        output_directory: false,
        count,
        reverse,
        unordered,
    }
}

/// The tree of the scenarios: one directory holding a.go (t1), b.json
/// (t2 > t1) and c.txt (t3 > t2).
fn scenario_tree() -> FsNode {
    dir(
        "root",
        10,
        vec![file("root/a.go", 1), file("root/b.json", 2), file("root/c.txt", 3)],
    )
}

fn names(results: &Vec<newest_files::results::Res>) -> Vec<Vec<u8>> {
    results.iter().map(|r| r.p.clone()).collect()
}

#[test]
fn newest_of_wanted_extensions_k1() {
    let roots = vec![scenario_tree()];
    let (state, oks) = scan(&roots, &cfg(&["go", "json"], 1, false, false));
    assert_eq!(names(&state.results), vec![b("root/b.json")]);
    // three files plus the directory itself were visited
    assert_eq!(state.total_count, 4);
    assert_eq!(oks, vec![true]);
}

#[test]
fn oldest_first_k2_orders_worst_to_best() {
    let roots = vec![scenario_tree()];
    let (state, _) = scan(&roots, &cfg(&["go", "json"], 2, true, false));
    // worst-to-best under oldest-first: b.json (t2) first, a.go (t1) last
    assert_eq!(names(&state.results), vec![b("root/b.json"), b("root/a.go")]);
}

#[test]
fn capacity_zero_still_counts_every_entry() {
    let roots = vec![scenario_tree()];
    let (state, _) = scan(&roots, &cfg(&[], 0, false, false));
    assert!(state.results.is_empty());
    assert_eq!(state.total_count, 4);
}

#[test]
fn unordered_streams_candidates_in_discovery_order() {
    let roots = vec![scenario_tree()];
    let (state, _) = scan(&roots, &cfg(&["go", "json"], 1, false, true));
    // every filtered, readable candidate exactly once, in discovery order;
    // count and reverse are ignored and nothing is retained
    assert_eq!(names(&state.emitted), vec![b("root/a.go"), b("root/b.json")]);
    assert!(state.results.is_empty());
    assert_eq!(state.total_count, 4);
}

#[test]
fn directories_are_candidates_only_when_asked() {
    let roots = vec![scenario_tree()];
    let mut c = cfg(&[], 10, false, false);
    c.output_directory = true;
    let (state, _) = scan(&roots, &c);
    // the directory (t10) is now the newest candidate
    assert_eq!(
        names(&state.results),
        vec![b("root/a.go"), b("root/b.json"), b("root/c.txt"), b("root")]
    );
    let (state2, _) = scan(&roots, &cfg(&[], 10, false, false));
    assert_eq!(
        names(&state2.results),
        vec![b("root/a.go"), b("root/b.json"), b("root/c.txt")]
    );
}

#[test]
fn subdirectories_are_walked_before_later_siblings() {
    let tree = dir(
        "r",
        0,
        vec![
            file("r/a.txt", 1),
            dir("r/sub", 0, vec![file("r/sub/deep.txt", 2)]),
            file("r/z.txt", 3),
        ],
    );
    let (state, _) = scan(&vec![tree], &cfg(&[], 0, false, true));
    assert_eq!(
        names(&state.emitted),
        vec![b("r/a.txt"), b("r/sub/deep.txt"), b("r/z.txt")]
    );
    // r, a.txt, sub, deep.txt, z.txt
    assert_eq!(state.total_count, 5);
}

#[test]
fn a_plain_file_root_is_visited_alone() {
    let roots = vec![file("lone.go", 7)];
    let (state, oks) = scan(&roots, &cfg(&["go"], 5, false, false));
    assert_eq!(names(&state.results), vec![b("lone.go")]);
    assert_eq!(state.total_count, 1);
    assert_eq!(oks, vec![true]);
}

#[test]
fn results_are_global_over_all_roots() {
    let roots = vec![file("a.go", 1), file("b.go", 9), file("c.go", 5)];
    let (state, _) = scan(&roots, &cfg(&["go"], 2, false, false));
    assert_eq!(names(&state.results), vec![b("c.go"), b("b.go")]);
    assert_eq!(state.total_count, 3);
}

#[test]
fn unreadable_mtime_is_logged_and_skipped_but_counted() {
    let tree = dir(
        "r",
        0,
        vec![
            FsNode::File { path: b("r/bad.go"), mtime: None },
            file("r/good.go", 4),
        ],
    );
    let (state, oks) = scan(&vec![tree], &cfg(&["go"], 5, false, false));
    assert_eq!(names(&state.results), vec![b("r/good.go")]);
    assert_eq!(state.failed_paths, vec![b("r/bad.go")]);
    assert_eq!(state.total_count, 3);
    assert_eq!(oks, vec![true]);
}

#[test]
fn get_mtime_reports_missing_metadata() {
    assert_eq!(get_mtime(&file("ok.go", 3)), Ok(ts(3)));
    assert!(get_mtime(&FsNode::File { path: b("bad"), mtime: None }).is_err());
}

#[test]
fn truncated_directory_stops_that_root_only() {
    // the first root fails while reading `r/sub`: entries visited before the
    // failure stay; the second root still runs in the same state
    let broken = dir(
        "r",
        0,
        vec![
            file("r/a.go", 1),
            FsNode::Dir { path: b("r/sub"), mtime: Some(ts(0)), children: vec![], truncated: true },
            file("r/never.go", 9),
        ],
    );
    let roots = vec![broken, file("b.go", 5)];
    let (state, oks) = scan(&roots, &cfg(&["go"], 10, false, false));
    assert_eq!(oks, vec![false, true]);
    // r, a.go, sub, b.go were visited; never.go was not
    assert_eq!(state.total_count, 4);
    assert_eq!(names(&state.results), vec![b("r/a.go"), b("b.go")]);
}

#[test]
fn handle_input_path_reports_the_failure() {
    let mut state = ScanState::new();
    let c = cfg(&[], 10, false, false);
    let bad = FsNode::Dir { path: b("x"), mtime: Some(ts(0)), children: vec![], truncated: true };
    assert!(handle_input_path(&bad, &c, &mut state).is_err());
    assert_eq!(state.total_count, 1);
    let good = dir("y", 0, vec![]);
    assert!(handle_input_path(&good, &c, &mut state).is_ok());
    assert_eq!(state.total_count, 2);
}
