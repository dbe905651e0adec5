use newest_files::results::{add_result, Res};
use newest_files::time::Timestamp;

fn b(s: &str) -> Vec<u8> {
    s.as_bytes().to_vec()
}

fn ts(secs: u64) -> Timestamp {
    Timestamp::new(secs, 0)
}

fn offer_all(stream: &[(&str, u64)], count: usize, reverse: bool) -> Vec<Res> {
    let mut results: Vec<Res> = Vec::new();
    for (p, t) in stream {
        add_result(&b(p), ts(*t), &mut results, count, reverse);
    }
    results
}

fn names(results: &Vec<Res>) -> Vec<Vec<u8>> {
    results.iter().map(|r| r.p.clone()).collect()
}

#[test]
fn never_grows_past_capacity_and_stays_sorted() {
    let stream = [("a", 5), ("b", 1), ("c", 9), ("d", 3), ("e", 7), ("f", 2)];
    for k in 0..4 {
        let mut results: Vec<Res> = Vec::new();
        for (p, t) in &stream {
            add_result(&b(p), ts(*t), &mut results, k, false);
            assert!(results.len() <= k);
            // sorted ascending by mtime: worst kept (oldest) first
            for w in results.windows(2) {
                assert!(w[0].m.lt(&w[1].m) || w[0].m == w[1].m);
            }
        }
    }
}

#[test]
fn rejection_changes_nothing() {
    let mut results = offer_all(&[("a", 5), ("b", 9)], 2, false);
    let before = names(&results);
    let before_times: Vec<Timestamp> = results.iter().map(|r| r.m).collect();
    // strictly less interesting than the worst kept of a full set
    add_result(&b("old"), ts(1), &mut results, 2, false);
    assert_eq!(names(&results), before);
    assert_eq!(results.iter().map(|r| r.m).collect::<Vec<_>>(), before_times);
    // equal to the worst kept is also rejected: the earlier one stays
    add_result(&b("tie"), ts(5), &mut results, 2, false);
    assert_eq!(names(&results), before);
}

#[test]
fn newest_first_keeps_the_k_newest() {
    let results = offer_all(&[("a", 5), ("b", 1), ("c", 9), ("d", 3), ("e", 7)], 3, false);
    // worst-to-best: 5, 7, 9
    assert_eq!(names(&results), vec![b("a"), b("e"), b("c")]);
}

#[test]
fn oldest_first_keeps_the_k_oldest() {
    let results = offer_all(&[("a", 5), ("b", 1), ("c", 9), ("d", 3), ("e", 7)], 3, true);
    // worst-to-best under oldest-first: 5, 3, 1
    assert_eq!(names(&results), vec![b("a"), b("d"), b("b")]);
}

#[test]
fn below_capacity_everything_is_kept() {
    let results = offer_all(&[("a", 5), ("b", 1)], 10, false);
    assert_eq!(names(&results), vec![b("b"), b("a")]);
}

#[test]
fn capacity_zero_keeps_nothing() {
    let results = offer_all(&[("a", 5), ("b", 1), ("c", 9)], 0, false);
    assert!(results.is_empty());
}

#[test]
fn nanoseconds_break_second_ties() {
    let mut results: Vec<Res> = Vec::new();
    add_result(&b("a"), Timestamp::new(5, 10), &mut results, 1, false);
    add_result(&b("c"), Timestamp::new(5, 20), &mut results, 1, false);
    assert_eq!(names(&results), vec![b("c")]);
    add_result(&b("d"), Timestamp::new(5, 15), &mut results, 1, false);
    assert_eq!(names(&results), vec![b("c")]);
}

#[test]
fn timestamp_order_is_lexicographic() {
    assert!(Timestamp::new(1, 999_999_999).lt(&Timestamp::new(2, 0)));
    assert!(Timestamp::new(2, 1).lt(&Timestamp::new(2, 2)));
    assert!(!Timestamp::new(2, 2).lt(&Timestamp::new(2, 2)));
    assert!(!Timestamp::new(3, 0).lt(&Timestamp::new(2, 9)));
}
