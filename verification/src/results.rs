use vstd::prelude::*;
use crate::filter::{copy_bytes, subrange_vec};
use crate::time::{is_more_interesting, lemma_interest_total, lemma_interest_trans, more_interesting, Timestamp};

verus! {

/// One retained result: a path and its modification time.
pub struct Res {
    pub p: Vec<u8>,
    pub m: Timestamp,
}

/// The ghost image of one candidate: path bytes plus timestamp.
pub struct Cand {
    pub p: Seq<u8>,
    pub m: Timestamp,
}

/// The candidate a `Res` stands for.
pub open spec fn cand_of(r: Res) -> Cand {
    Cand { p: r.p@, m: r.m }
}

/// The candidates a list of results stands for.
pub open spec fn cands(s: Seq<Res>) -> Seq<Cand> {
    s.map_values(|r: Res| cand_of(r))
}

/// Sorted from least interesting (index 0, the worst kept) to most
/// interesting (last index): no element is strictly more interesting than
/// a later one.
pub open spec fn sorted_by_interest(s: Seq<Cand>, reverse: bool) -> bool {
    forall|i: int, j: int|
        #![trigger s[i], s[j]]
        0 <= i < j < s.len() ==> !more_interesting(s[i].m, s[j].m, reverse)
}

/// No two candidates share a timestamp.
pub open spec fn distinct_times(s: Seq<Cand>) -> bool {
    forall|i: int, j: int| #![trigger s[i], s[j]] 0 <= i < j < s.len() ==> s[i].m != s[j].m
}

/// `c` inserted into sorted `s`, after every element that is not strictly
/// more interesting than it (so among equals, insertion order is kept).
pub open spec fn insert_sorted(s: Seq<Cand>, c: Cand, reverse: bool) -> Seq<Cand>
    decreases s.len(),
{
    if s.len() == 0 {
        seq![c]
    } else if more_interesting(s[0].m, c.m, reverse) {
        seq![c] + s
    } else {
        seq![s[0]] + insert_sorted(s.subrange(1, s.len() as int), c, reverse)
    }
}

/// The index at which [`insert_sorted`] places `c`.
pub open spec fn insert_pos(s: Seq<Cand>, c: Cand, reverse: bool) -> int
    decreases s.len(),
{
    if s.len() == 0 {
        0
    } else if more_interesting(s[0].m, c.m, reverse) {
        0
    } else {
        1 + insert_pos(s.subrange(1, s.len() as int), c, reverse)
    }
}

/// One `offer` to the bounded result set holding `s` with capacity `k`:
/// below capacity the candidate is inserted; at capacity it is rejected
/// unless strictly more interesting than the worst kept, in which case it
/// is inserted and the new worst (index 0) is evicted.
pub open spec fn offer(s: Seq<Cand>, c: Cand, k: int, reverse: bool) -> Seq<Cand> {
    if s.len() < k {
        insert_sorted(s, c, reverse)
    } else if s.len() == 0 {
        s
    } else if !more_interesting(c.m, s[0].m, reverse) {
        s
    } else {
        insert_sorted(s, c, reverse).subrange(1, s.len() as int + 1)
    }
}

/// The result set after offering every candidate of `cs` in order,
/// starting from `s`.
pub open spec fn run_offers(s: Seq<Cand>, cs: Seq<Cand>, k: int, reverse: bool) -> Seq<Cand>
    decreases cs.len(),
{
    if cs.len() == 0 {
        s
    } else {
        run_offers(offer(s, cs[0], k, reverse), cs.subrange(1, cs.len() as int), k, reverse)
    }
}

proof fn lemma_insert_pos_props(s: Seq<Cand>, c: Cand, reverse: bool)
    ensures
        0 <= insert_pos(s, c, reverse) <= s.len(),
        forall|i: int|
            0 <= i < insert_pos(s, c, reverse) ==> !more_interesting(
                #[trigger] s[i].m,
                c.m,
                reverse,
            ),
        insert_pos(s, c, reverse) < s.len() ==> more_interesting(
            s[insert_pos(s, c, reverse)].m,
            c.m,
            reverse,
        ),
    decreases s.len(),
{
    if s.len() > 0 && !more_interesting(s[0].m, c.m, reverse) {
        let rest = s.subrange(1, s.len() as int);
        lemma_insert_pos_props(rest, c, reverse);
        assert forall|i: int| 0 <= i < insert_pos(s, c, reverse) implies !more_interesting(
            s[i].m,
            c.m,
            reverse,
        ) by {
            if i > 0 {
                assert(rest[i - 1] == s[i]);
                assert(!more_interesting(rest[i - 1].m, c.m, reverse));
            }
        }
        if insert_pos(s, c, reverse) < s.len() {
            assert(rest[insert_pos(rest, c, reverse)] == s[insert_pos(s, c, reverse)]);
        }
    }
}

proof fn lemma_insert_sorted_is_insert(s: Seq<Cand>, c: Cand, reverse: bool)
    ensures
        insert_sorted(s, c, reverse) == s.insert(insert_pos(s, c, reverse), c),
    decreases s.len(),
{
    lemma_insert_pos_props(s, c, reverse);
    let pos = insert_pos(s, c, reverse);
    if s.len() == 0 {
        assert(insert_sorted(s, c, reverse) =~= s.insert(0, c));
    } else if more_interesting(s[0].m, c.m, reverse) {
        assert(seq![c] + s =~= s.insert(0, c));
    } else {
        let rest = s.subrange(1, s.len() as int);
        lemma_insert_sorted_is_insert(rest, c, reverse);
        lemma_insert_pos_props(rest, c, reverse);
        assert(seq![s[0]] + rest.insert(pos - 1, c) =~= s.insert(pos, c));
    }
}

/// Inserting keeps the set sorted and grows it by one; its members are the
/// old members plus `c`.
proof fn lemma_insert_sorted_props(s: Seq<Cand>, c: Cand, reverse: bool)
    requires
        sorted_by_interest(s, reverse),
    ensures
        insert_sorted(s, c, reverse).len() == s.len() + 1,
        sorted_by_interest(insert_sorted(s, c, reverse), reverse),
        forall|x: Cand|
            #[trigger] insert_sorted(s, c, reverse).contains(x) <==> (s.contains(x) || x == c),
{
    lemma_insert_pos_props(s, c, reverse);
    lemma_insert_sorted_is_insert(s, c, reverse);
    let pos = insert_pos(s, c, reverse);
    let t = s.insert(pos, c);
    s.insert_ensures(pos, c);
    assert(sorted_by_interest(t, reverse)) by {
        assert forall|a: int, b: int| 0 <= a < b < t.len() implies !more_interesting(
            t[a].m,
            t[b].m,
            reverse,
        ) by {
            if b < pos {
            } else if a < pos && b == pos {
            } else if a == pos {
                // t[a] is c; t[b] is s[b - 1] with b - 1 >= pos
                if more_interesting(c.m, s[b - 1].m, reverse) {
                    lemma_interest_total(c.m, s[pos].m, reverse);
                    if b - 1 > pos {
                        lemma_interest_trans(s[pos].m, c.m, s[b - 1].m, reverse);
                    }
                }
            } else if a < pos && b > pos {
            } else {
                // a > pos, b > pos: both old elements s[a - 1], s[b - 1]
            }
        }
    }
    assert forall|x: Cand| #[trigger] t.contains(x) implies (s.contains(x) || x == c) by {
        let i = choose|i: int| 0 <= i < t.len() && t[i] == x;
        if i < pos {
            assert(s[i] == x);
        } else if i > pos {
            assert(s[i - 1] == x);
        }
    }
    assert forall|x: Cand| (s.contains(x) || x == c) implies #[trigger] t.contains(x) by {
        if x == c {
            assert(t[pos] == x);
        } else {
            let i = choose|i: int| 0 <= i < s.len() && s[i] == x;
            if i < pos {
                assert(t[i] == x);
            } else {
                assert(t[i + 1] == x);
            }
        }
    }
}

/// The first law of the bounded set: one `offer` never grows it past the
/// capacity, and leaves it sorted in interest order. Below capacity the
/// candidate is always admitted; at capacity the size stays exactly there.
pub proof fn lemma_offer_bounded_sorted(s: Seq<Cand>, c: Cand, k: int, reverse: bool)
    requires
        s.len() <= k,
        sorted_by_interest(s, reverse),
    ensures
        offer(s, c, k, reverse).len() == if s.len() < k {
            s.len() + 1
        } else {
            s.len()
        },
        offer(s, c, k, reverse).len() <= k,
        sorted_by_interest(offer(s, c, k, reverse), reverse),
{
    lemma_insert_sorted_props(s, c, reverse);
    if s.len() < k {
    } else if s.len() == 0 {
    } else if !more_interesting(c.m, s[0].m, reverse) {
    } else {
        let t = insert_sorted(s, c, reverse);
        let u = t.subrange(1, s.len() as int + 1);
        assert(forall|i: int| 0 <= i < u.len() ==> u[i] == t[i + 1]);
    }
}

/// The first law over a whole stream: after any sequence of offers,
/// starting from a well-formed set, the set still holds at most `k`
/// candidates and is sorted in interest order.
pub proof fn lemma_run_offers_bounded_sorted(s: Seq<Cand>, cs: Seq<Cand>, k: int, reverse: bool)
    requires
        s.len() <= k,
        sorted_by_interest(s, reverse),
    ensures
        run_offers(s, cs, k, reverse).len() <= k,
        sorted_by_interest(run_offers(s, cs, k, reverse), reverse),
    decreases cs.len(),
{
    if cs.len() > 0 {
        lemma_offer_bounded_sorted(s, cs[0], k, reverse);
        lemma_run_offers_bounded_sorted(
            offer(s, cs[0], k, reverse),
            cs.subrange(1, cs.len() as int),
            k,
            reverse,
        );
    }
}

/// The second law: when the set is full, a candidate strictly less
/// interesting than the current worst kept (and any candidate not strictly
/// more interesting than it) is rejected without any change.
pub proof fn lemma_reject_no_change(s: Seq<Cand>, c: Cand, k: int, reverse: bool)
    requires
        s.len() == k,
        0 < k,
        more_interesting(s[0].m, c.m, reverse),
    ensures
        offer(s, c, k, reverse) == s,
{
    lemma_interest_total(c.m, s[0].m, reverse);
}

/// With capacity zero nothing is ever retained.
pub proof fn lemma_zero_capacity(s: Seq<Cand>, cs: Seq<Cand>, reverse: bool)
    requires
        s.len() == 0,
    ensures
        run_offers(s, cs, 0, reverse).len() == 0,
    decreases cs.len(),
{
    if cs.len() > 0 {
        lemma_zero_capacity(offer(s, cs[0], 0, reverse), cs.subrange(1, cs.len() as int), reverse);
    }
}

proof fn lemma_sorted_distinct_strict(s: Seq<Cand>, reverse: bool)
    requires
        sorted_by_interest(s, reverse),
        distinct_times(s),
    ensures
        forall|i: int, j: int|
            #![trigger s[i], s[j]]
            0 <= i < j < s.len() ==> more_interesting(s[j].m, s[i].m, reverse),
{
    assert forall|i: int, j: int| 0 <= i < j < s.len() implies more_interesting(
        s[j].m,
        s[i].m,
        reverse,
    ) by {
        lemma_interest_total(s[i].m, s[j].m, reverse);
    }
}

proof fn lemma_insert_distinct(s: Seq<Cand>, c: Cand, reverse: bool)
    requires
        distinct_times(s),
        forall|j: int| 0 <= j < s.len() ==> (#[trigger] s[j].m) != c.m,
    ensures
        distinct_times(insert_sorted(s, c, reverse)),
{
    lemma_insert_sorted_is_insert(s, c, reverse);
    lemma_insert_pos_props(s, c, reverse);
    let pos = insert_pos(s, c, reverse);
    let u = s.insert(pos, c);
    s.insert_ensures(pos, c);
    assert forall|i: int, j: int| 0 <= i < j < u.len() implies u[i].m != u[j].m by {
        if i < pos {
            assert(u[i] == s[i]);
        } else if i > pos {
            assert(u[i] == s[i - 1]);
        }
        if j < pos {
            assert(u[j] == s[j]);
        } else if j > pos {
            assert(u[j] == s[j - 1]);
        }
    }
}

/// The retention invariant: after some sequence of offers (`seen`, in
/// order) with pairwise-distinct timestamps, the kept set `s` is sorted,
/// holds `min(len(seen), k)` of the seen candidates, and every seen
/// candidate not kept is strictly less interesting than everything kept;
/// below capacity nothing has ever been excluded.
spec fn retention_inv(seen: Seq<Cand>, s: Seq<Cand>, k: int, reverse: bool) -> bool {
    &&& s.len() == if seen.len() <= k {
        seen.len() as int
    } else {
        k
    }
    &&& sorted_by_interest(s, reverse)
    &&& distinct_times(s)
    &&& forall|x: Cand| #[trigger] s.contains(x) ==> seen.contains(x)
    &&& forall|i: int, j: int|
        #![trigger seen[i], s[j]]
        0 <= i < seen.len() && 0 <= j < s.len() && !s.contains(seen[i]) ==> more_interesting(
            s[j].m,
            seen[i].m,
            reverse,
        )
    &&& forall|i: int| s.len() < k && 0 <= i < seen.len() ==> s.contains(#[trigger] seen[i])
}

proof fn lemma_retention_step(seen: Seq<Cand>, s: Seq<Cand>, c: Cand, k: int, reverse: bool)
    requires
        k >= 0,
        retention_inv(seen, s, k, reverse),
        forall|i: int| 0 <= i < seen.len() ==> (#[trigger] seen[i].m) != c.m,
    ensures
        retention_inv(seen.push(c), offer(s, c, k, reverse), k, reverse),
{
    let t = offer(s, c, k, reverse);
    let seen1 = seen.push(c);
    assert forall|j: int| 0 <= j < s.len() implies (#[trigger] s[j].m) != c.m by {
        assert(s.contains(s[j]));
        assert(seen.contains(s[j]));
        let i = choose|i: int| 0 <= i < seen.len() && seen[i] == s[j];
        assert(seen[i].m != c.m);
    }
    assert forall|x: Cand| #[trigger] seen.contains(x) implies seen1.contains(x) by {
        let i = choose|i: int| 0 <= i < seen.len() && seen[i] == x;
        assert(seen1[i] == x);
    }
    assert(seen1[seen.len() as int] == c);
    assert(seen1.contains(c));
    lemma_offer_bounded_sorted(s, c, k, reverse);
    if s.len() < k {
        // below capacity: the candidate is admitted, nothing is excluded
        lemma_insert_sorted_props(s, c, reverse);
        lemma_insert_distinct(s, c, reverse);
        assert forall|x: Cand| #[trigger] t.contains(x) implies seen1.contains(x) by {
            if x != c {
                assert(s.contains(x));
            }
        }
        assert forall|i: int| 0 <= i < seen1.len() implies t.contains(#[trigger] seen1[i]) by {
            if i < seen.len() {
                assert(seen1[i] == seen[i]);
                assert(s.contains(seen[i]));
            } else {
                assert(seen1[i] == c);
            }
        }
    } else if s.len() == 0 {
        // capacity zero: everything is rejected
        assert(t == s);
    } else if !more_interesting(c.m, s[0].m, reverse) {
        // full, and the candidate does not beat the worst kept: rejected
        assert(t == s);
        assert(s.contains(s[0]));
        lemma_interest_total(c.m, s[0].m, reverse);
        lemma_sorted_distinct_strict(s, reverse);
        assert(!s.contains(c)) by {
            if s.contains(c) {
                let j = choose|j: int| 0 <= j < s.len() && s[j] == c;
                assert(s[j].m != c.m);
            }
        }
        assert forall|j: int| 0 <= j < s.len() implies more_interesting(
            (#[trigger] s[j]).m,
            c.m,
            reverse,
        ) by {
            if j > 0 {
                assert(more_interesting(s[j].m, s[0].m, reverse));
                lemma_interest_trans(s[j].m, s[0].m, c.m, reverse);
            }
        }
        assert forall|i: int, j: int|
            0 <= i < seen1.len() && 0 <= j < t.len() && !t.contains(
                #[trigger] seen1[i],
            ) implies more_interesting((#[trigger] t[j]).m, seen1[i].m, reverse) by {
            if i < seen.len() {
                assert(seen1[i] == seen[i]);
                assert(t[j] == s[j]);
            } else {
                assert(seen1[i] == c);
            }
        }
    } else {
        // full, and the candidate beats the worst kept: admitted, worst evicted
        let u = insert_sorted(s, c, reverse);
        lemma_insert_sorted_props(s, c, reverse);
        lemma_insert_distinct(s, c, reverse);
        lemma_insert_sorted_is_insert(s, c, reverse);
        lemma_insert_pos_props(s, c, reverse);
        lemma_sorted_distinct_strict(s, reverse);
        let pos = insert_pos(s, c, reverse);
        s.insert_ensures(pos, c);
        lemma_interest_total(c.m, s[0].m, reverse);
        assert(pos >= 1);
        assert(t == u.subrange(1, s.len() as int + 1));
        assert(u.len() == s.len() + 1);
        assert(forall|j: int| 0 <= j < t.len() ==> #[trigger] t[j] == u[j + 1]);
        assert(t[pos - 1] == u[pos]);
        assert(t.contains(c));
        assert forall|x: Cand| #[trigger] t.contains(x) implies (x == c || (s.contains(x) && x
            != s[0])) by {
            let j = choose|j: int| 0 <= j < t.len() && t[j] == x;
            let j1 = j + 1;
            if j1 < pos {
                assert(u[j1] == s[j1]);
                assert(s[0].m != s[j1].m);
            } else if j1 > pos {
                assert(u[j1] == s[j1 - 1]);
                assert(1 <= j1 - 1 < s.len());
                if j1 - 1 > 0 {
                    assert(s[0].m != s[j1 - 1].m);
                }
            }
        }
        assert forall|idx: int| 1 <= idx < s.len() implies t.contains(#[trigger] s[idx]) by {
            if idx < pos {
                assert(t[idx - 1] == u[idx]);
                assert(u[idx] == s[idx]);
            } else {
                assert(t[idx] == u[idx + 1]);
                assert(u[idx + 1] == s[idx]);
            }
        }
        assert forall|j: int| 0 <= j < t.len() implies more_interesting(
            (#[trigger] t[j]).m,
            s[0].m,
            reverse,
        ) by {
            let j1 = j + 1;
            if j1 == pos {
                assert(t[j] == c);
            } else if j1 < pos {
                assert(t[j] == s[j1]);
                assert(more_interesting(s[j1].m, s[0].m, reverse));
            } else {
                assert(t[j] == s[j1 - 1]);
                assert(1 <= j1 - 1 < s.len());
                assert(more_interesting(s[j1 - 1].m, s[0].m, reverse));
            }
        }
        assert(distinct_times(t)) by {
            assert forall|i: int, j: int| 0 <= i < j < t.len() implies t[i].m != t[j].m by {
                assert(t[i] == u[i + 1]);
                assert(t[j] == u[j + 1]);
            }
        }
        assert forall|x: Cand| #[trigger] t.contains(x) implies seen1.contains(x) by {
            if x != c {
                assert(s.contains(x));
            }
        }
        assert(!t.contains(s[0])) by {
            if t.contains(s[0]) {
                assert(s[0].m != c.m);
            }
        }
        assert forall|i: int, j: int|
            0 <= i < seen1.len() && 0 <= j < t.len() && !t.contains(
                #[trigger] seen1[i],
            ) implies more_interesting((#[trigger] t[j]).m, seen1[i].m, reverse) by {
            if i < seen.len() {
                let x = seen[i];
                assert(seen1[i] == x);
                if s.contains(x) {
                    let idx = choose|idx: int| 0 <= idx < s.len() && s[idx] == x;
                    if idx >= 1 {
                        assert(t.contains(s[idx]));
                    }
                    assert(x == s[0]);
                } else {
                    assert(more_interesting(s[0].m, x.m, reverse));
                    let j1 = j + 1;
                    if j1 == pos {
                        assert(t[j] == c);
                        lemma_interest_trans(c.m, s[0].m, x.m, reverse);
                    } else if j1 < pos {
                        assert(t[j] == s[j1]);
                    } else {
                        assert(t[j] == s[j1 - 1]);
                        assert(1 <= j1 - 1 < s.len());
                    }
                }
            } else {
                assert(seen1[i] == c);
                assert(t.contains(c));
            }
        }
    }
}

proof fn lemma_retention_run(seen: Seq<Cand>, s: Seq<Cand>, cs: Seq<Cand>, k: int, reverse: bool)
    requires
        k >= 0,
        retention_inv(seen, s, k, reverse),
        distinct_times(seen + cs),
    ensures
        retention_inv(seen + cs, run_offers(s, cs, k, reverse), k, reverse),
    decreases cs.len(),
{
    if cs.len() == 0 {
        assert(seen + cs =~= seen);
    } else {
        let c = cs[0];
        let all = seen + cs;
        assert forall|i: int| 0 <= i < seen.len() implies (#[trigger] seen[i].m) != c.m by {
            assert(all[i] == seen[i]);
            assert(all[seen.len() as int] == c);
        }
        lemma_retention_step(seen, s, c, k, reverse);
        assert(seen.push(c) + cs.subrange(1, cs.len() as int) =~= seen + cs);
        lemma_retention_run(
            seen.push(c),
            offer(s, c, k, reverse),
            cs.subrange(1, cs.len() as int),
            k,
            reverse,
        );
    }
}

/// The third law of the bounded set: run over any finite stream of
/// candidates with pairwise-distinct timestamps, the final set holds
/// exactly the `min(len(stream), k)` most interesting candidates of the
/// stream, sorted from least to most interesting. (With equal timestamps
/// in the stream the cut among the tied candidates depends on the order in
/// which they arrive, so the law is stated for distinct ones.)
pub proof fn lemma_run_offers_top_k(cs: Seq<Cand>, k: int, reverse: bool)
    requires
        k >= 0,
        distinct_times(cs),
    ensures
        ({
            let r = run_offers(Seq::empty(), cs, k, reverse);
            &&& r.len() == if cs.len() <= k {
                cs.len() as int
            } else {
                k
            }
            &&& sorted_by_interest(r, reverse)
            &&& forall|x: Cand| #[trigger] r.contains(x) ==> cs.contains(x)
            &&& forall|x: Cand, y: Cand|
                #![trigger r.contains(y), cs.contains(x)]
                cs.contains(x) && !r.contains(x) && r.contains(y) ==> more_interesting(
                    y.m,
                    x.m,
                    reverse,
                )
        }),
{
    let e = Seq::<Cand>::empty();
    assert(retention_inv(e, e, k, reverse));
    assert(e + cs =~= cs);
    lemma_retention_run(e, e, cs, k, reverse);
    let r = run_offers(e, cs, k, reverse);
    assert forall|x: Cand, y: Cand|
        cs.contains(x) && !r.contains(x) && r.contains(y) implies more_interesting(
        y.m,
        x.m,
        reverse,
    ) by {
        let i = choose|i: int| 0 <= i < cs.len() && cs[i] == x;
        let j = choose|j: int| 0 <= j < r.len() && r[j] == y;
        assert(cs[i] == x && r[j] == y);
    }
}

/// Offer one candidate to the bounded result set `results`, which holds at
/// most `count` entries sorted in interest order, exactly as [`offer`]
/// describes: insert below capacity; at capacity reject unless strictly
/// more interesting than the worst kept, else insert and evict the worst.
pub fn add_result(path: &Vec<u8>, mtime: Timestamp, results: &mut Vec<Res>, count: usize, reverse: bool)
    requires
        old(results)@.len() <= count,
        sorted_by_interest(cands(old(results)@), reverse),
    ensures
        cands(final(results)@) == offer(
            cands(old(results)@),
            Cand { p: path@, m: mtime },
            count as int,
            reverse,
        ),
        final(results)@.len() <= count,
        sorted_by_interest(cands(final(results)@), reverse),
{
    let ghost s0 = cands(old(results)@);
    let ghost c = Cand { p: path@, m: mtime };
    proof {
        lemma_offer_bounded_sorted(s0, c, count as int, reverse);
    }
    let is_full = results.len() >= count;
    if is_full {
        if results.len() == 0 {
            // capacity zero: every candidate is rejected
            return ;
        }
        if !is_more_interesting(&mtime, &results[0].m, reverse) {
            // not strictly more interesting than the worst kept: reject
            return ;
        }
    }
    proof {
        lemma_insert_pos_props(s0, c, reverse);
        lemma_insert_sorted_is_insert(s0, c, reverse);
    }
    // find the insertion position: past every element not strictly more
    // interesting than the candidate
    let mut pos: usize = 0;
    let mut found = false;
    while !found && pos < results.len()
        invariant
            pos <= results@.len(),
            s0 == cands(results@),
            forall|i: int| 0 <= i < pos ==> !more_interesting(#[trigger] s0[i].m, mtime, reverse),
            found ==> pos < s0.len() && more_interesting(s0[pos as int].m, mtime, reverse),
        decreases results@.len() - pos + if found {
            0int
        } else {
            1int
        },
    {
        if is_more_interesting(&results[pos].m, &mtime, reverse) {
            found = true;
        } else {
            pos += 1;
        }
    }
    proof {
        assert(pos as int == insert_pos(s0, c, reverse)) by {
            let ip = insert_pos(s0, c, reverse);
            if ip < pos as int {
                assert(!more_interesting(s0[ip].m, c.m, reverse));
            }
            if ip > pos as int {
                assert(!more_interesting(s0[pos as int].m, c.m, reverse));
            }
        }
    }
    results.insert(pos, Res { p: copy_bytes(path), m: mtime });
    proof {
        assert(cands(results@) =~= insert_sorted(s0, c, reverse));
    }
    if is_full {
        results.remove(0);
        proof {
            assert(cands(results@) =~= insert_sorted(s0, c, reverse).subrange(
                1,
                s0.len() as int + 1,
            ));
        }
    }
}

} // verus!
