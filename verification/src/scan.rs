use vstd::prelude::*;
use crate::filter::{byte_views, copy_bytes, extension_of, extension_spec, filter_extension, passes};
use crate::results::{
    add_result, cands, lemma_offer_bounded_sorted, offer, run_offers, sorted_by_interest, Cand, Res,
};
use crate::time::Timestamp;
use crate::walk::{
    entry_of, get_mtime, visits, visits_list, walk_list_ok, walk_ok, Entry, FsNode, TraversalError,
};

verus! {

/// Everything fixed for the duration of one scan: the extension filter,
/// whether directories are candidates, the capacity `count`, the ordering
/// direction (`reverse` false: newest first; true: oldest first), and
/// whether retention is bypassed (`unordered`).
pub struct ScanConfig {
    pub wanted_exts: Vec<Vec<u8>>,
    pub exclude_exts: Vec<Vec<u8>>,
    pub output_directory: bool,
    pub count: usize,
    pub reverse: bool,
    pub unordered: bool,
}

/// The ghost image of a [`ScanConfig`].
pub struct CfgV {
    pub wanted: Seq<Seq<u8>>,
    pub exclude: Seq<Seq<u8>>,
    pub output_directory: bool,
    pub count: int,
    pub reverse: bool,
    pub unordered: bool,
}

impl View for ScanConfig {
    type V = CfgV;

    open spec fn view(&self) -> CfgV {
        CfgV {
            wanted: byte_views(self.wanted_exts@),
            exclude: byte_views(self.exclude_exts@),
            output_directory: self.output_directory,
            count: self.count as int,
            reverse: self.reverse,
            unordered: self.unordered,
        }
    }
}

/// Everything one scan accumulates: the bounded result set, the count of
/// every entry visited, the candidates streamed out in unordered mode, and
/// the paths whose modification time could not be read.
pub struct ScanState {
    pub results: Vec<Res>,
    pub total_count: u64,
    pub emitted: Vec<Res>,
    pub failed_paths: Vec<Vec<u8>>,
}

/// The ghost image of a [`ScanState`].
pub struct StateV {
    pub results: Seq<Cand>,
    pub total: u64,
    pub emitted: Seq<Cand>,
    pub failed: Seq<Seq<u8>>,
}

impl View for ScanState {
    type V = StateV;

    open spec fn view(&self) -> StateV {
        StateV {
            results: cands(self.results@),
            total: self.total_count,
            emitted: cands(self.emitted@),
            failed: byte_views(self.failed_paths@),
        }
    }
}

/// The state every scan starts from.
pub open spec fn init_state() -> StateV {
    StateV { results: Seq::empty(), total: 0, emitted: Seq::empty(), failed: Seq::empty() }
}

/// The scan's running invariant: the result set never exceeds the capacity
/// and is always sorted in interest order.
pub open spec fn st_inv(st: StateV, cfg: CfgV) -> bool {
    &&& st.results.len() <= cfg.count
    &&& sorted_by_interest(st.results, cfg.reverse)
}

/// `t` plus one, stopping at the largest representable count.
pub open spec fn sat_inc(t: u64) -> u64 {
    if t == u64::MAX {
        t
    } else {
        (t + 1) as u64
    }
}

/// `t` plus `n`, stopping at the largest representable count.
pub open spec fn sat_add(t: u64, n: nat) -> u64 {
    if t + n > u64::MAX {
        u64::MAX
    } else {
        (t + n) as u64
    }
}

/// Whether a visited entry survives classification: a directory only if
/// directories are candidates; a file only if its extension passes the
/// filter.
pub open spec fn classified(e: Entry, cfg: CfgV) -> bool {
    if e.is_dir {
        cfg.output_directory
    } else {
        passes(extension_spec(e.path), cfg.wanted, cfg.exclude)
    }
}

/// What one visited entry does to the scan state: it is always counted;
/// then, if it survives classification, either its missing modification
/// time is recorded as a failure, or the candidate is streamed out
/// (unordered mode) or offered to the bounded result set.
pub open spec fn step_state(st: StateV, e: Entry, cfg: CfgV) -> StateV {
    let t = sat_inc(st.total);
    if !classified(e, cfg) {
        StateV { results: st.results, total: t, emitted: st.emitted, failed: st.failed }
    } else {
        match e.mtime {
            None => StateV {
                results: st.results,
                total: t,
                emitted: st.emitted,
                failed: st.failed.push(e.path),
            },
            Some(m) => if cfg.unordered {
                StateV {
                    results: st.results,
                    total: t,
                    emitted: st.emitted.push(Cand { p: e.path, m }),
                    failed: st.failed,
                }
            } else {
                StateV {
                    results: offer(st.results, Cand { p: e.path, m }, cfg.count, cfg.reverse),
                    total: t,
                    emitted: st.emitted,
                    failed: st.failed,
                }
            },
        }
    }
}

/// The scan state after visiting every entry of `es` in order.
pub open spec fn run_scan(st: StateV, es: Seq<Entry>, cfg: CfgV) -> StateV
    decreases es.len(),
{
    if es.len() == 0 {
        st
    } else {
        run_scan(step_state(st, es[0], cfg), es.subrange(1, es.len() as int), cfg)
    }
}

/// The candidates among `es`, in discovery order: the entries that survive
/// classification and carry a readable modification time.
pub open spec fn candidates_of(es: Seq<Entry>, cfg: CfgV) -> Seq<Cand>
    decreases es.len(),
{
    if es.len() == 0 {
        Seq::empty()
    } else {
        let rest = candidates_of(es.subrange(1, es.len() as int), cfg);
        if classified(es[0], cfg) {
            match es[0].mtime {
                Some(m) => seq![Cand { p: es[0].path, m }] + rest,
                None => rest,
            }
        } else {
            rest
        }
    }
}

/// The scan state after walking each root of `rs` in turn, sharing one
/// state across all of them.
pub open spec fn scan_roots(st: StateV, rs: Seq<FsNode>, cfg: CfgV) -> StateV
    decreases rs.len(),
{
    if rs.len() == 0 {
        st
    } else {
        scan_roots(run_scan(st, visits(rs[0]), cfg), rs.subrange(1, rs.len() as int), cfg)
    }
}

proof fn lemma_step_inv(st: StateV, e: Entry, cfg: CfgV)
    requires
        st_inv(st, cfg),
        cfg.count >= 0,
    ensures
        st_inv(step_state(st, e, cfg), cfg),
{
    if classified(e, cfg) {
        match e.mtime {
            Some(m) => {
                if !cfg.unordered {
                    lemma_offer_bounded_sorted(st.results, Cand { p: e.path, m }, cfg.count, cfg.reverse);
                }
            },
            None => {},
        }
    }
}

proof fn lemma_run_scan_singleton(st: StateV, e: Entry, cfg: CfgV)
    ensures
        run_scan(st, seq![e], cfg) == step_state(st, e, cfg),
{
    let es = seq![e];
    assert(es[0] == e);
    assert(es.subrange(1, 1) =~= Seq::<Entry>::empty());
    assert(run_scan(step_state(st, e, cfg), Seq::<Entry>::empty(), cfg) == step_state(st, e, cfg));
}

proof fn lemma_run_scan_app(st: StateV, a: Seq<Entry>, b: Seq<Entry>, cfg: CfgV)
    ensures
        run_scan(st, a + b, cfg) == run_scan(run_scan(st, a, cfg), b, cfg),
    decreases a.len(),
{
    if a.len() == 0 {
        assert(a + b =~= b);
    } else {
        assert((a + b)[0] == a[0]);
        assert((a + b).subrange(1, (a + b).len() as int) =~= a.subrange(1, a.len() as int) + b);
        lemma_run_scan_app(step_state(st, a[0], cfg), a.subrange(1, a.len() as int), b, cfg);
    }
}

/// Visit one entry of the snapshot: count it, classify it, and route its
/// candidate, exactly as [`step_state`] describes.
pub fn visit_entry(node: &FsNode, cfg: &ScanConfig, state: &mut ScanState)
    requires
        st_inv(old(state)@, cfg@),
    ensures
        final(state)@ == step_state(old(state)@, entry_of(*node), cfg@),
        st_inv(final(state)@, cfg@),
{
    proof {
        lemma_step_inv(old(state)@, entry_of(*node), cfg@);
    }
    // every visited entry is counted, kept or not
    if state.total_count < u64::MAX {
        state.total_count = state.total_count + 1;
    }
    let path = node.path_ref();
    let keep: bool = if node.is_dir() {
        cfg.output_directory
    } else {
        let ext = extension_of(path);
        filter_extension(&ext, &cfg.wanted_exts, &cfg.exclude_exts)
    };
    if !keep {
        return ;
    }
    match get_mtime(node) {
        Err(_) => {
            state.failed_paths.push(copy_bytes(path));
            proof {
                assert(byte_views(state.failed_paths@) =~= old(state)@.failed.push(
                    entry_of(*node).path,
                ));
            }
        },
        Ok(m) => {
            if cfg.unordered {
                state.emitted.push(Res { p: copy_bytes(path), m });
                proof {
                    assert(cands(state.emitted@) =~= old(state)@.emitted.push(
                        Cand { p: entry_of(*node).path, m },
                    ));
                }
            } else {
                add_result(path, m, &mut state.results, cfg.count, cfg.reverse);
            }
        },
    }
}

/// Walk one snapshot node: visit it, then, for a directory, walk each
/// child in order, stopping at the first child whose walk fails and
/// reporting a [`TraversalError`] if enumeration of this directory's
/// children had failed. The state reflects every entry visited before the
/// failure, as [`run_scan`] over [`visits`] describes.
pub fn traverse_dir(node: &FsNode, cfg: &ScanConfig, state: &mut ScanState) -> (r: Result<
    (),
    TraversalError,
>)
    requires
        st_inv(old(state)@, cfg@),
    ensures
        final(state)@ == run_scan(old(state)@, visits(*node), cfg@),
        st_inv(final(state)@, cfg@),
        r is Ok <==> walk_ok(*node),
    decreases *node,
{
    visit_entry(node, cfg, state);
    proof {
        lemma_run_scan_singleton(old(state)@, entry_of(*node), cfg@);
    }
    match node {
        FsNode::File { .. } => Ok(()),
        FsNode::Dir { children, truncated, .. } => {
            let ghost head = seq![entry_of(*node)];
            let mut i: usize = 0;
            while i < children.len()
                invariant
                    i <= children@.len(),
                    *node is Dir,
                    node->children == *children,
                    node->truncated == *truncated,
                    head == seq![entry_of(*node)],
                    walk_list_ok(children@.subrange(0, i as int)),
                    state@ == run_scan(
                        old(state)@,
                        head + visits_list(children@.subrange(0, i as int)),
                        cfg@,
                    ),
                    st_inv(state@, cfg@),
                decreases children@.len() - i,
            {
                let ghost pre = children@.subrange(0, i as int);
                let ghost st_before = state@;
                let child = &children[i];
                proof {
                    let cv = *children;
                    assert(node->children == cv);
                    assert(decreases_to!(*node => node->children));
                    assert(decreases_to!(cv => cv@));
                    assert(decreases_to!(cv@ => cv@[i as int]));
                    assert(decreases_to!(*node => *child));
                }
                let r: Result<(), TraversalError> = if child.is_dir() {
                    traverse_dir(child, cfg, state)
                } else {
                    visit_entry(child, cfg, state);
                    proof {
                        lemma_run_scan_singleton(st_before, entry_of(*child), cfg@);
                    }
                    Ok(())
                };
                proof {
                    // the state now covers the prefix plus this child's visits
                    crate::walk::lemma_walk_list_snoc(children@, i as int);
                    lemma_run_scan_app(
                        old(state)@,
                        head + visits_list(pre),
                        visits(children@[i as int]),
                        cfg@,
                    );
                    assert((head + visits_list(pre)) + visits(children@[i as int]) =~= head + (
                    visits_list(pre) + visits(children@[i as int])));
                }
                match r {
                    Err(e) => {
                        proof {
                            assert(node->children == *children);
                            assert(node->truncated == *truncated);
                            assert(visits(*node) == head + visits_list(children@));
                            assert(!walk_ok(*node));
                        }
                        return Err(e);
                    },
                    Ok(_) => {
                        i += 1;
                    },
                }
            }
            proof {
                assert(node->children == *children);
                assert(node->truncated == *truncated);
                assert(children@.subrange(0, children@.len() as int) =~= children@);
                assert(visits(*node) == head + visits_list(children@));
                assert(walk_ok(*node) == (!*truncated && walk_list_ok(children@)));
            }
            if *truncated {
                Err(TraversalError)
            } else {
                Ok(())
            }
        },
    }
}

/// Scan one input path: a directory is walked recursively; a plain file is
/// visited on its own with no directory read.
pub fn handle_input_path(node: &FsNode, cfg: &ScanConfig, state: &mut ScanState) -> (r: Result<
    (),
    TraversalError,
>)
    requires
        st_inv(old(state)@, cfg@),
    ensures
        final(state)@ == run_scan(old(state)@, visits(*node), cfg@),
        st_inv(final(state)@, cfg@),
        r is Ok <==> walk_ok(*node),
{
    if node.is_dir() {
        traverse_dir(node, cfg, state)
    } else {
        visit_entry(node, cfg, state);
        proof {
            lemma_run_scan_singleton(old(state)@, entry_of(*node), cfg@);
        }
        Ok(())
    }
}

impl ScanState {
    /// The empty state a scan starts from.
    pub fn new() -> (s: ScanState)
        ensures
            s@ == init_state(),
    {
        let s = ScanState {
            results: Vec::new(),
            total_count: 0,
            emitted: Vec::new(),
            failed_paths: Vec::new(),
        };
        proof {
            assert(s@.results =~= init_state().results);
            assert(s@.emitted =~= init_state().emitted);
            assert(s@.failed =~= init_state().failed);
        }
        s
    }
}

proof fn lemma_scan_roots_snoc(st: StateV, rs: Seq<FsNode>, i: int, cfg: CfgV)
    requires
        0 <= i < rs.len(),
    ensures
        scan_roots(st, rs.subrange(0, i + 1), cfg) == run_scan(
            scan_roots(st, rs.subrange(0, i), cfg),
            visits(rs[i]),
            cfg,
        ),
    decreases i,
{
    let pre = rs.subrange(0, i);
    let pre1 = rs.subrange(0, i + 1);
    if i == 0 {
        assert(pre =~= Seq::<FsNode>::empty());
        assert(pre1[0] == rs[0]);
        assert(pre1.subrange(1, pre1.len() as int) =~= Seq::<FsNode>::empty());
        assert(scan_roots(st, Seq::<FsNode>::empty(), cfg) == st);
        assert(scan_roots(run_scan(st, visits(rs[0]), cfg), Seq::<FsNode>::empty(), cfg)
            == run_scan(st, visits(rs[0]), cfg));
    } else {
        let tl = rs.subrange(1, rs.len() as int);
        assert(pre[0] == rs[0]);
        assert(pre1[0] == rs[0]);
        assert(pre.subrange(1, pre.len() as int) =~= tl.subrange(0, i - 1));
        assert(pre1.subrange(1, pre1.len() as int) =~= tl.subrange(0, i));
        lemma_scan_roots_snoc(run_scan(st, visits(rs[0]), cfg), tl, i - 1, cfg);
        assert(tl[i - 1] == rs[i]);
        assert(scan_roots(st, pre1, cfg) == scan_roots(
            run_scan(st, visits(rs[0]), cfg),
            tl.subrange(0, i),
            cfg,
        ));
        assert(scan_roots(st, pre, cfg) == scan_roots(
            run_scan(st, visits(rs[0]), cfg),
            tl.subrange(0, i - 1),
            cfg,
        ));
    }
}

/// Run one whole scan: walk every root of `roots` in order over one shared
/// state, so the result set is the global top-K over the whole multi-root
/// scan. The returned flags say, root by root, whether its walk completed;
/// a failed root keeps its partial contribution and later roots still run.
pub fn scan(roots: &Vec<FsNode>, cfg: &ScanConfig) -> (r: (ScanState, Vec<bool>))
    ensures
        r.0@ == scan_roots(init_state(), roots@, cfg@),
        st_inv(r.0@, cfg@),
        r.1@.len() == roots@.len(),
        forall|i: int| 0 <= i < roots@.len() ==> r.1@[i] == walk_ok(roots@[i]),
{
    let mut state = ScanState::new();
    let mut oks: Vec<bool> = Vec::new();
    proof {
        assert(roots@.subrange(0, 0) =~= Seq::<FsNode>::empty());
    }
    let mut i: usize = 0;
    while i < roots.len()
        invariant
            i <= roots@.len(),
            state@ == scan_roots(init_state(), roots@.subrange(0, i as int), cfg@),
            st_inv(state@, cfg@),
            oks@.len() == i,
            forall|j: int| 0 <= j < i ==> oks@[j] == walk_ok(roots@[j]),
        decreases roots@.len() - i,
    {
        let ok = match handle_input_path(&roots[i], cfg, &mut state) {
            Ok(_) => true,
            Err(_) => false,
        };
        oks.push(ok);
        proof {
            lemma_scan_roots_snoc(init_state(), roots@, i as int, cfg@);
        }
        i += 1;
    }
    proof {
        assert(roots@.subrange(0, roots@.len() as int) =~= roots@);
    }
    (state, oks)
}

/// The visited-entry counter counts every visited entry, whatever the
/// configuration, stopping only at the largest representable count.
pub proof fn lemma_total_counts_all(st: StateV, es: Seq<Entry>, cfg: CfgV)
    ensures
        run_scan(st, es, cfg).total == sat_add(st.total, es.len()),
    decreases es.len(),
{
    if es.len() > 0 {
        lemma_total_counts_all(step_state(st, es[0], cfg), es.subrange(1, es.len() as int), cfg);
    }
}

/// With capacity zero the result set stays empty, whatever is offered;
/// the counter still reflects every entry.
pub proof fn lemma_zero_capacity_scan(st: StateV, es: Seq<Entry>, cfg: CfgV)
    requires
        cfg.count == 0,
        st.results.len() == 0,
    ensures
        run_scan(st, es, cfg).results.len() == 0,
    decreases es.len(),
{
    if es.len() > 0 {
        lemma_zero_capacity_scan(step_state(st, es[0], cfg), es.subrange(1, es.len() as int), cfg);
    }
}

/// In unordered mode, every candidate — each filtered entry with a readable
/// modification time — is emitted exactly once, in discovery order, and the
/// retention set is never touched.
pub proof fn lemma_unordered_streams(st: StateV, es: Seq<Entry>, cfg: CfgV)
    requires
        cfg.unordered,
    ensures
        run_scan(st, es, cfg).emitted == st.emitted + candidates_of(es, cfg),
        run_scan(st, es, cfg).results == st.results,
    decreases es.len(),
{
    if es.len() == 0 {
        assert(st.emitted + candidates_of(es, cfg) =~= st.emitted);
    } else {
        let tail = es.subrange(1, es.len() as int);
        lemma_unordered_streams(step_state(st, es[0], cfg), tail, cfg);
        assert(run_scan(st, es, cfg).emitted =~= st.emitted + candidates_of(es, cfg));
    }
}

/// In ordered mode, the scan's result set is exactly the bounded set's
/// answer to the stream of candidates in discovery order.
pub proof fn lemma_ordered_retention(st: StateV, es: Seq<Entry>, cfg: CfgV)
    requires
        !cfg.unordered,
    ensures
        run_scan(st, es, cfg).results == run_offers(
            st.results,
            candidates_of(es, cfg),
            cfg.count,
            cfg.reverse,
        ),
    decreases es.len(),
{
    if es.len() == 0 {
    } else {
        let tail = es.subrange(1, es.len() as int);
        lemma_ordered_retention(step_state(st, es[0], cfg), tail, cfg);
        if classified(es[0], cfg) {
            match es[0].mtime {
                Some(m) => {
                    let c = Cand { p: es[0].path, m };
                    let cs = candidates_of(es, cfg);
                    assert(cs[0] == c);
                    assert(cs.subrange(1, cs.len() as int) =~= candidates_of(tail, cfg));
                },
                None => {},
            }
        }
    }
}

} // verus!
