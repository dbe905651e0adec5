use vstd::prelude::*;
use crate::time::Timestamp;

verus! {

/// A snapshot of one filesystem subtree, as a scan sees it.
///
/// A `File` is any entry that is not descended into. A `Dir` lists the
/// children its enumeration yielded, in enumeration order; `truncated`
/// records that enumerating its children failed after yielding them (so an
/// unreadable directory is a `Dir` with no children and `truncated` true).
/// `mtime` is `None` when the entry's modification time could not be read.
pub enum FsNode {
    File { path: Vec<u8>, mtime: Option<Timestamp> },
    Dir { path: Vec<u8>, mtime: Option<Timestamp>, children: Vec<FsNode>, truncated: bool },
}

/// One visited entry: its path, whether it is a directory, and its
/// modification time if one could be read.
pub struct Entry {
    pub path: Seq<u8>,
    pub is_dir: bool,
    pub mtime: Option<Timestamp>,
}

/// The entry a node presents when visited.
pub open spec fn entry_of(n: FsNode) -> Entry {
    match n {
        FsNode::File { path, mtime } => Entry { path: path@, is_dir: false, mtime },
        FsNode::Dir { path, mtime, .. } => Entry { path: path@, is_dir: true, mtime },
    }
}

/// Whether walking `n` completes without a directory-enumeration failure.
pub open spec fn walk_ok(n: FsNode) -> bool
    decreases n,
{
    match n {
        FsNode::File { .. } => true,
        FsNode::Dir { children, truncated, .. } => !truncated && walk_list_ok(children@),
    }
}

/// Whether walking every node of `ns` in order completes.
pub open spec fn walk_list_ok(ns: Seq<FsNode>) -> bool
    decreases ns,
{
    if ns.len() == 0 {
        true
    } else {
        walk_ok(ns[0]) && walk_list_ok(ns.subrange(1, ns.len() as int))
    }
}

/// The entries a walk of `n` visits, in order: the node itself first, then,
/// for a directory, each child's visits in turn. A failure while walking a
/// child cuts the sequence short there; entries already visited stay.
pub open spec fn visits(n: FsNode) -> Seq<Entry>
    decreases n,
{
    match n {
        FsNode::File { .. } => seq![entry_of(n)],
        FsNode::Dir { children, .. } => seq![entry_of(n)] + visits_list(children@),
    }
}

/// The entries visited while walking the nodes of `ns` in order, stopping
/// after the first node whose walk fails.
pub open spec fn visits_list(ns: Seq<FsNode>) -> Seq<Entry>
    decreases ns,
{
    if ns.len() == 0 {
        Seq::empty()
    } else if !walk_ok(ns[0]) {
        visits(ns[0])
    } else {
        visits(ns[0]) + visits_list(ns.subrange(1, ns.len() as int))
    }
}

/// Extending a walked prefix by one node: while every node so far walked
/// fine, the visits of the next prefix are the visits so far plus the next
/// node's visits, and a node whose walk fails cuts the whole list's visits
/// short right there.
pub proof fn lemma_walk_list_snoc(ns: Seq<FsNode>, i: int)
    requires
        0 <= i < ns.len(),
        walk_list_ok(ns.subrange(0, i)),
    ensures
        walk_list_ok(ns.subrange(0, i + 1)) == walk_ok(ns[i]),
        visits_list(ns.subrange(0, i + 1)) == visits_list(ns.subrange(0, i)) + visits(ns[i]),
        !walk_ok(ns[i]) ==> visits_list(ns) == visits_list(ns.subrange(0, i)) + visits(ns[i])
            && !walk_list_ok(ns),
    decreases i,
{
    let pre = ns.subrange(0, i);
    let pre1 = ns.subrange(0, i + 1);
    if i == 0 {
        assert(pre =~= Seq::<FsNode>::empty());
        assert(pre1[0] == ns[0]);
        assert(pre1.subrange(1, pre1.len() as int) =~= Seq::<FsNode>::empty());
        assert(Seq::<Entry>::empty() + visits(ns[0]) =~= visits(ns[0]));
        if walk_ok(ns[0]) {
            assert(visits(ns[0]) + Seq::<Entry>::empty() =~= visits(ns[0]));
        }
    } else {
        let tl = ns.subrange(1, ns.len() as int);
        assert(pre[0] == ns[0]);
        assert(pre1[0] == ns[0]);
        assert(pre.subrange(1, pre.len() as int) =~= tl.subrange(0, i - 1));
        assert(pre1.subrange(1, pre1.len() as int) =~= tl.subrange(0, i));
        lemma_walk_list_snoc(tl, i - 1);
        assert(tl[i - 1] == ns[i]);
        assert(visits(ns[0]) + (visits_list(tl.subrange(0, i - 1)) + visits(ns[i])) =~= (visits(
            ns[0],
        ) + visits_list(tl.subrange(0, i - 1))) + visits(ns[i]));
    }
}

/// Metadata for one entry could not be read, or held no usable
/// modification time; the entry is skipped, the scan goes on.
#[derive(Clone, Copy, Debug, PartialEq, Eq, Structural)]
pub struct AccessError;

/// A directory's children could not be enumerated; the walk of the current
/// input path stops there.
#[derive(Clone, Copy, Debug, PartialEq, Eq, Structural)]
pub struct TraversalError;

impl FsNode {
    /// Whether this node is a directory.
    pub fn is_dir(&self) -> (r: bool)
        ensures
            r == entry_of(*self).is_dir,
    {
        match self {
            FsNode::File { .. } => false,
            FsNode::Dir { .. } => true,
        }
    }

    /// This node's path.
    pub fn path_ref(&self) -> (r: &Vec<u8>)
        ensures
            r@ == entry_of(*self).path,
    {
        match self {
            FsNode::File { path, .. } => path,
            FsNode::Dir { path, .. } => path,
        }
    }
}

/// This node's modification time, or an [`AccessError`] when the snapshot
/// records that none could be read.
pub fn get_mtime(node: &FsNode) -> (r: Result<Timestamp, AccessError>)
    ensures
        match entry_of(*node).mtime {
            Some(m) => r == Ok::<Timestamp, AccessError>(m),
            None => r == Err::<Timestamp, AccessError>(AccessError),
        },
{
    let mtime = match node {
        FsNode::File { mtime, .. } => *mtime,
        FsNode::Dir { mtime, .. } => *mtime,
    };
    match mtime {
        Some(m) => Ok(m),
        None => Err(AccessError),
    }
}

} // verus!
