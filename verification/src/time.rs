use vstd::prelude::*;

verus! {

/// A modification time: a non-negative duration since the epoch, split into
/// whole seconds and the nanosecond remainder, ordered lexicographically.
#[derive(Clone, Copy, Debug, PartialEq, Eq, Structural)]
pub struct Timestamp {
    pub secs: u64,
    pub nanos: u32,
}

/// `a` is strictly earlier than `b`.
pub open spec fn ts_lt(a: Timestamp, b: Timestamp) -> bool {
    a.secs < b.secs || (a.secs == b.secs && a.nanos < b.nanos)
}

/// Under the active ordering direction, `a` is strictly more interesting
/// than `b`: strictly newer when searching newest-first (`reverse` false),
/// strictly older when searching oldest-first (`reverse` true).
pub open spec fn more_interesting(a: Timestamp, b: Timestamp, reverse: bool) -> bool {
    if reverse {
        ts_lt(a, b)
    } else {
        ts_lt(b, a)
    }
}

impl Timestamp {
    pub fn new(secs: u64, nanos: u32) -> (r: Timestamp)
        ensures
            r == (Timestamp { secs, nanos }),
    {
        Timestamp { secs, nanos }
    }

    /// Strictly-earlier test.
    pub fn lt(&self, other: &Timestamp) -> (r: bool)
        ensures
            r == ts_lt(*self, *other),
    {
        self.secs < other.secs || (self.secs == other.secs && self.nanos < other.nanos)
    }
}

/// Executable counterpart of [`more_interesting`].
pub fn is_more_interesting(a: &Timestamp, b: &Timestamp, reverse: bool) -> (r: bool)
    ensures
        r == more_interesting(*a, *b, reverse),
{
    if reverse {
        a.lt(b)
    } else {
        b.lt(a)
    }
}

/// Interest is a strict total order on timestamps: two timestamps with
/// different values compare one way or the other, never both.
pub proof fn lemma_interest_total(a: Timestamp, b: Timestamp, reverse: bool)
    ensures
        a == b || more_interesting(a, b, reverse) || more_interesting(b, a, reverse),
        !(more_interesting(a, b, reverse) && more_interesting(b, a, reverse)),
{
}

/// Interest is transitive.
pub proof fn lemma_interest_trans(a: Timestamp, b: Timestamp, c: Timestamp, reverse: bool)
    requires
        more_interesting(a, b, reverse),
        more_interesting(b, c, reverse),
    ensures
        more_interesting(a, c, reverse),
{
}

} // verus!
