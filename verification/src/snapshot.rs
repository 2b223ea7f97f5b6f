//! Snapshots of one dataset's cumulative counters, and the rate records
//! derived from a pair of them.
use vstd::prelude::*;

use crate::strutil::is_boundary_prefix;

verus! {

/// Saturating subtraction over the mathematical integers, clamped at zero.
///
/// A counter that moved backwards between two samples (a dataset was
/// remounted and its kernel-side counters reset) yields a zero delta rather
/// than an underflow.
pub open spec fn sat_sub(a: int, b: int) -> int {
    if a >= b {
        a - b
    } else {
        0
    }
}

/// Saturating addition over the mathematical integers, clamped at `u64::MAX`.
pub open spec fn sat_add(a: int, b: int) -> int {
    if a + b > u64::MAX {
        u64::MAX as int
    } else {
        a + b
    }
}

/// The mathematical value of one dataset's counter record.
#[verifier::ext_equal]
pub struct SnapV {
    pub name: Seq<char>,
    pub nunlinked: int,
    pub nunlinks: int,
    pub nread: int,
    pub reads: int,
    pub nwritten: int,
    pub writes: int,
}

/// One dataset's cumulative I/O counters at one sampling instant.
///
/// The various fields are not read atomically, but ought to be close.
pub struct Snapshot {
    pub name: String,
    pub nunlinked: u64,
    pub nunlinks: u64,
    pub nread: u64,
    pub reads: u64,
    pub nwritten: u64,
    pub writes: u64,
}

impl View for Snapshot {
    type V = SnapV;

    open spec fn view(&self) -> SnapV {
        SnapV {
            name: self.name@,
            nunlinked: self.nunlinked as int,
            nunlinks: self.nunlinks as int,
            nread: self.nread as int,
            reads: self.reads as int,
            nwritten: self.nwritten as int,
            writes: self.writes as int,
        }
    }
}

/// The mathematical value of one derived rate record.
#[verifier::ext_equal]
pub struct ElemV {
    pub name: Seq<char>,
    pub d_reads: int,
    pub d_nread: int,
    pub d_writes: int,
    pub d_nwritten: int,
    pub d_nunlinks: int,
    pub d_nunlinked: int,
    pub etime_ns: int,
}

/// One dataset's activity over one sampling interval, ready for display.
///
/// Each `d_*` field is the increase of the matching cumulative counter over
/// the interval, and `etime_ns` is the interval's length in nanoseconds, the
/// same for every record of one generation.  The displayed rate per second
/// for a field `d` is `d * 1e9 / etime_ns`; keeping the exact pair instead of
/// the quotient lets the record be compared and tested without rounding.
pub struct Element {
    pub name: String,
    pub d_reads: u64,
    pub d_nread: u64,
    pub d_writes: u64,
    pub d_nwritten: u64,
    pub d_nunlinks: u64,
    pub d_nunlinked: u64,
    pub etime_ns: u64,
}

impl View for Element {
    type V = ElemV;

    open spec fn view(&self) -> ElemV {
        ElemV {
            name: self.name@,
            d_reads: self.d_reads as int,
            d_nread: self.d_nread as int,
            d_writes: self.d_writes as int,
            d_nwritten: self.d_nwritten as int,
            d_nunlinks: self.d_nunlinks as int,
            d_nunlinked: self.d_nunlinked as int,
            etime_ns: self.etime_ns as int,
        }
    }
}

/// The rate record derived from a current snapshot and, when the dataset was
/// already present in the previous generation, its previous snapshot.
pub open spec fn compute_elem(c: SnapV, p: Option<SnapV>, etime_ns: int) -> ElemV {
    match p {
        Some(p) => ElemV {
            name: c.name,
            d_reads: sat_sub(c.reads, p.reads),
            d_nread: sat_sub(c.nread, p.nread),
            d_writes: sat_sub(c.writes, p.writes),
            d_nwritten: sat_sub(c.nwritten, p.nwritten),
            d_nunlinks: sat_sub(c.nunlinks, p.nunlinks),
            d_nunlinked: sat_sub(c.nunlinked, p.nunlinked),
            etime_ns: etime_ns,
        },
        None => ElemV {
            name: c.name,
            d_reads: c.reads,
            d_nread: c.nread,
            d_writes: c.writes,
            d_nwritten: c.nwritten,
            d_nunlinks: c.nunlinks,
            d_nunlinked: c.nunlinked,
            etime_ns: etime_ns,
        },
    }
}

pub open spec fn opt_snap_view(p: Option<&Snapshot>) -> Option<SnapV> {
    match p {
        Some(s) => Some(s@),
        None => None,
    }
}

/// Both counter records summed field by field, under the first one's name.
pub open spec fn merge_counters(a: SnapV, b: SnapV) -> SnapV {
    SnapV {
        name: a.name,
        nunlinked: sat_add(a.nunlinked, b.nunlinked),
        nunlinks: sat_add(a.nunlinks, b.nunlinks),
        nread: sat_add(a.nread, b.nread),
        reads: sat_add(a.reads, b.reads),
        nwritten: sat_add(a.nwritten, b.nwritten),
        writes: sat_add(a.writes, b.writes),
    }
}

impl Snapshot {
    /// An exact copy.
    pub fn duplicate(&self) -> (r: Snapshot)
        ensures
            r@ == self@,
    {
        Snapshot {
            name: self.name.clone(),
            nunlinked: self.nunlinked,
            nunlinks: self.nunlinks,
            nread: self.nread,
            reads: self.reads,
            nwritten: self.nwritten,
            writes: self.writes,
        }
    }

    /// Derives the dataset's activity over an interval of `etime_ns`
    /// nanoseconds that ended at this snapshot and began at `prev`, or - for
    /// a dataset with no previous record - over the whole time the counters
    /// have existed.
    pub fn compute(&self, prev: Option<&Snapshot>, etime_ns: u64) -> (r: Element)
        ensures
            r@ == compute_elem(self@, opt_snap_view(prev), etime_ns as int),
    {
        match prev {
            Some(p) => Element {
                name: self.name.clone(),
                d_reads: self.reads.saturating_sub(p.reads),
                d_nread: self.nread.saturating_sub(p.nread),
                d_writes: self.writes.saturating_sub(p.writes),
                d_nwritten: self.nwritten.saturating_sub(p.nwritten),
                d_nunlinks: self.nunlinks.saturating_sub(p.nunlinks),
                d_nunlinked: self.nunlinked.saturating_sub(p.nunlinked),
                etime_ns,
            },
            None => Element {
                name: self.name.clone(),
                d_reads: self.reads,
                d_nread: self.nread,
                d_writes: self.writes,
                d_nwritten: self.nwritten,
                d_nunlinks: self.nunlinks,
                d_nunlinked: self.nunlinked,
                etime_ns,
            },
        }
    }

    /// Folds another dataset's counters into this record.  The other record
    /// must belong to this dataset itself or to one of its descendants;
    /// combining two unrelated datasets is a programming error.
    pub fn accumulate(&mut self, other: &Snapshot)
        requires
            old(self)@.name == other@.name || is_boundary_prefix(old(self)@.name, other@.name),
        ensures
            final(self)@ == merge_counters(old(self)@, other@),
    {
        self.nunlinked = self.nunlinked.saturating_add(other.nunlinked);
        self.nunlinks = self.nunlinks.saturating_add(other.nunlinks);
        self.nread = self.nread.saturating_add(other.nread);
        self.reads = self.reads.saturating_add(other.reads);
        self.nwritten = self.nwritten.saturating_add(other.nwritten);
        self.writes = self.writes.saturating_add(other.writes);
    }
}

impl Element {
    /// An exact copy.
    pub fn duplicate(&self) -> (r: Element)
        ensures
            r@ == self@,
    {
        Element {
            name: self.name.clone(),
            d_reads: self.d_reads,
            d_nread: self.d_nread,
            d_writes: self.d_writes,
            d_nwritten: self.d_nwritten,
            d_nunlinks: self.d_nunlinks,
            d_nunlinked: self.d_nunlinked,
            etime_ns: self.etime_ns,
        }
    }
}

} // verus!
// ---------------------------------------------------------------------------
// Rate laws
// ---------------------------------------------------------------------------
verus! {

/// The rate law: for two snapshots of one dataset where no counter moved
/// backwards, the derived record's deltas are the exact differences of the
/// cumulative counters - the displayed rates are `(cur - prev) / etime` -
/// and none of them is negative.
pub proof fn lemma_rates_exact(c: SnapV, p: SnapV, etime_ns: int)
    requires
        c.name == p.name,
        c.reads >= p.reads,
        c.nread >= p.nread,
        c.writes >= p.writes,
        c.nwritten >= p.nwritten,
        c.nunlinks >= p.nunlinks,
        c.nunlinked >= p.nunlinked,
        etime_ns > 0,
    ensures
        ({
            let e = compute_elem(c, Some(p), etime_ns);
            &&& e.name == c.name
            &&& e.d_reads == c.reads - p.reads
            &&& e.d_nread == c.nread - p.nread
            &&& e.d_writes == c.writes - p.writes
            &&& e.d_nwritten == c.nwritten - p.nwritten
            &&& e.d_nunlinks == c.nunlinks - p.nunlinks
            &&& e.d_nunlinked == c.nunlinked - p.nunlinked
            &&& e.d_reads >= 0
            &&& e.d_nread >= 0
            &&& e.d_writes >= 0
            &&& e.d_nwritten >= 0
            &&& e.d_nunlinks >= 0
            &&& e.d_nunlinked >= 0
            &&& e.etime_ns == etime_ns
        }),
{
}

} // verus!
