//! The data source: owns the current and previous generation of snapshots,
//! derives per-interval rate records, and optionally folds each dataset's
//! counters into all of its ancestors.
use vstd::prelude::*;

use crate::snapshot::{
    compute_elem, merge_counters, opt_snap_view, ElemV, Element, SnapV, Snapshot,
};
use crate::strutil::{
    is_boundary_prefix, lemma_lex_lt_irrefl, lemma_lex_lt_total, lemma_lex_lt_trans,
    lemma_parents_from_lens, lemma_parents_membership, lex_lt, parents_from, parents_of, str_eq,
    str_lt,
};

verus! {

/// The mathematical values of a sequence of snapshot records.
pub open spec fn snv(s: Seq<Snapshot>) -> Seq<SnapV> {
    s.map_values(|x: Snapshot| x@)
}

/// The first record named `name`, if any.
pub open spec fn lookup(s: Seq<SnapV>, name: Seq<char>) -> Option<SnapV>
    decreases s.len(),
{
    if s.len() == 0 {
        None
    } else if s[0].name == name {
        Some(s[0])
    } else {
        lookup(s.drop_first(), name)
    }
}

/// Record names grow strictly in lexicographic order, so each name occurs at
/// most once.
pub open spec fn sorted_by_name(s: Seq<SnapV>) -> bool {
    forall|i: int, j: int| 0 <= i < j < s.len() ==> lex_lt(s[i].name, s[j].name)
}

/// The same counters under another name.
pub open spec fn with_name(ss: SnapV, n: Seq<char>) -> SnapV {
    SnapV {
        name: n,
        nunlinked: ss.nunlinked,
        nunlinks: ss.nunlinks,
        nread: ss.nread,
        reads: ss.reads,
        nwritten: ss.nwritten,
        writes: ss.writes,
    }
}

/// One record upserted into a name-sorted sequence: inserted at its place if
/// the name is new, otherwise summed into the record that carries the name.
pub open spec fn upsert_one(s: Seq<SnapV>, ss: SnapV) -> Seq<SnapV>
    decreases s.len(),
{
    if s.len() == 0 {
        seq![ss]
    } else if lex_lt(ss.name, s[0].name) {
        seq![ss] + s
    } else if ss.name == s[0].name {
        seq![merge_counters(s[0], ss)] + s.drop_first()
    } else {
        seq![s[0]] + upsert_one(s.drop_first(), ss)
    }
}

/// One record upserted under each of the names in `ps`, in order.
pub open spec fn upsert_parents(s: Seq<SnapV>, ss: SnapV, ps: Seq<Seq<char>>) -> Seq<SnapV>
    decreases ps.len(),
{
    if ps.len() == 0 {
        s
    } else {
        upsert_parents(upsert_one(s, with_name(ss, ps[0])), ss, ps.drop_first())
    }
}

/// One record upserted under its own name, and - when children-aggregation
/// is on - also under every strict-ancestor name.
pub open spec fn upsert_full(s: Seq<SnapV>, ss: SnapV, children: bool) -> Seq<SnapV> {
    if children {
        upsert_parents(s, ss, parents_of(ss.name))
    } else {
        upsert_one(s, ss)
    }
}

/// The current generation built from a stream of snapshots, in order.
pub open spec fn build_cur(snaps: Seq<SnapV>, children: bool) -> Seq<SnapV>
    decreases snaps.len(),
{
    if snaps.len() == 0 {
        Seq::empty()
    } else {
        upsert_full(build_cur(snaps.drop_last(), children), snaps.last(), children)
    }
}

pub proof fn lemma_lookup_none(s: Seq<SnapV>, name: Seq<char>)
    requires
        forall|j: int| 0 <= j < s.len() ==> (#[trigger] s[j]).name != name,
    ensures
        lookup(s, name) is None,
    decreases s.len(),
{
    if s.len() > 0 {
        assert(forall|j: int|
            0 <= j < s.drop_first().len() ==> (#[trigger] s.drop_first()[j]).name != name);
        lemma_lookup_none(s.drop_first(), name);
    }
}

pub proof fn lemma_lookup_skip(s: Seq<SnapV>, name: Seq<char>, i: int)
    requires
        0 <= i <= s.len(),
        forall|j: int| 0 <= j < i ==> (#[trigger] s[j]).name != name,
    ensures
        lookup(s, name) == lookup(s.skip(i), name),
    decreases i,
{
    if i > 0 {
        assert(s[0].name != name);
        assert(s.drop_first() =~= s.skip(1));
        assert(forall|j: int|
            0 <= j < i - 1 ==> (#[trigger] s.skip(1)[j]).name != name) by {
            assert(forall|j: int| 0 <= j < i - 1 ==> s.skip(1)[j] == s[j + 1]);
        }
        lemma_lookup_skip(s.skip(1), name, i - 1);
        assert(s.skip(1).skip(i - 1) =~= s.skip(i));
    } else {
        assert(s.skip(0) =~= s);
    }
}

/// What `upsert_one` does to every name: the upserted name gains the new
/// counters, every other name keeps its record.
pub proof fn lemma_upsert_one_lookup(s: Seq<SnapV>, ss: SnapV, n: Seq<char>)
    requires
        sorted_by_name(s),
    ensures
        lookup(upsert_one(s, ss), n) == (if n == ss.name {
            match lookup(s, n) {
                Some(e) => Some(merge_counters(e, ss)),
                None => Some(ss),
            }
        } else {
            lookup(s, n)
        }),
    decreases s.len(),
{
    if s.len() == 0 {
        let r = seq![ss];
        assert(upsert_one(s, ss) == r);
        assert(r[0] == ss);
        if n == ss.name {
            assert(lookup(r, n) == Some(ss));
        } else {
            assert(r.drop_first() =~= Seq::<SnapV>::empty());
            assert(lookup(r, n) == lookup(Seq::<SnapV>::empty(), n));
            assert(lookup(r, n) is None);
        }
    } else if lex_lt(ss.name, s[0].name) {
        let r = seq![ss] + s;
        assert(upsert_one(s, ss) == r);
        assert(r[0] == ss);
        if n == ss.name {
            assert(lookup(r, n) == Some(ss));
            assert forall|j: int| 0 <= j < s.len() implies (#[trigger] s[j]).name != n by {
                if j > 0 {
                    assert(lex_lt(s[0].name, s[j].name));
                    lemma_lex_lt_trans(ss.name, s[0].name, s[j].name);
                } else {
                    assert(lex_lt(ss.name, s[0].name));
                }
                lemma_lex_lt_irrefl(s[j].name);
            }
            lemma_lookup_none(s, n);
        } else {
            assert(r.drop_first() =~= s);
            assert(lookup(r, n) == lookup(s, n));
        }
    } else if ss.name == s[0].name {
        let r = seq![merge_counters(s[0], ss)] + s.drop_first();
        assert(upsert_one(s, ss) == r);
        assert(r[0] == merge_counters(s[0], ss));
        assert(r[0].name == s[0].name);
        if n == ss.name {
            assert(lookup(r, n) == Some(merge_counters(s[0], ss)));
            assert(lookup(s, n) == Some(s[0]));
        } else {
            assert(r.drop_first() =~= s.drop_first());
            assert(lookup(r, n) == lookup(s.drop_first(), n));
            assert(lookup(s, n) == lookup(s.drop_first(), n));
        }
    } else {
        let rest = s.drop_first();
        assert(sorted_by_name(rest)) by {
            assert(forall|i: int, j: int|
                0 <= i < j < rest.len() ==> rest[i] == s[i + 1] && rest[j] == s[j + 1]);
        }
        lemma_upsert_one_lookup(rest, ss, n);
        let r = seq![s[0]] + upsert_one(rest, ss);
        assert(upsert_one(s, ss) == r);
        assert(r[0] == s[0]);
        assert(r.drop_first() =~= upsert_one(rest, ss));
        if n == s[0].name {
            assert(lookup(r, n) == Some(s[0]));
            assert(lookup(s, n) == Some(s[0]));
            assert(n != ss.name);
        } else {
            assert(lookup(s, n) == lookup(rest, n));
            assert(lookup(r, n) == lookup(upsert_one(rest, ss), n));
        }
    }
}

/// `upsert_one` keeps the sequence sorted, and introduces no name but the
/// upserted one.
pub proof fn lemma_upsert_one_sorted(s: Seq<SnapV>, ss: SnapV)
    requires
        sorted_by_name(s),
    ensures
        sorted_by_name(upsert_one(s, ss)),
        forall|k: int|
            0 <= k < upsert_one(s, ss).len() ==> ((#[trigger] upsert_one(s, ss)[k]).name == ss.name
                || exists|j: int| 0 <= j < s.len() && (#[trigger] s[j]).name == upsert_one(s, ss)[k].name),
    decreases s.len(),
{
    let r = upsert_one(s, ss);
    if s.len() == 0 {
        assert(r == seq![ss]);
    } else if lex_lt(ss.name, s[0].name) {
        assert(r == seq![ss] + s);
        assert forall|i: int, j: int| 0 <= i < j < r.len() implies lex_lt(
            r[i].name,
            r[j].name,
        ) by {
            if i == 0 {
                if j > 1 {
                    assert(lex_lt(s[0].name, s[j - 1].name));
                    lemma_lex_lt_trans(ss.name, s[0].name, s[j - 1].name);
                }
            } else {
                assert(r[i] == s[i - 1] && r[j] == s[j - 1]);
            }
        }
        assert forall|k: int| 0 <= k < r.len() implies ((#[trigger] r[k]).name == ss.name
            || exists|j: int| 0 <= j < s.len() && (#[trigger] s[j]).name == r[k].name) by {
            if k > 0 {
                assert(s[k - 1].name == r[k].name);
            }
        }
    } else if ss.name == s[0].name {
        assert(r == seq![merge_counters(s[0], ss)] + s.drop_first());
        assert forall|i: int, j: int| 0 <= i < j < r.len() implies lex_lt(
            r[i].name,
            r[j].name,
        ) by {
            assert(forall|k: int| 0 <= k < r.len() ==> (#[trigger] r[k]).name == s[k].name);
        }
        assert forall|k: int| 0 <= k < r.len() implies ((#[trigger] r[k]).name == ss.name
            || exists|j: int| 0 <= j < s.len() && (#[trigger] s[j]).name == r[k].name) by {
            assert(r[k].name == s[k].name);
        }
    } else {
        let rest = s.drop_first();
        assert(sorted_by_name(rest)) by {
            assert(forall|i: int, j: int|
                0 <= i < j < rest.len() ==> rest[i] == s[i + 1] && rest[j] == s[j + 1]);
        }
        lemma_upsert_one_sorted(rest, ss);
        let rr = upsert_one(rest, ss);
        assert(r == seq![s[0]] + rr);
        assert(!lex_lt(ss.name, s[0].name) && ss.name != s[0].name);
        assert(lex_lt(s[0].name, ss.name)) by {
            if !lex_lt(s[0].name, ss.name) {
                lemma_lex_lt_total(s[0].name, ss.name);
            }
        }
        assert forall|i: int, j: int| 0 <= i < j < r.len() implies lex_lt(
            r[i].name,
            r[j].name,
        ) by {
            if i == 0 {
                let x = rr[j - 1];
                assert(r[j] == x);
                if x.name == ss.name {
                    assert(lex_lt(s[0].name, ss.name));
                } else {
                    let m = choose|m: int| 0 <= m < rest.len() && (#[trigger] rest[m]).name == x.name;
                    assert(rest[m] == s[m + 1]);
                    assert(lex_lt(s[0].name, s[m + 1].name));
                }
            } else {
                assert(r[i] == rr[i - 1] && r[j] == rr[j - 1]);
                assert(lex_lt(rr[i - 1].name, rr[j - 1].name));
            }
        }
        assert forall|k: int| 0 <= k < r.len() implies ((#[trigger] r[k]).name == ss.name
            || exists|j: int| 0 <= j < s.len() && (#[trigger] s[j]).name == r[k].name) by {
            if k == 0 {
                assert(s[0].name == r[0].name);
            } else {
                let x = rr[k - 1];
                assert(r[k] == x);
                if x.name != ss.name {
                    let m = choose|m: int| 0 <= m < rest.len() && (#[trigger] rest[m]).name == x.name;
                    assert(s[m + 1].name == x.name);
                }
            }
        }
    }
}

/// On a sorted prefix that the new name orders strictly above, `upsert_one`
/// leaves the prefix in place and works on the remainder.
pub proof fn lemma_upsert_one_skip(s: Seq<SnapV>, ss: SnapV, i: int)
    requires
        0 <= i <= s.len(),
        forall|j: int| 0 <= j < i ==> lex_lt((#[trigger] s[j]).name, ss.name),
    ensures
        upsert_one(s, ss) == s.take(i) + upsert_one(s.skip(i), ss),
    decreases i,
{
    if i == 0 {
        assert(s.skip(0) =~= s);
        assert(s.take(0) + upsert_one(s, ss) =~= upsert_one(s, ss));
    } else {
        assert(lex_lt(s[0].name, ss.name));
        lemma_lex_lt_irrefl(s[0].name);
        assert(ss.name != s[0].name);
        assert(!lex_lt(ss.name, s[0].name)) by {
            if lex_lt(ss.name, s[0].name) {
                lemma_lex_lt_trans(s[0].name, ss.name, s[0].name);
                lemma_lex_lt_irrefl(s[0].name);
            }
        }
        let rest = s.drop_first();
        assert(upsert_one(s, ss) == seq![s[0]] + upsert_one(rest, ss));
        assert(forall|j: int| 0 <= j < i - 1 ==> rest[j] == s[j + 1]);
        lemma_upsert_one_skip(rest, ss, i - 1);
        assert(rest.take(i - 1) =~= s.take(i).drop_first());
        assert(rest.skip(i - 1) =~= s.skip(i));
        assert(seq![s[0]] + (rest.take(i - 1) + upsert_one(rest.skip(i - 1), ss)) =~= s.take(i)
            + upsert_one(s.skip(i), ss));
    }
}

} // verus!
// ---------------------------------------------------------------------------
// The data source itself
// ---------------------------------------------------------------------------
verus! {

/// The mathematical value of the data source's state.
#[verifier::ext_equal]
pub struct DsV {
    pub children: bool,
    pub prev: Seq<SnapV>,
    pub prev_ts: Option<u64>,
    pub cur: Seq<SnapV>,
    pub cur_ts: Option<u64>,
    pub pools: Seq<Seq<char>>,
}

/// Both generations are sorted by name, and when a previous generation
/// exists its timestamp lies strictly before the current one, so an elapsed
/// time is never zero or negative.
pub open spec fn ds_wf(d: DsV) -> bool {
    &&& sorted_by_name(d.cur)
    &&& sorted_by_name(d.prev)
    &&& (d.prev_ts is Some ==> d.cur_ts is Some && d.prev_ts->0 < d.cur_ts->0)
}

/// The elapsed time of the current generation, in nanoseconds: the distance
/// between the two generations' timestamps, or - before a second generation
/// exists - the time the system has been up, so that the first cycle reports
/// rates since boot.
pub open spec fn etime_of(d: DsV, uptime_ns: int) -> int {
    if d.prev_ts is Some {
        d.cur_ts->0 - d.prev_ts->0
    } else {
        uptime_ns
    }
}

/// Every current record diffed against its previous record, in name order.
pub open spec fn ds_elements(d: DsV, uptime_ns: int) -> Seq<ElemV> {
    d.cur.map_values(|c: SnapV| compute_elem(c, lookup(d.prev, c.name), etime_of(d, uptime_ns)))
}

/// Owns the current and previous generation of snapshots and derives rate
/// records from them.
pub struct DataSource {
    pub children: bool,
    pub prev: Vec<Snapshot>,
    pub prev_ts: Option<u64>,
    pub cur: Vec<Snapshot>,
    pub cur_ts: Option<u64>,
    pub pools: Vec<String>,
}

impl View for DataSource {
    type V = DsV;

    open spec fn view(&self) -> DsV {
        DsV {
            children: self.children,
            prev: snv(self.prev@),
            prev_ts: self.prev_ts,
            cur: snv(self.cur@),
            cur_ts: self.cur_ts,
            pools: self.pools@.map_values(|x: String| x@),
        }
    }
}

impl DataSource {
    /// A fresh data source with no generation yet.
    pub fn new(children: bool, pools: Vec<String>) -> (r: Self)
        ensures
            r@.children == children,
            r@.pools == pools@.map_values(|x: String| x@),
            r@.prev =~= Seq::<SnapV>::empty(),
            r@.prev_ts is None,
            r@.cur =~= Seq::<SnapV>::empty(),
            r@.cur_ts is None,
            ds_wf(r@),
    {
        DataSource {
            children,
            prev: Vec::new(),
            prev_ts: None,
            cur: Vec::new(),
            cur_ts: None,
            pools,
        }
    }

    /// The names of the dataset itself and of all of its ancestors: every
    /// prefix ending just before a '/', then the full name.
    pub fn with_parents(s: &str) -> (r: Vec<String>)
        ensures
            r@.map_values(|x: String| x@) == parents_of(s@),
    {
        let len: usize = s.unicode_len();
        let mut r: Vec<String> = Vec::new();
        let mut i: usize = 0;
        while i < len
            invariant
                0 <= i <= len,
                len == s@.len(),
                r@.map_values(|x: String| x@) + parents_from(s@, i as int) == parents_of(s@),
            decreases len - i,
        {
            let ghost pre = r@.map_values(|x: String| x@);
            if s.get_char(i) == '/' {
                r.push(s.substring_char(0, i).to_owned());
                proof {
                    assert(s@.subrange(0, i as int) =~= s@.take(i as int));
                    assert(r@.map_values(|x: String| x@) =~= pre.push(s@.take(i as int)));
                    assert(pre.push(s@.take(i as int)) + parents_from(s@, i + 1) =~= pre + (seq![
                        s@.take(i as int),
                    ] + parents_from(s@, i + 1)));
                }
            } else if i == len - 1 {
                r.push(s.to_owned());
                proof {
                    assert(parents_from(s@, i as int) == seq![s@]);
                    assert(r@.map_values(|x: String| x@) =~= pre.push(s@));
                    assert(parents_from(s@, i + 1) =~= Seq::<Seq<char>>::empty());
                    assert(pre.push(s@) + parents_from(s@, i + 1) =~= pre + seq![s@]);
                }
            }
            i = i + 1;
        }
        proof {
            assert(parents_from(s@, len as int) =~= Seq::<Seq<char>>::empty());
            assert(r@.map_values(|x: String| x@) + Seq::<Seq<char>>::empty() =~= r@.map_values(
                |x: String| x@,
            ));
        }
        r
    }

    /// Upserts one record into a name-sorted generation.
    fn upsert_one_vec(cur: &mut Vec<Snapshot>, ss: Snapshot)
        requires
            sorted_by_name(snv(old(cur)@)),
        ensures
            snv(final(cur)@) == upsert_one(snv(old(cur)@), ss@),
            sorted_by_name(snv(final(cur)@)),
    {
        let ghost s0 = snv(cur@);
        let mut i: usize = 0;
        loop
            invariant_except_break
                0 <= i <= cur@.len(),
                snv(cur@) == s0,
                sorted_by_name(s0),
                forall|j: int| 0 <= j < i ==> lex_lt((#[trigger] s0[j]).name, ss@.name),
            ensures
                0 <= i <= cur@.len(),
                snv(cur@) == s0,
                forall|j: int| 0 <= j < i ==> lex_lt((#[trigger] s0[j]).name, ss@.name),
                i < cur@.len() ==> !lex_lt(s0[i as int].name, ss@.name),
            decreases cur@.len() - i,
        {
            if i >= cur.len() {
                break;
            }
            if !str_lt(cur[i].name.as_str(), ss.name.as_str()) {
                break;
            }
            assert(s0[i as int].name == cur@[i as int]@.name);
            i = i + 1;
        }
        proof {
            lemma_upsert_one_skip(s0, ss@, i as int);
            lemma_upsert_one_sorted(s0, ss@);
        }
        if i < cur.len() && str_eq(cur[i].name.as_str(), ss.name.as_str()) {
            let ghost tail = s0.skip(i as int);
            assert(tail[0] == s0[i as int]);
            assert(tail[0].name == ss@.name);
            assert(upsert_one(tail, ss@) == seq![merge_counters(tail[0], ss@)] + tail.drop_first())
                by {
                lemma_lex_lt_irrefl(ss@.name);
            }
            let mut e = cur.remove(i);
            e.accumulate(&ss);
            cur.insert(i, e);
            proof {
                assert(snv(cur@) =~= s0.take(i as int) + (seq![merge_counters(s0[i as int], ss@)]
                    + tail.drop_first()));
            }
        } else {
            let ghost tail = s0.skip(i as int);
            proof {
                if i < s0.len() {
                    assert(s0[i as int].name != ss@.name);
                    assert(lex_lt(ss@.name, s0[i as int].name)) by {
                        if !lex_lt(ss@.name, s0[i as int].name) {
                            lemma_lex_lt_total(ss@.name, s0[i as int].name);
                        }
                    }
                    assert(tail[0] == s0[i as int]);
                    assert(upsert_one(tail, ss@) == seq![ss@] + tail);
                } else {
                    assert(tail =~= Seq::<SnapV>::empty());
                    assert(upsert_one(tail, ss@) == seq![ss@]);
                }
            }
            cur.insert(i, ss);
            proof {
                assert(snv(cur@) =~= s0.take(i as int) + upsert_one(tail, ss@));
            }
        }
    }

    /// Upserts one snapshot into `cur`: under its own name, and - when
    /// `children` is set - also under every strict-ancestor name, so that a
    /// parent accumulates all of its descendants' counters.
    pub fn upsert(cur: &mut Vec<Snapshot>, ss: &Snapshot, children: bool)
        requires
            sorted_by_name(snv(old(cur)@)),
        ensures
            snv(final(cur)@) == upsert_full(snv(old(cur)@), ss@, children),
            sorted_by_name(snv(final(cur)@)),
    {
        let ghost s0 = snv(cur@);
        if children {
            let parents = Self::with_parents(ss.name.as_str());
            let ghost ps = parents@.map_values(|x: String| x@);
            let mut k: usize = 0;
            proof {
                assert(ps.skip(0) =~= ps);
            }
            while k < parents.len()
                invariant
                    0 <= k <= parents@.len(),
                    ps == parents@.map_values(|x: String| x@),
                    sorted_by_name(snv(cur@)),
                    upsert_parents(snv(cur@), ss@, ps.skip(k as int)) == upsert_parents(s0, ss@, ps),
                decreases parents@.len() - k,
            {
                let renamed = Snapshot {
                    name: parents[k].clone(),
                    nunlinked: ss.nunlinked,
                    nunlinks: ss.nunlinks,
                    nread: ss.nread,
                    reads: ss.reads,
                    nwritten: ss.nwritten,
                    writes: ss.writes,
                };
                assert(renamed@ == with_name(ss@, ps[k as int]));
                let ghost pre = snv(cur@);
                Self::upsert_one_vec(cur, renamed);
                proof {
                    assert(ps.skip(k as int)[0] == ps[k as int]);
                    assert(ps.skip(k as int).drop_first() =~= ps.skip(k + 1));
                    assert(upsert_parents(pre, ss@, ps.skip(k as int)) == upsert_parents(
                        upsert_one(pre, with_name(ss@, ps[k as int])),
                        ss@,
                        ps.skip(k + 1),
                    ));
                }
                k = k + 1;
            }
            proof {
                assert(ps.skip(parents@.len() as int) =~= Seq::<Seq<char>>::empty());
                assert(upsert_parents(snv(cur@), ss@, Seq::<Seq<char>>::empty()) == snv(cur@));
            }
        } else {
            Self::upsert_one_vec(cur, ss.duplicate());
        }
    }

    /// The first record of `v` named `name`, if any.
    pub fn find_by_name<'a>(v: &'a Vec<Snapshot>, name: &str) -> (r: Option<&'a Snapshot>)
        ensures
            opt_snap_view(r) == lookup(snv(v@), name@),
    {
        let mut i: usize = 0;
        while i < v.len()
            invariant
                0 <= i <= v@.len(),
                forall|j: int| 0 <= j < i ==> (#[trigger] snv(v@)[j]).name != name@,
            decreases v@.len() - i,
        {
            if str_eq(v[i].name.as_str(), name) {
                proof {
                    lemma_lookup_skip(snv(v@), name@, i as int);
                    assert(snv(v@).skip(i as int)[0] == snv(v@)[i as int]);
                }
                return Some(&v[i]);
            }
            assert(snv(v@)[i as int].name == v@[i as int]@.name);
            i = i + 1;
        }
        proof {
            lemma_lookup_none(snv(v@), name@);
        }
        None
    }

    /// Begins a new generation at time `now`: the current generation becomes
    /// the previous one, and the stream of freshly assembled snapshots is
    /// folded into a new current generation.  The swap is all-or-nothing:
    /// the caller collects the whole stream before this is called, so a
    /// failed collection never leaves a half-built generation behind.
    pub fn refresh(&mut self, now: u64, snaps: &Vec<Snapshot>)
        requires
            ds_wf(old(self)@),
            old(self)@.cur_ts is Some ==> now > old(self)@.cur_ts->0,
        ensures
            final(self)@.children == old(self)@.children,
            final(self)@.pools == old(self)@.pools,
            final(self)@.prev == old(self)@.cur,
            final(self)@.prev_ts == old(self)@.cur_ts,
            final(self)@.cur_ts == Some(now),
            final(self)@.cur == build_cur(snv(snaps@), old(self)@.children),
            ds_wf(final(self)@),
    {
        let children = self.children;
        let mut newcur: Vec<Snapshot> = Vec::new();
        let mut k: usize = 0;
        proof {
            assert(snv(newcur@) =~= Seq::<SnapV>::empty());
            assert(snv(snaps@).take(0) =~= Seq::<SnapV>::empty());
        }
        while k < snaps.len()
            invariant
                0 <= k <= snaps@.len(),
                sorted_by_name(snv(newcur@)),
                snv(newcur@) == build_cur(snv(snaps@).take(k as int), children),
            decreases snaps@.len() - k,
        {
            Self::upsert(&mut newcur, &snaps[k], children);
            proof {
                assert(snv(snaps@).take(k + 1).drop_last() =~= snv(snaps@).take(k as int));
                assert(snv(snaps@).take(k + 1).last() == snv(snaps@)[k as int]);
                assert(snv(snaps@)[k as int] == snaps@[k as int]@);
            }
            k = k + 1;
        }
        proof {
            assert(snv(snaps@).take(snaps@.len() as int) =~= snv(snaps@));
        }
        core::mem::swap(&mut self.cur, &mut newcur);
        self.prev = newcur;
        self.prev_ts = self.cur_ts;
        self.cur_ts = Some(now);
    }

    /// Flips children-aggregation and rebuilds the current generation from a
    /// fresh stream.  The previous generation is discarded: aggregated and
    /// plain counters are not comparable, so the next derivation must report
    /// rates since boot rather than a poisoned diff.
    pub fn toggle_children(&mut self, now: u64, snaps: &Vec<Snapshot>)
        requires
            ds_wf(old(self)@),
            old(self)@.cur_ts is Some ==> now > old(self)@.cur_ts->0,
        ensures
            final(self)@.children == !old(self)@.children,
            final(self)@.pools == old(self)@.pools,
            final(self)@.prev =~= Seq::<SnapV>::empty(),
            final(self)@.prev_ts is None,
            final(self)@.cur_ts == Some(now),
            final(self)@.cur == build_cur(snv(snaps@), !old(self)@.children),
            ds_wf(final(self)@),
    {
        self.children = !self.children;
        self.refresh(now, snaps);
        self.prev = Vec::new();
        self.prev_ts = None;
        proof {
            assert(snv(self.prev@) =~= Seq::<SnapV>::empty());
        }
    }

    /// Derives one rate record per current dataset, in name order.  Needs a
    /// positive `uptime_ns` only before a previous generation exists, when
    /// the rates are reported since boot.
    pub fn elements(&self, uptime_ns: u64) -> (r: Vec<Element>)
        requires
            ds_wf(self@),
            self@.prev_ts is None ==> uptime_ns > 0,
        ensures
            r@.map_values(|e: Element| e@) == ds_elements(self@, uptime_ns as int),
    {
        let etime: u64 = match self.prev_ts {
            Some(p) => self.cur_ts.unwrap() - p,
            None => uptime_ns,
        };
        assert(etime as int == etime_of(self@, uptime_ns as int));
        let ghost target = ds_elements(self@, uptime_ns as int);
        let mut r: Vec<Element> = Vec::new();
        let mut i: usize = 0;
        proof {
            assert(r@.map_values(|e: Element| e@) =~= target.take(0));
        }
        while i < self.cur.len()
            invariant
                0 <= i <= self.cur@.len(),
                etime as int == etime_of(self@, uptime_ns as int),
                target == ds_elements(self@, uptime_ns as int),
                r@.map_values(|e: Element| e@) == target.take(i as int),
            decreases self.cur@.len() - i,
        {
            let ghost pre = r@.map_values(|e: Element| e@);
            let c = &self.cur[i];
            let p = Self::find_by_name(&self.prev, c.name.as_str());
            let e = c.compute(p, etime);
            proof {
                assert(c@ == self@.cur[i as int]);
                assert(e@ == target[i as int]);
            }
            r.push(e);
            proof {
                assert(r@.map_values(|e2: Element| e2@) =~= pre.push(target[i as int]));
                assert(target.take(i + 1) =~= target.take(i as int).push(target[i as int]));
            }
            i = i + 1;
        }
        proof {
            assert(target.take(self.cur@.len() as int) =~= target);
        }
        r
    }
}

} // verus!
// ---------------------------------------------------------------------------
// The aggregation law
// ---------------------------------------------------------------------------
verus! {

/// A snapshot's counters are folded into the entry named `p` exactly when
/// `p` is the snapshot's own dataset or a strict ancestor of it.
pub open spec fn contributes(ss: SnapV, p: Seq<char>) -> bool {
    ss.name == p || is_boundary_prefix(p, ss.name)
}

pub open spec fn zero_counters(p: Seq<char>) -> SnapV {
    SnapV { name: p, nunlinked: 0, nunlinks: 0, nread: 0, reads: 0, nwritten: 0, writes: 0 }
}

/// Exact elementwise addition, under the first record's name.
pub open spec fn add_counters(a: SnapV, b: SnapV) -> SnapV {
    SnapV {
        name: a.name,
        nunlinked: a.nunlinked + b.nunlinked,
        nunlinks: a.nunlinks + b.nunlinks,
        nread: a.nread + b.nread,
        reads: a.reads + b.reads,
        nwritten: a.nwritten + b.nwritten,
        writes: a.writes + b.writes,
    }
}

/// The exact sum of every snapshot's counters that belongs under `p`: the
/// dataset's own counters plus all of its strict descendants'.
pub open spec fn contrib_sum(snaps: Seq<SnapV>, p: Seq<char>) -> SnapV
    decreases snaps.len(),
{
    if snaps.len() == 0 {
        zero_counters(p)
    } else {
        let rest = contrib_sum(snaps.drop_last(), p);
        if contributes(snaps.last(), p) {
            add_counters(rest, snaps.last())
        } else {
            rest
        }
    }
}

/// Every counter lies in the range an unsigned counter can hold.
pub open spec fn counters_in_range(s: SnapV) -> bool {
    &&& 0 <= s.nunlinked <= u64::MAX
    &&& 0 <= s.nunlinks <= u64::MAX
    &&& 0 <= s.nread <= u64::MAX
    &&& 0 <= s.reads <= u64::MAX
    &&& 0 <= s.nwritten <= u64::MAX
    &&& 0 <= s.writes <= u64::MAX
}

proof fn lemma_contrib_sum_basic(snaps: Seq<SnapV>, p: Seq<char>)
    requires
        forall|i: int| 0 <= i < snaps.len() ==> counters_in_range(#[trigger] snaps[i]),
    ensures
        contrib_sum(snaps, p).name == p,
        contrib_sum(snaps, p).nunlinked >= 0,
        contrib_sum(snaps, p).nunlinks >= 0,
        contrib_sum(snaps, p).nread >= 0,
        contrib_sum(snaps, p).reads >= 0,
        contrib_sum(snaps, p).nwritten >= 0,
        contrib_sum(snaps, p).writes >= 0,
    decreases snaps.len(),
{
    if snaps.len() > 0 {
        assert(forall|i: int|
            0 <= i < snaps.drop_last().len() ==> #[trigger] snaps.drop_last()[i] == snaps[i]);
        lemma_contrib_sum_basic(snaps.drop_last(), p);
    }
}

proof fn lemma_contrib_sum_none(snaps: Seq<SnapV>, p: Seq<char>)
    requires
        forall|i: int| 0 <= i < snaps.len() ==> !contributes(#[trigger] snaps[i], p),
    ensures
        contrib_sum(snaps, p) == zero_counters(p),
    decreases snaps.len(),
{
    if snaps.len() > 0 {
        assert(forall|i: int|
            0 <= i < snaps.drop_last().len() ==> #[trigger] snaps.drop_last()[i] == snaps[i]);
        lemma_contrib_sum_none(snaps.drop_last(), p);
        assert(!contributes(snaps.last(), p));
    }
}

/// Upserting under several names keeps the generation sorted.
proof fn lemma_upsert_parents_sorted(s: Seq<SnapV>, ss: SnapV, ps: Seq<Seq<char>>)
    requires
        sorted_by_name(s),
    ensures
        sorted_by_name(upsert_parents(s, ss, ps)),
    decreases ps.len(),
{
    if ps.len() > 0 {
        lemma_upsert_one_sorted(s, with_name(ss, ps[0]));
        lemma_upsert_parents_sorted(upsert_one(s, with_name(ss, ps[0])), ss, ps.drop_first());
    }
}

/// Each generation a refresh builds is sorted by name.
pub proof fn lemma_build_cur_sorted(snaps: Seq<SnapV>, children: bool)
    ensures
        sorted_by_name(build_cur(snaps, children)),
    decreases snaps.len(),
{
    if snaps.len() > 0 {
        lemma_build_cur_sorted(snaps.drop_last(), children);
        if children {
            lemma_upsert_parents_sorted(
                build_cur(snaps.drop_last(), children),
                snaps.last(),
                parents_of(snaps.last().name),
            );
        } else {
            lemma_upsert_one_sorted(build_cur(snaps.drop_last(), children), snaps.last());
        }
    }
}

/// What upserting one snapshot under a list of distinct names does to any
/// one name: a listed name gains the snapshot's counters, every other name
/// keeps its record.
proof fn lemma_upsert_parents_lookup(s: Seq<SnapV>, ss: SnapV, ps: Seq<Seq<char>>, p: Seq<char>)
    requires
        sorted_by_name(s),
        forall|k1: int, k2: int| 0 <= k1 < k2 < ps.len() ==> ps[k1] != ps[k2],
    ensures
        sorted_by_name(upsert_parents(s, ss, ps)),
        lookup(upsert_parents(s, ss, ps), p) == (if ps.contains(p) {
            match lookup(s, p) {
                Some(e) => Some(merge_counters(e, with_name(ss, p))),
                None => Some(with_name(ss, p)),
            }
        } else {
            lookup(s, p)
        }),
    decreases ps.len(),
{
    lemma_upsert_parents_sorted(s, ss, ps);
    if ps.len() == 0 {
        assert(!ps.contains(p));
    } else {
        let ssr = with_name(ss, ps[0]);
        let s2 = upsert_one(s, ssr);
        lemma_upsert_one_sorted(s, ssr);
        lemma_upsert_one_lookup(s, ssr, p);
        let rest = ps.drop_first();
        assert(forall|k: int| 0 <= k < rest.len() ==> #[trigger] rest[k] == ps[k + 1]);
        lemma_upsert_parents_lookup(s2, ss, rest, p);
        if p == ps[0] {
            assert(!rest.contains(p)) by {
                if rest.contains(p) {
                    let k = choose|k: int| 0 <= k < rest.len() && rest[k] == p;
                    assert(ps[k + 1] == p && ps[0] == p);
                }
            }
            assert(ps.contains(p)) by {
                assert(ps[0] == p);
            }
            assert(ssr == with_name(ss, p));
        } else {
            assert(lookup(s2, p) == lookup(s, p));
            assert(ps.contains(p) <==> rest.contains(p)) by {
                if ps.contains(p) {
                    let k = choose|k: int| 0 <= k < ps.len() && ps[k] == p;
                    assert(k != 0);
                    assert(rest[k - 1] == p);
                }
                if rest.contains(p) {
                    let k = choose|k: int| 0 <= k < rest.len() && rest[k] == p;
                    assert(ps[k + 1] == p);
                }
            }
        }
    }
}

/// The aggregation law: with children-aggregation on, the generation built
/// from one cycle's snapshots holds under any name exactly the sum of that
/// dataset's own counters and of all its strict descendants' counters -
/// provided that sum fits in the counters' range, where the saturating
/// fold equals the exact sum.
pub proof fn lemma_aggregation(snaps: Seq<SnapV>, p: Seq<char>)
    requires
        forall|i: int| 0 <= i < snaps.len() ==> counters_in_range(#[trigger] snaps[i]),
        forall|i: int|
            0 <= i < snaps.len() ==> (#[trigger] snaps[i]).name.len() > 0 && snaps[i].name[snaps[i].name.len()
                - 1] != '/',
        counters_in_range(contrib_sum(snaps, p)),
    ensures
        lookup(build_cur(snaps, true), p) == (if exists|i: int|
            0 <= i < snaps.len() && contributes(#[trigger] snaps[i], p) {
            Some(contrib_sum(snaps, p))
        } else {
            None
        }),
    decreases snaps.len(),
{
    if snaps.len() == 0 {
        assert(build_cur(snaps, true) =~= Seq::<SnapV>::empty());
        assert(lookup(Seq::<SnapV>::empty(), p) is None);
    } else {
        let pre = snaps.drop_last();
        let last = snaps.last();
        assert(forall|i: int| 0 <= i < pre.len() ==> #[trigger] pre[i] == snaps[i]);
        lemma_contrib_sum_basic(pre, p);
        assert(counters_in_range(contrib_sum(pre, p))) by {
            if contributes(last, p) {
                assert(contrib_sum(snaps, p) == add_counters(contrib_sum(pre, p), last));
            } else {
                assert(contrib_sum(snaps, p) == contrib_sum(pre, p));
            }
        }
        lemma_aggregation(pre, p);
        lemma_build_cur_sorted(pre, true);
        let prev_cur = build_cur(pre, true);
        let ps = parents_of(last.name);
        assert(last.name.len() > 0 && last.name[last.name.len() - 1] != '/');
        lemma_parents_from_lens(last.name, 0);
        assert forall|k1: int, k2: int| 0 <= k1 < k2 < ps.len() implies ps[k1] != ps[k2] by {
            assert(parents_from(last.name, 0)[k1].len() < parents_from(last.name, 0)[k2].len());
        }
        lemma_upsert_parents_lookup(prev_cur, last, ps, p);
        lemma_parents_membership(last.name, p);
        assert(build_cur(snaps, true) == upsert_parents(prev_cur, last, ps));
        assert(ps.contains(p) <==> contributes(last, p));
        if contributes(last, p) {
            assert(contrib_sum(snaps, p) == add_counters(contrib_sum(pre, p), last));
            if exists|i: int| 0 <= i < pre.len() && contributes(#[trigger] pre[i], p) {
                let e = contrib_sum(pre, p);
                assert(lookup(prev_cur, p) == Some(e));
                assert(merge_counters(e, with_name(last, p)) =~= contrib_sum(snaps, p)) by {
                    assert(e.name == p);
                    assert(e.nunlinked + last.nunlinked <= u64::MAX);
                    assert(e.nunlinks + last.nunlinks <= u64::MAX);
                    assert(e.nread + last.nread <= u64::MAX);
                    assert(e.reads + last.reads <= u64::MAX);
                    assert(e.nwritten + last.nwritten <= u64::MAX);
                    assert(e.writes + last.writes <= u64::MAX);
                }
                assert(exists|i: int| 0 <= i < snaps.len() && contributes(#[trigger] snaps[i], p))
                    by {
                    assert(contributes(snaps[snaps.len() - 1], p));
                }
            } else {
                assert(lookup(prev_cur, p) is None);
                assert(forall|i: int| 0 <= i < pre.len() ==> !contributes(#[trigger] pre[i], p));
                lemma_contrib_sum_none(pre, p);
                assert(with_name(last, p) =~= contrib_sum(snaps, p));
                assert(exists|i: int| 0 <= i < snaps.len() && contributes(#[trigger] snaps[i], p))
                    by {
                    assert(contributes(snaps[snaps.len() - 1], p));
                }
            }
        } else {
            assert(lookup(build_cur(snaps, true), p) == lookup(prev_cur, p));
            assert(contrib_sum(snaps, p) == contrib_sum(pre, p));
            assert((exists|i: int| 0 <= i < snaps.len() && contributes(#[trigger] snaps[i], p))
                <==> (exists|i: int| 0 <= i < pre.len() && contributes(#[trigger] pre[i], p))) by {
                if exists|i: int| 0 <= i < snaps.len() && contributes(#[trigger] snaps[i], p) {
                    let i = choose|i: int|
                        0 <= i < snaps.len() && contributes(#[trigger] snaps[i], p);
                    assert(i < pre.len());
                    assert(contributes(pre[i], p));
                }
            }
        }
    }
}

} // verus!
// ---------------------------------------------------------------------------
// First-cycle and empty-cycle laws
// ---------------------------------------------------------------------------
verus! {

/// An empty collection cycle is no error: it builds an empty generation,
/// and an empty current generation derives an empty record sequence.
pub proof fn lemma_empty_cycle(children: bool, d: DsV, uptime_ns: int)
    requires
        d.cur.len() == 0,
    ensures
        build_cur(Seq::<SnapV>::empty(), children) == Seq::<SnapV>::empty(),
        ds_elements(d, uptime_ns) == Seq::<ElemV>::empty(),
{
    assert(ds_elements(d, uptime_ns) =~= Seq::<ElemV>::empty());
}

/// With the previous generation discarded - as toggling children-aggregation
/// does - the next derivation reports rates since boot: every record's
/// interval is the uptime, and every dataset's deltas are its raw counters,
/// never a diff against the pre-toggle generation.
pub proof fn lemma_since_boot(d: DsV, uptime_ns: int)
    requires
        d.prev_ts is None,
        d.prev.len() == 0,
    ensures
        etime_of(d, uptime_ns) == uptime_ns,
        ds_elements(d, uptime_ns) == d.cur.map_values(
            |c: SnapV| compute_elem(c, None, uptime_ns),
        ),
{
    assert forall|i: int| 0 <= i < d.cur.len() implies ds_elements(d, uptime_ns)[i] == d.cur.map_values(
        |c: SnapV| compute_elem(c, None, uptime_ns),
    )[i] by {
        assert(lookup(d.prev, d.cur[i].name) is None);
    }
    assert(ds_elements(d, uptime_ns) =~= d.cur.map_values(
        |c: SnapV| compute_elem(c, None, uptime_ns),
    ));
}

} // verus!
