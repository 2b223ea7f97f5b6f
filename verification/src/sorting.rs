//! Stable sorting of rate records by a chosen display column.
use vstd::prelude::*;

use crate::snapshot::{ElemV, Element};
use crate::strutil::{lemma_lex_lt_irrefl, lemma_lex_lt_total, lemma_lex_lt_trans, lex_lt, str_lt};

verus! {

/// The numeric sort key of column `idx`: read or write or delete operations
/// and bytes, as deltas over the generation's shared interval.  With every
/// record of one generation carrying the same `etime_ns`, ordering by delta
/// is ordering by rate.
pub open spec fn num_key(idx: int, e: ElemV) -> int {
    if idx == 0 {
        e.d_reads
    } else if idx == 1 {
        e.d_nread
    } else if idx == 2 {
        e.d_writes
    } else if idx == 3 {
        e.d_nwritten
    } else if idx == 4 {
        e.d_nunlinks
    } else {
        e.d_nunlinked
    }
}

/// `a` must come strictly before `b` when sorting by column `idx`
/// (0-5 numeric, 6 the dataset name), descending when `rev` is set.
pub open spec fn precede(idx: int, rev: bool, a: ElemV, b: ElemV) -> bool {
    if idx == 6 {
        if rev {
            lex_lt(b.name, a.name)
        } else {
            lex_lt(a.name, b.name)
        }
    } else {
        if rev {
            num_key(idx, b) < num_key(idx, a)
        } else {
            num_key(idx, a) < num_key(idx, b)
        }
    }
}

/// `a` and `b` carry the same sort key for column `idx`.
pub open spec fn same_key(idx: int, rev: bool, a: ElemV, b: ElemV) -> bool {
    !precede(idx, rev, a, b) && !precede(idx, rev, b, a)
}

/// No record must come strictly before one that stands ahead of it.
pub open spec fn pairwise_sorted(s: Seq<ElemV>, idx: int, rev: bool) -> bool {
    forall|i: int, j: int| 0 <= i < j < s.len() ==> !precede(idx, rev, s[j], s[i])
}

/// `e` placed after every record that does not have to stand behind it, so
/// records with equal keys keep their arrival order.
pub open spec fn insert_sorted(s: Seq<ElemV>, e: ElemV, idx: int, rev: bool) -> Seq<ElemV>
    decreases s.len(),
{
    if s.len() == 0 {
        seq![e]
    } else if precede(idx, rev, e, s[0]) {
        seq![e] + s
    } else {
        seq![s[0]] + insert_sorted(s.drop_first(), e, idx, rev)
    }
}

/// The records of `s` in sort order, equal keys in arrival order.
pub open spec fn stable_sorted(s: Seq<ElemV>, idx: int, rev: bool) -> Seq<ElemV>
    decreases s.len(),
{
    if s.len() == 0 {
        Seq::empty()
    } else {
        insert_sorted(stable_sorted(s.drop_last(), idx, rev), s.last(), idx, rev)
    }
}

pub proof fn lemma_precede_trans(idx: int, rev: bool, a: ElemV, b: ElemV, c: ElemV)
    requires
        precede(idx, rev, a, b),
        precede(idx, rev, b, c),
    ensures
        precede(idx, rev, a, c),
{
    if idx == 6 {
        if rev {
            lemma_lex_lt_trans(c.name, b.name, a.name);
        } else {
            lemma_lex_lt_trans(a.name, b.name, c.name);
        }
    }
}

pub proof fn lemma_precede_asym(idx: int, rev: bool, a: ElemV, b: ElemV)
    requires
        precede(idx, rev, a, b),
    ensures
        !precede(idx, rev, b, a),
{
    if idx == 6 {
        if precede(idx, rev, b, a) {
            lemma_precede_trans(idx, rev, a, b, a);
            if rev {
                lemma_lex_lt_irrefl(a.name);
            } else {
                lemma_lex_lt_irrefl(a.name);
            }
        }
    }
}

/// Strict precedence splits at any third record: whoever must come before
/// another must come before it, or the third must come after the first.
pub proof fn lemma_precede_cotrans(idx: int, rev: bool, a: ElemV, b: ElemV, c: ElemV)
    requires
        precede(idx, rev, a, b),
    ensures
        precede(idx, rev, a, c) || precede(idx, rev, c, b),
{
    if idx == 6 {
        if !precede(idx, rev, a, c) && !precede(idx, rev, c, b) {
            if rev {
                if !lex_lt(a.name, c.name) {
                    lemma_lex_lt_total(a.name, c.name);
                } else {
                    lemma_lex_lt_trans(b.name, a.name, c.name);
                }
            } else {
                if !lex_lt(c.name, a.name) {
                    lemma_lex_lt_total(c.name, a.name);
                } else {
                    lemma_lex_lt_trans(c.name, a.name, b.name);
                }
            }
        }
    }
}

/// On a prefix that the new record need not stand before, insertion leaves
/// the prefix in place and works on the remainder.
pub proof fn lemma_insert_sorted_skip(s: Seq<ElemV>, e: ElemV, idx: int, rev: bool, j: int)
    requires
        0 <= j <= s.len(),
        forall|m: int| 0 <= m < j ==> !precede(idx, rev, e, #[trigger] s[m]),
    ensures
        insert_sorted(s, e, idx, rev) == s.take(j) + insert_sorted(s.skip(j), e, idx, rev),
    decreases j,
{
    if j == 0 {
        assert(s.skip(0) =~= s);
        assert(s.take(0) + insert_sorted(s, e, idx, rev) =~= insert_sorted(s, e, idx, rev));
    } else {
        assert(!precede(idx, rev, e, s[0]));
        let rest = s.drop_first();
        assert(insert_sorted(s, e, idx, rev) == seq![s[0]] + insert_sorted(rest, e, idx, rev));
        assert(forall|m: int| 0 <= m < j - 1 ==> rest[m] == s[m + 1]);
        lemma_insert_sorted_skip(rest, e, idx, rev, j - 1);
        assert(rest.take(j - 1) =~= s.take(j).drop_first());
        assert(rest.skip(j - 1) =~= s.skip(j));
        assert(seq![s[0]] + (rest.take(j - 1) + insert_sorted(rest.skip(j - 1), e, idx, rev)) =~= s
            .take(j) + insert_sorted(s.skip(j), e, idx, rev));
    }
}

/// Insertion keeps the order, and introduces only the inserted record.
pub proof fn lemma_insert_sorted_sorted(s: Seq<ElemV>, e: ElemV, idx: int, rev: bool)
    requires
        pairwise_sorted(s, idx, rev),
    ensures
        pairwise_sorted(insert_sorted(s, e, idx, rev), idx, rev),
        forall|k: int|
            0 <= k < insert_sorted(s, e, idx, rev).len() ==> (#[trigger] insert_sorted(
                s,
                e,
                idx,
                rev,
            )[k] == e || exists|j: int| 0 <= j < s.len() && #[trigger] s[j] == insert_sorted(
                s,
                e,
                idx,
                rev,
            )[k]),
    decreases s.len(),
{
    let r = insert_sorted(s, e, idx, rev);
    if s.len() == 0 {
        assert(r == seq![e]);
    } else if precede(idx, rev, e, s[0]) {
        assert(r == seq![e] + s);
        assert forall|i: int, j: int| 0 <= i < j < r.len() implies !precede(
            idx,
            rev,
            r[j],
            r[i],
        ) by {
            if i == 0 {
                assert(r[j] == s[j - 1]);
                if precede(idx, rev, s[j - 1], e) {
                    lemma_precede_trans(idx, rev, s[j - 1], e, s[0]);
                    if j == 1 {
                        lemma_precede_asym(idx, rev, e, s[0]);
                    }
                }
            } else {
                assert(r[i] == s[i - 1] && r[j] == s[j - 1]);
            }
        }
        assert forall|k: int| 0 <= k < r.len() implies (#[trigger] r[k] == e || exists|j: int|
            0 <= j < s.len() && #[trigger] s[j] == r[k]) by {
            if k > 0 {
                assert(s[k - 1] == r[k]);
            }
        }
    } else {
        let rest = s.drop_first();
        assert(pairwise_sorted(rest, idx, rev)) by {
            assert(forall|i: int, j: int|
                0 <= i < j < rest.len() ==> rest[i] == s[i + 1] && rest[j] == s[j + 1]);
        }
        lemma_insert_sorted_sorted(rest, e, idx, rev);
        let rr = insert_sorted(rest, e, idx, rev);
        assert(r == seq![s[0]] + rr);
        assert forall|i: int, j: int| 0 <= i < j < r.len() implies !precede(
            idx,
            rev,
            r[j],
            r[i],
        ) by {
            if i == 0 {
                let x = rr[j - 1];
                assert(r[j] == x);
                if x == e {
                    assert(!precede(idx, rev, e, s[0]));
                } else {
                    let m = choose|m: int| 0 <= m < rest.len() && #[trigger] rest[m] == x;
                    assert(rest[m] == s[m + 1]);
                    assert(!precede(idx, rev, s[m + 1], s[0]));
                }
            } else {
                assert(r[i] == rr[i - 1] && r[j] == rr[j - 1]);
            }
        }
        assert forall|k: int| 0 <= k < r.len() implies (#[trigger] r[k] == e || exists|j: int|
            0 <= j < s.len() && #[trigger] s[j] == r[k]) by {
            if k == 0 {
                assert(s[0] == r[0]);
            } else {
                let x = rr[k - 1];
                assert(r[k] == x);
                if x != e {
                    let m = choose|m: int| 0 <= m < rest.len() && #[trigger] rest[m] == x;
                    assert(s[m + 1] == x);
                }
            }
        }
    }
}

/// The sorted sequence is ordered by the chosen column.
pub proof fn lemma_stable_sorted_sorted(s: Seq<ElemV>, idx: int, rev: bool)
    ensures
        pairwise_sorted(stable_sorted(s, idx, rev), idx, rev),
    decreases s.len(),
{
    if s.len() > 0 {
        lemma_stable_sorted_sorted(s.drop_last(), idx, rev);
        lemma_insert_sorted_sorted(stable_sorted(s.drop_last(), idx, rev), s.last(), idx, rev);
    }
}

} // verus!
// ---------------------------------------------------------------------------
// Stability, and the executable sort
// ---------------------------------------------------------------------------
verus! {

pub proof fn lemma_precede_irrefl(idx: int, rev: bool, a: ElemV)
    ensures
        !precede(idx, rev, a, a),
{
    if idx == 6 {
        lemma_lex_lt_irrefl(a.name);
    }
}

/// What insertion does to the records sharing any one key: the inserted
/// record lands behind them, every other key's records stand untouched.
proof fn lemma_filter_insert(t: Seq<ElemV>, e: ElemV, idx: int, rev: bool, p: ElemV)
    requires
        pairwise_sorted(t, idx, rev),
    ensures
        insert_sorted(t, e, idx, rev).filter(|x: ElemV| same_key(idx, rev, x, p)) == (
        if same_key(idx, rev, e, p) {
            t.filter(|x: ElemV| same_key(idx, rev, x, p)).push(e)
        } else {
            t.filter(|x: ElemV| same_key(idx, rev, x, p))
        }),
    decreases t.len(),
{
    reveal(Seq::filter);
    let pred = |x: ElemV| same_key(idx, rev, x, p);
    let r = insert_sorted(t, e, idx, rev);
    let sg = seq![e];
    assert(sg.drop_last() =~= Seq::<ElemV>::empty());
    assert(Seq::<ElemV>::empty().filter(pred) == Seq::<ElemV>::empty());
    assert(sg.last() == e);
    assert(sg.filter(pred) == if pred(e) {
        Seq::<ElemV>::empty().push(e)
    } else {
        Seq::<ElemV>::empty()
    });
    if t.len() == 0 {
        assert(r == sg);
        assert(t.filter(pred) == Seq::<ElemV>::empty());
        if pred(e) {
            assert(sg.filter(pred) =~= t.filter(pred).push(e));
        }
    } else if precede(idx, rev, e, t[0]) {
        assert(r == sg + t);
        Seq::filter_distributes_over_add(sg, t, pred);
        if pred(e) {
            assert forall|j: int| 0 <= j < t.len() implies !pred(#[trigger] t[j]) by {
                assert(!precede(idx, rev, e, p) && !precede(idx, rev, p, e));
                lemma_precede_cotrans(idx, rev, e, t[0], p);
                assert(precede(idx, rev, p, t[0]));
                if pred(t[j]) {
                    lemma_precede_cotrans(idx, rev, p, t[0], t[j]);
                    if precede(idx, rev, t[j], t[0]) {
                        if j == 0 {
                            lemma_precede_irrefl(idx, rev, t[0]);
                        }
                    }
                }
            }
            assert(t.filter(pred) == Seq::<ElemV>::empty()) by {
                lemma_filter_all_false(t, pred);
            }
            assert(sg.filter(pred) + t.filter(pred) =~= t.filter(pred).push(e));
        } else {
            assert(sg.filter(pred) + t.filter(pred) =~= t.filter(pred));
        }
    } else {
        let rest = t.drop_first();
        assert(pairwise_sorted(rest, idx, rev)) by {
            assert(forall|i: int, j: int|
                0 <= i < j < rest.len() ==> rest[i] == t[i + 1] && rest[j] == t[j + 1]);
        }
        lemma_filter_insert(rest, e, idx, rev, p);
        let h = seq![t[0]];
        assert(r == h + insert_sorted(rest, e, idx, rev));
        assert(t =~= h + rest);
        Seq::filter_distributes_over_add(h, rest, pred);
        Seq::filter_distributes_over_add(h, insert_sorted(rest, e, idx, rev), pred);
        if pred(e) {
            Seq::push_distributes_over_add(h.filter(pred), rest.filter(pred), e);
        }
    }
}

/// No record of `s` satisfies `pred`, so the filtered sequence is empty.
proof fn lemma_filter_all_false(s: Seq<ElemV>, pred: spec_fn(ElemV) -> bool)
    requires
        forall|j: int| 0 <= j < s.len() ==> !pred(#[trigger] s[j]),
    ensures
        s.filter(pred) == Seq::<ElemV>::empty(),
    decreases s.len(),
{
    reveal(Seq::filter);
    if s.len() > 0 {
        assert(forall|j: int|
            0 <= j < s.drop_last().len() ==> !pred(#[trigger] s.drop_last()[j]));
        lemma_filter_all_false(s.drop_last(), pred);
    }
}

/// The stable-sort law: for any one sort key, the records carrying it come
/// out of the sort in exactly the order they went in.
pub proof fn lemma_stable_sorted_stable(s: Seq<ElemV>, idx: int, rev: bool, p: ElemV)
    ensures
        stable_sorted(s, idx, rev).filter(|x: ElemV| same_key(idx, rev, x, p)) == s.filter(
            |x: ElemV| same_key(idx, rev, x, p),
        ),
    decreases s.len(),
{
    let pred = |x: ElemV| same_key(idx, rev, x, p);
    if s.len() == 0 {
        reveal(Seq::filter);
    } else {
        let t = stable_sorted(s.drop_last(), idx, rev);
        lemma_stable_sorted_stable(s.drop_last(), idx, rev, p);
        lemma_stable_sorted_sorted(s.drop_last(), idx, rev);
        lemma_filter_insert(t, s.last(), idx, rev, p);
        assert(s.filter(pred) == if pred(s.last()) {
            s.drop_last().filter(pred).push(s.last())
        } else {
            s.drop_last().filter(pred)
        }) by {
            reveal(Seq::filter);
        }
    }
}

/// The mathematical values of a sequence of rate records.
pub open spec fn evs(s: Seq<Element>) -> Seq<ElemV> {
    s.map_values(|e: Element| e@)
}

/// The numeric sort key of column `idx`.
fn num_key_exec(idx: usize, e: &Element) -> (k: u64)
    requires
        idx != 6,
    ensures
        k as int == num_key(idx as int, e@),
{
    if idx == 0 {
        e.d_reads
    } else if idx == 1 {
        e.d_nread
    } else if idx == 2 {
        e.d_writes
    } else if idx == 3 {
        e.d_nwritten
    } else if idx == 4 {
        e.d_nunlinks
    } else {
        e.d_nunlinked
    }
}

/// Whether `a` must come strictly before `b` under column `idx`.
fn elem_precedes(idx: usize, rev: bool, a: &Element, b: &Element) -> (r: bool)
    ensures
        r == precede(idx as int, rev, a@, b@),
{
    if idx == 6 {
        if rev {
            str_lt(b.name.as_str(), a.name.as_str())
        } else {
            str_lt(a.name.as_str(), b.name.as_str())
        }
    } else {
        let ka = num_key_exec(idx, a);
        let kb = num_key_exec(idx, b);
        if rev {
            kb < ka
        } else {
            ka < kb
        }
    }
}

/// Sorts the records by column `idx` (0-5 numeric, 6 the name), descending
/// when `rev` is set.  The sort is stable: records with equal keys keep
/// their input order.
pub fn sort_elements(v: Vec<Element>, idx: usize, rev: bool) -> (r: Vec<Element>)
    ensures
        evs(r@) == stable_sorted(evs(v@), idx as int, rev),
{
    let ghost src = evs(v@);
    let mut out: Vec<Element> = Vec::new();
    let mut i: usize = 0;
    proof {
        assert(evs(out@) =~= Seq::<ElemV>::empty());
        assert(src.take(0) =~= Seq::<ElemV>::empty());
    }
    while i < v.len()
        invariant
            0 <= i <= v@.len(),
            src == evs(v@),
            evs(out@) == stable_sorted(src.take(i as int), idx as int, rev),
        decreases v@.len() - i,
    {
        let e = &v[i];
        let ghost t = evs(out@);
        let mut j: usize = 0;
        loop
            invariant_except_break
                0 <= j <= out@.len(),
                evs(out@) == t,
                forall|m: int| 0 <= m < j ==> !precede(idx as int, rev, e@, #[trigger] t[m]),
            ensures
                0 <= j <= out@.len(),
                evs(out@) == t,
                forall|m: int| 0 <= m < j ==> !precede(idx as int, rev, e@, #[trigger] t[m]),
                j < t.len() ==> precede(idx as int, rev, e@, t[j as int]),
            decreases out@.len() - j,
        {
            if j >= out.len() {
                break;
            }
            if elem_precedes(idx, rev, e, &out[j]) {
                assert(out@[j as int]@ == t[j as int]);
                break;
            }
            assert(out@[j as int]@ == t[j as int]);
            j = j + 1;
        }
        proof {
            lemma_insert_sorted_skip(t, e@, idx as int, rev, j as int);
            if j < t.len() {
                assert(t.skip(j as int)[0] == t[j as int]);
                assert(insert_sorted(t.skip(j as int), e@, idx as int, rev) == seq![e@] + t.skip(
                    j as int,
                ));
            } else {
                assert(t.skip(j as int) =~= Seq::<ElemV>::empty());
                assert(insert_sorted(t.skip(j as int), e@, idx as int, rev) == seq![e@]);
            }
        }
        out.insert(j, e.duplicate());
        proof {
            assert(evs(out@) =~= t.take(j as int) + (seq![e@] + t.skip(j as int)));
            assert(evs(out@) == insert_sorted(t, e@, idx as int, rev));
            assert(src.take(i + 1).drop_last() =~= src.take(i as int));
            assert(src.take(i + 1).last() == src[i as int]);
            assert(src[i as int] == e@);
        }
        i = i + 1;
    }
    proof {
        assert(src.take(v@.len() as int) =~= src);
    }
    out
}

} // verus!
