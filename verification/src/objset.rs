//! Parsing one dataset's counters from a self-contained textual block, as a
//! procfs-like source exposes them: a header line, a column-header line, and
//! then one row per field with a name, a type tag and a value.
use vstd::prelude::*;

use crate::assemble::{
    builder_finish, builder_step, empty_builder, AssembleError, Builder, BuilderV, RawV, RawValue,
};
use crate::snapshot::{SnapV, Snapshot};
use crate::strutil::{
    dec_digits, dec_val, is_u64_string, lines_of, parse_u64, split_lines, str_eq, tokens,
    tokens_of,
};

verus! {

/// One row read as a field: its first token names the field, its third
/// carries the value.  The row for the dataset's name keeps its value as a
/// string; any other value is a counter when it reads as one, and a string
/// otherwise.  A row of fewer than three tokens is malformed.
pub open spec fn parse_row_spec(row: Seq<char>) -> Option<(Seq<char>, RawV)> {
    let toks = tokens_of(row);
    if toks.len() >= 3 {
        let name = toks[0];
        let value = toks[2];
        if name == "dataset_name"@ {
            Some((name, RawV::Str(value)))
        } else if is_u64_string(value) {
            Some((name, RawV::U64(dec_val(dec_digits(value)) as u64)))
        } else {
            Some((name, RawV::Str(value)))
        }
    } else {
        None
    }
}

/// Reads one row of a counter block.
pub fn parse_objset_row(row: &str) -> (r: Option<(String, RawValue)>)
    ensures
        r is Some <==> parse_row_spec(row@) is Some,
        r matches Some(p) ==> Some((p.0@, p.1@)) == parse_row_spec(row@),
{
    let toks = tokens(row);
    if toks.len() < 3 {
        return None;
    }
    assert(toks@.map_values(|x: String| x@)[0] == tokens_of(row@)[0]);
    assert(toks@.map_values(|x: String| x@)[2] == tokens_of(row@)[2]);
    let name_s = toks[0].clone();
    let val_s = toks[2].clone();
    if str_eq(name_s.as_str(), "dataset_name") {
        Some((name_s, RawValue::Str(val_s)))
    } else {
        match parse_u64(val_s.as_str()) {
            Some(n) => Some((name_s, RawValue::U64(n))),
            None => Some((name_s, RawValue::Str(val_s))),
        }
    }
}

/// The rows of the block's body: everything after the two header lines.
pub open spec fn body_rows(text: Seq<char>) -> Seq<Seq<char>> {
    let ls = lines_of(text);
    if ls.len() >= 2 {
        ls.skip(2)
    } else {
        Seq::empty()
    }
}

/// One parsed row merged into the accumulator.
pub open spec fn apply_row(b: BuilderV, row: Seq<char>) -> BuilderV {
    match parse_row_spec(row) {
        Some(p) => builder_step(b, p.0, p.1),
        None => b,
    }
}

pub open spec fn fold_rows(b: BuilderV, rows: Seq<Seq<char>>) -> BuilderV
    decreases rows.len(),
{
    if rows.len() == 0 {
        b
    } else {
        fold_rows(apply_row(b, rows[0]), rows.drop_first())
    }
}

pub open spec fn rows_ok(rows: Seq<Seq<char>>) -> bool {
    forall|i: int| 0 <= i < rows.len() ==> parse_row_spec(#[trigger] rows[i]) is Some
}

/// What parsing a whole block yields: a malformed row fails it, a complete
/// accumulator is the snapshot, and a missing required field is a malformed
/// record - never silently fabricated.
pub open spec fn parse_objset_spec(text: Seq<char>) -> Result<SnapV, AssembleError> {
    let rows = body_rows(text);
    if !rows_ok(rows) {
        Err(AssembleError::MalformedRow)
    } else {
        match builder_finish(fold_rows(empty_builder(), rows)) {
            Some(s) => Ok(s),
            None => Err(AssembleError::MalformedRecord),
        }
    }
}

/// Parses one dataset's counter block, strictly: a malformed row or a
/// missing required field is an error.
pub fn parse_objset(text: &str) -> (r: Result<Snapshot, AssembleError>)
    ensures
        r is Ok <==> parse_objset_spec(text@) is Ok,
        r is Ok ==> r->Ok_0@ == parse_objset_spec(text@)->Ok_0,
        r is Err ==> r->Err_0 == parse_objset_spec(text@)->Err_0,
{
    let ls = split_lines(text);
    let ghost rows = body_rows(text@);
    let mut b = Builder::new();
    let mut i: usize = 2;
    proof {
        if ls@.len() >= 2 {
            assert(rows =~= ls@.map_values(|x: String| x@).skip(2));
        }
        assert(rows.take(0) =~= Seq::<Seq<char>>::empty());
    }
    while i < ls.len()
        invariant
            2 <= i,
            i <= ls@.len() || i == 2,
            rows == body_rows(text@),
            ls@.len() >= 2 ==> rows == ls@.map_values(|x: String| x@).skip(2),
            ls@.len() < 2 ==> rows.len() == 0,
            i - 2 <= rows.len(),
            b@ == fold_rows(empty_builder(), rows.take(i - 2)),
            forall|j: int| 0 <= j < i - 2 ==> parse_row_spec(#[trigger] rows[j]) is Some,
        decreases ls@.len() - i,
    {
        assert(ls@[i as int]@ == rows[i - 2]);
        let row = match parse_objset_row(ls[i].as_str()) {
            Some(p) => p,
            None => {
                assert(!rows_ok(rows));
                return Err(AssembleError::MalformedRow);
            }
        };
        let ghost pre = b@;
        b.merge_field(row.0.as_str(), row.1);
        proof {
            assert(b@ == apply_row(pre, rows[i - 2]));
            lemma_fold_rows_step(empty_builder(), rows, i - 2);
        }
        i = i + 1;
    }
    proof {
        if ls@.len() >= 2 {
            assert(rows.take(rows.len() as int) =~= rows);
        } else {
            assert(rows.take(0) =~= rows);
        }
        assert(b@ == fold_rows(empty_builder(), rows));
        assert(rows_ok(rows));
    }
    b.finish_strict()
}

/// Folding one more row extends the fold of the prefix.
proof fn lemma_fold_rows_step(b: BuilderV, rows: Seq<Seq<char>>, k: int)
    requires
        0 <= k < rows.len(),
    ensures
        fold_rows(b, rows.take(k + 1)) == apply_row(fold_rows(b, rows.take(k)), rows[k]),
    decreases k,
{
    let tk1 = rows.take(k + 1);
    let tk = rows.take(k);
    if k == 0 {
        assert(tk1.drop_first() =~= Seq::<Seq<char>>::empty());
        assert(fold_rows(b, tk1) == fold_rows(apply_row(b, rows[0]), tk1.drop_first()));
        assert(tk =~= Seq::<Seq<char>>::empty());
    } else {
        let rest = rows.drop_first();
        assert(tk1[0] == rows[0]);
        assert(tk[0] == rows[0]);
        assert(tk1.drop_first() =~= rest.take(k));
        assert(tk.drop_first() =~= rest.take(k - 1));
        assert(rest[k - 1] == rows[k]);
        lemma_fold_rows_step(apply_row(b, rows[0]), rest, k - 1);
        assert(fold_rows(b, tk1) == fold_rows(apply_row(b, rows[0]), rest.take(k)));
        assert(fold_rows(b, tk) == fold_rows(apply_row(b, rows[0]), rest.take(k - 1)));
    }
}

impl Snapshot {
    /// Parses one dataset's counter block into a snapshot.
    pub fn try_from(text: &str) -> (r: Result<Snapshot, AssembleError>)
        ensures
            r is Ok <==> parse_objset_spec(text@) is Ok,
            r is Ok ==> r->Ok_0@ == parse_objset_spec(text@)->Ok_0,
            r is Err ==> r->Err_0 == parse_objset_spec(text@)->Err_0,
    {
        parse_objset(text)
    }
}

} // verus!
