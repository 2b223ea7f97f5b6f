//! The snapshot assembler: turns an unordered stream of qualified counter
//! fields into complete per-dataset snapshot records.
//!
//! A qualified field name is dot-separated, carrying the pool in its third
//! and the counter group in its fifth component, which together form the
//! session key, and the counter's own name in its sixth.  Fields of one
//! record arrive in no fixed order; a change of session key finishes the
//! record in progress.
use vstd::prelude::*;

use crate::snapshot::{SnapV, Snapshot};
use crate::strutil::{has_prefix, split_seq, split_str, str_eq, str_starts_with};

verus! {

/// A raw counter field's value: the kernel exposes either a string (the
/// dataset's name) or an unsigned counter.
pub enum RawValue {
    Str(String),
    U64(u64),
}

/// The mathematical value of a raw field value.
pub enum RawV {
    Str(Seq<char>),
    U64(u64),
}

impl View for RawValue {
    type V = RawV;

    open spec fn view(&self) -> RawV {
        match self {
            RawValue::Str(s) => RawV::Str(s@),
            RawValue::U64(x) => RawV::U64(*x),
        }
    }
}

impl RawValue {
    /// An exact copy.
    pub fn duplicate(&self) -> (r: RawValue)
        ensures
            r@ == self@,
    {
        match self {
            RawValue::Str(s) => RawValue::Str(s.clone()),
            RawValue::U64(x) => RawValue::U64(*x),
        }
    }
}

/// Why a textual counter block could not be parsed.
#[derive(Clone, Copy, Debug, PartialEq, Eq)]
pub enum AssembleError {
    /// A row of the block does not hold a field name, a type and a value.
    MalformedRow,
    /// The block finished without all required counter fields.
    MalformedRecord,
}

/// The mathematical value of an accumulator in progress.
#[verifier::ext_equal]
pub struct BuilderV {
    pub dataset_name: Option<Seq<char>>,
    pub nunlinked: Option<u64>,
    pub nunlinks: Option<u64>,
    pub nread: Option<u64>,
    pub reads: Option<u64>,
    pub nwritten: Option<u64>,
    pub writes: Option<u64>,
}

/// One snapshot record in progress: each counter field observed so far.
pub struct Builder {
    pub dataset_name: Option<String>,
    pub nunlinked: Option<u64>,
    pub nunlinks: Option<u64>,
    pub nread: Option<u64>,
    pub reads: Option<u64>,
    pub nwritten: Option<u64>,
    pub writes: Option<u64>,
}

impl View for Builder {
    type V = BuilderV;

    open spec fn view(&self) -> BuilderV {
        BuilderV {
            dataset_name: match self.dataset_name {
                Some(ref s) => Some(s@),
                None => None,
            },
            nunlinked: self.nunlinked,
            nunlinks: self.nunlinks,
            nread: self.nread,
            reads: self.reads,
            nwritten: self.nwritten,
            writes: self.writes,
        }
    }
}

/// An accumulator with no field observed yet.
pub open spec fn empty_builder() -> BuilderV {
    BuilderV {
        dataset_name: None,
        nunlinked: None,
        nunlinks: None,
        nread: None,
        reads: None,
        nwritten: None,
        writes: None,
    }
}

/// The counter's own name within a qualified field name: its sixth
/// dot-separated component.  A shorter name carries no recognizable field.
pub open spec fn field_of(name: Seq<char>) -> Option<Seq<char>> {
    let c = split_seq(name, '.');
    if c.len() >= 6 {
        Some(c[5])
    } else {
        None
    }
}

/// The session key within a qualified field name: the counter group (its
/// fifth component) together with the pool (its third).  Fields of one
/// dataset instance share this key; a change of key ends the record.
pub open spec fn key_of(name: Seq<char>) -> Option<(Seq<char>, Seq<char>)> {
    let c = split_seq(name, '.');
    if c.len() >= 6 {
        Some((c[4], c[2]))
    } else {
        None
    }
}

/// One recognized field merged into the accumulator: a string value fills
/// the dataset's name, an unsigned value fills the counter it names, and an
/// unrecognized field changes nothing.
pub open spec fn builder_step(b: BuilderV, field: Seq<char>, v: RawV) -> BuilderV {
    match v {
        RawV::Str(s) => if field == "dataset_name"@ {
            BuilderV { dataset_name: Some(s), ..b }
        } else {
            b
        },
        RawV::U64(x) => if field == "nunlinked"@ {
            BuilderV { nunlinked: Some(x), ..b }
        } else if field == "nunlinks"@ {
            BuilderV { nunlinks: Some(x), ..b }
        } else if field == "nread"@ {
            BuilderV { nread: Some(x), ..b }
        } else if field == "reads"@ {
            BuilderV { reads: Some(x), ..b }
        } else if field == "nwritten"@ {
            BuilderV { nwritten: Some(x), ..b }
        } else if field == "writes"@ {
            BuilderV { writes: Some(x), ..b }
        } else {
            b
        },
    }
}

/// One qualified field merged into the accumulator.
pub open spec fn builder_apply(b: BuilderV, name: Seq<char>, v: RawV) -> BuilderV {
    match field_of(name) {
        Some(f) => builder_step(b, f, v),
        None => b,
    }
}

/// The finished record, if the accumulator is eligible: the name and the
/// four read/write counters are required, while the two unlink counters
/// default to zero where the kernel never exposed them.
pub open spec fn builder_finish(b: BuilderV) -> Option<SnapV> {
    if b.dataset_name is Some && b.nread is Some && b.reads is Some && b.nwritten is Some
        && b.writes is Some {
        Some(
            SnapV {
                name: b.dataset_name->0,
                nunlinked: (match b.nunlinked {
                    Some(x) => x as int,
                    None => 0,
                }),
                nunlinks: (match b.nunlinks {
                    Some(x) => x as int,
                    None => 0,
                }),
                nread: b.nread->0 as int,
                reads: b.reads->0 as int,
                nwritten: b.nwritten->0 as int,
                writes: b.writes->0 as int,
            },
        )
    } else {
        None
    }
}

impl Builder {
    /// An accumulator with no field observed yet.
    pub fn new() -> (r: Self)
        ensures
            r@ == empty_builder(),
    {
        Builder {
            dataset_name: None,
            nunlinked: None,
            nunlinks: None,
            nread: None,
            reads: None,
            nwritten: None,
            writes: None,
        }
    }

    /// Merges one qualified field into the accumulator.  A later value for
    /// a field already seen replaces the earlier one; an unrecognized field
    /// is ignored.
    pub fn build(&mut self, name: &str, value: RawValue)
        ensures
            final(self)@ == builder_apply(old(self)@, name@, value@),
    {
        let comps = split_str(name, '.');
        if comps.len() < 6 {
            return ;
        }
        assert(comps@.map_values(|x: String| x@)[5] == split_seq(name@, '.')[5]);
        self.merge_field(comps[5].as_str(), value);
    }

    /// Merges one field, already stripped to its own name, into the
    /// accumulator.
    pub fn merge_field(&mut self, field: &str, value: RawValue)
        ensures
            final(self)@ == builder_step(old(self)@, field@, value@),
    {
        match value {
            RawValue::Str(s) => {
                if str_eq(field, "dataset_name") {
                    self.dataset_name = Some(s);
                }
            }
            RawValue::U64(x) => {
                if str_eq(field, "nunlinked") {
                    self.nunlinked = Some(x);
                } else if str_eq(field, "nunlinks") {
                    self.nunlinks = Some(x);
                } else if str_eq(field, "nread") {
                    self.nread = Some(x);
                } else if str_eq(field, "reads") {
                    self.reads = Some(x);
                } else if str_eq(field, "nwritten") {
                    self.nwritten = Some(x);
                } else if str_eq(field, "writes") {
                    self.writes = Some(x);
                }
            }
        }
    }

    /// Finishes the record tolerantly: an accumulator missing a required
    /// field yields nothing, and the two unlink counters default to zero.
    pub fn finish(self) -> (r: Option<Snapshot>)
        ensures
            r is Some <==> builder_finish(self@) is Some,
            r is Some ==> r->0@ == builder_finish(self@)->0,
    {
        match self.finish_strict() {
            Ok(ss) => Some(ss),
            Err(_) => None,
        }
    }

    /// Finishes the record strictly: an accumulator missing a required
    /// field is a malformed record, never silently fabricated.
    pub fn finish_strict(self) -> (r: Result<Snapshot, AssembleError>)
        ensures
            r is Ok <==> builder_finish(self@) is Some,
            r is Ok ==> r->Ok_0@ == builder_finish(self@)->0,
            r is Err ==> r->Err_0 == AssembleError::MalformedRecord,
    {
        let name = match self.dataset_name {
            Some(n) => n,
            None => {
                return Err(AssembleError::MalformedRecord);
            }
        };
        let nunlinked = match self.nunlinked {
            Some(x) => x,
            None => 0,
        };
        let nunlinks = match self.nunlinks {
            Some(x) => x,
            None => 0,
        };
        let nread = match self.nread {
            Some(x) => x,
            None => {
                return Err(AssembleError::MalformedRecord);
            }
        };
        let reads = match self.reads {
            Some(x) => x,
            None => {
                return Err(AssembleError::MalformedRecord);
            }
        };
        let nwritten = match self.nwritten {
            Some(x) => x,
            None => {
                return Err(AssembleError::MalformedRecord);
            }
        };
        let writes = match self.writes {
            Some(x) => x,
            None => {
                return Err(AssembleError::MalformedRecord);
            }
        };
        Ok(Snapshot { name, nunlinked, nunlinks, nread, reads, nwritten, writes })
    }
}

} // verus!
// ---------------------------------------------------------------------------
// The session state machine over a whole field stream
// ---------------------------------------------------------------------------
verus! {

/// The assembler's running state: the accumulator, and the session key of
/// the record in progress.
#[verifier::ext_equal]
pub struct StateV {
    pub builder: BuilderV,
    pub last: Option<(Seq<char>, Seq<char>)>,
}

/// The state with nothing in progress.
pub open spec fn initial_state() -> StateV {
    StateV { builder: empty_builder(), last: None }
}

/// One field fed to the assembler: a field of the session in progress is
/// merged; a field of another session finishes the record in progress -
/// emitting it if it is eligible - and begins a new one; a field with no
/// recognizable session key changes nothing.
pub open spec fn feed_step(st: StateV, name: Seq<char>, v: RawV) -> (StateV, Option<SnapV>) {
    match key_of(name) {
        None => (st, None),
        Some(k) => match st.last {
            None => (StateV { builder: builder_apply(st.builder, name, v), last: Some(k) }, None),
            Some(k0) => if k0 == k {
                (StateV { builder: builder_apply(st.builder, name, v), last: Some(k) }, None)
            } else {
                (
                    StateV { builder: builder_apply(empty_builder(), name, v), last: Some(k) },
                    builder_finish(st.builder),
                )
            },
        },
    }
}

/// Every snapshot the assembler emits from state `st` on the remaining
/// fields, the final record flushed at stream end.
pub open spec fn assemble_from(st: StateV, pairs: Seq<(Seq<char>, RawV)>) -> Seq<SnapV>
    decreases pairs.len(),
{
    if pairs.len() == 0 {
        match builder_finish(st.builder) {
            Some(s) => seq![s],
            None => Seq::empty(),
        }
    } else {
        let (st2, em) = feed_step(st, pairs[0].0, pairs[0].1);
        (match em {
            Some(s) => seq![s],
            None => Seq::<SnapV>::empty(),
        }) + assemble_from(st2, pairs.drop_first())
    }
}

/// Every snapshot assembled from a whole field stream, in emission order.
pub open spec fn assemble_seq(pairs: Seq<(Seq<char>, RawV)>) -> Seq<SnapV> {
    assemble_from(initial_state(), pairs)
}

/// The mathematical values of a sequence of raw fields.
pub open spec fn rawv(s: Seq<(String, RawValue)>) -> Seq<(Seq<char>, RawV)> {
    s.map_values(|p: (String, RawValue)| (p.0@, p.1@))
}

/// Assembles a whole stream of qualified counter fields into snapshots.
pub fn assemble(kv: &Vec<(String, RawValue)>) -> (r: Vec<Snapshot>)
    ensures
        r@.map_values(|s: Snapshot| s@) == assemble_seq(rawv(kv@)),
{
    let ghost pairs = rawv(kv@);
    let mut builder = Builder::new();
    let mut last: Option<(String, String)> = None;
    let mut out: Vec<Snapshot> = Vec::new();
    let mut i: usize = 0;
    proof {
        assert(pairs.skip(0) =~= pairs);
        assert(out@.map_values(|s: Snapshot| s@) =~= Seq::<SnapV>::empty());
    }
    while i < kv.len()
        invariant
            0 <= i <= kv@.len(),
            pairs == rawv(kv@),
            out@.map_values(|s: Snapshot| s@) + assemble_from(
                StateV {
                    builder: builder@,
                    last: (match last {
                        Some(ref k) => Some((k.0@, k.1@)),
                        None => None,
                    }),
                },
                pairs.skip(i as int),
            ) == assemble_seq(pairs),
        decreases kv@.len() - i,
    {
        let ghost st = StateV {
            builder: builder@,
            last: (match last {
                Some(ref k) => Some((k.0@, k.1@)),
                None => None,
            }),
        };
        let ghost rest = pairs.skip(i as int);
        proof {
            assert(rest[0] == pairs[i as int]);
            assert(rest.drop_first() =~= pairs.skip(i + 1));
        }
        let name = &kv[i].0;
        let value = &kv[i].1;
        assert((name@, value@) == pairs[i as int]);
        let comps = split_str(name.as_str(), '.');
        if comps.len() < 6 {
            proof {
                assert(key_of(name@) is None);
                assert(feed_step(st, name@, value@) == (st, Option::<SnapV>::None));
                assert(Seq::<SnapV>::empty() + assemble_from(st, pairs.skip(i + 1))
                    =~= assemble_from(st, pairs.skip(i + 1)));
            }
        } else {
            assert(comps@.map_values(|x: String| x@)[4] == split_seq(name@, '.')[4]);
            assert(comps@.map_values(|x: String| x@)[2] == split_seq(name@, '.')[2]);
            assert(key_of(name@) == Some((split_seq(name@, '.')[4], split_seq(name@, '.')[2])));
            let same = match last {
                Some(ref k) => str_eq(k.0.as_str(), comps[4].as_str()) && str_eq(
                    k.1.as_str(),
                    comps[2].as_str(),
                ),
                None => false,
            };
            if same {
                builder.build(name.as_str(), value.duplicate());
                proof {
                    assert(st.last == key_of(name@));
                    assert(feed_step(st, name@, value@) == (
                        StateV { builder: builder@, last: key_of(name@) },
                        Option::<SnapV>::None,
                    ));
                    assert(Seq::<SnapV>::empty() + assemble_from(
                        StateV { builder: builder@, last: key_of(name@) },
                        pairs.skip(i + 1),
                    ) =~= assemble_from(
                        StateV { builder: builder@, last: key_of(name@) },
                        pairs.skip(i + 1),
                    ));
                }
                last = Some((comps[4].clone(), comps[2].clone()));
                proof {
                    assert((match last {
                        Some(ref k) => Some((k.0@, k.1@)),
                        None => None,
                    }) == key_of(name@));
                }
            } else {
                match last {
                    None => {
                        builder.build(name.as_str(), value.duplicate());
                        last = Some((comps[4].clone(), comps[2].clone()));
                        proof {
                            assert(feed_step(st, name@, value@) == (
                                StateV { builder: builder@, last: key_of(name@) },
                                Option::<SnapV>::None,
                            ));
                            assert(Seq::<SnapV>::empty() + assemble_from(
                                StateV { builder: builder@, last: key_of(name@) },
                                pairs.skip(i + 1),
                            ) =~= assemble_from(
                                StateV { builder: builder@, last: key_of(name@) },
                                pairs.skip(i + 1),
                            ));
                        }
                    }
                    Some(_) => {
                        let ghost pre_out = out@.map_values(|s: Snapshot| s@);
                        let mut finished = Builder::new();
                        core::mem::swap(&mut finished, &mut builder);
                        builder.build(name.as_str(), value.duplicate());
                        last = Some((comps[4].clone(), comps[2].clone()));
                        let ghost em = builder_finish(finished@);
                        match finished.finish() {
                            Some(ss) => {
                                out.push(ss);
                                proof {
                                    assert(out@.map_values(|s: Snapshot| s@) =~= pre_out.push(
                                        em->0,
                                    ));
                                }
                            }
                            None => {}
                        }
                        proof {
                            assert(feed_step(st, name@, value@) == (
                                StateV { builder: builder@, last: key_of(name@) },
                                em,
                            ));
                            if em is Some {
                                assert(pre_out.push(em->0) + assemble_from(
                                    StateV { builder: builder@, last: key_of(name@) },
                                    pairs.skip(i + 1),
                                ) =~= pre_out + (seq![em->0] + assemble_from(
                                    StateV { builder: builder@, last: key_of(name@) },
                                    pairs.skip(i + 1),
                                )));
                            } else {
                                assert(Seq::<SnapV>::empty() + assemble_from(
                                    StateV { builder: builder@, last: key_of(name@) },
                                    pairs.skip(i + 1),
                                ) =~= assemble_from(
                                    StateV { builder: builder@, last: key_of(name@) },
                                    pairs.skip(i + 1),
                                ));
                            }
                        }
                    }
                }
            }
        }
        i = i + 1;
    }
    proof {
        assert(pairs.skip(kv@.len() as int) =~= Seq::<(Seq<char>, RawV)>::empty());
    }
    let ghost pre_out = out@.map_values(|s: Snapshot| s@);
    let ghost em = builder_finish(builder@);
    match builder.finish() {
        Some(ss) => {
            out.push(ss);
            proof {
                assert(out@.map_values(|s: Snapshot| s@) =~= pre_out.push(em->0));
                assert(pre_out.push(em->0) =~= pre_out + seq![em->0]);
            }
        }
        None => {
            proof {
                assert(pre_out + Seq::<SnapV>::empty() =~= pre_out);
            }
        }
    }
    out
}

/// Walks the snapshots assembled from one collected field stream, in
/// emission order.
pub struct SnapshotIter {
    pub snaps: Vec<Snapshot>,
    pub pos: usize,
}

impl SnapshotIter {
    /// Assembles the whole stream up front and walks the results.
    pub fn with_inner(kv: Vec<(String, RawValue)>) -> (r: Self)
        ensures
            r.snaps@.map_values(|s: Snapshot| s@) == assemble_seq(rawv(kv@)),
            r.pos == 0,
    {
        SnapshotIter { snaps: assemble(&kv), pos: 0 }
    }

    /// The next assembled snapshot, if one is left.
    pub fn next(&mut self) -> (r: Option<Snapshot>)
        ensures
            final(self).snaps == old(self).snaps,
            old(self).pos < old(self).snaps@.len() ==> {
                &&& r is Some
                &&& r->0@ == old(self).snaps@[old(self).pos as int]@
                &&& final(self).pos == old(self).pos + 1
            },
            old(self).pos >= old(self).snaps@.len() ==> r is None && final(self).pos == old(
                self,
            ).pos,
    {
        if self.pos < self.snaps.len() {
            let r = self.snaps[self.pos].duplicate();
            self.pos = self.pos + 1;
            Some(r)
        } else {
            None
        }
    }
}

} // verus!
// ---------------------------------------------------------------------------
// Order independence of one record's assembly
// ---------------------------------------------------------------------------
verus! {

/// The accumulator after a whole sequence of qualified fields of one
/// session, in order.
pub open spec fn builder_fold(b: BuilderV, pairs: Seq<(Seq<char>, RawV)>) -> BuilderV
    decreases pairs.len(),
{
    if pairs.len() == 0 {
        b
    } else {
        builder_fold(builder_apply(b, pairs[0].0, pairs[0].1), pairs.drop_first())
    }
}

/// Which accumulator slot a qualified field writes, if any: the name slot,
/// or one of the six counters.
pub open spec fn slot_of(name: Seq<char>, v: RawV) -> Option<int> {
    match field_of(name) {
        Some(f) => match v {
            RawV::Str(_) => if f == "dataset_name"@ {
                Some(0int)
            } else {
                None
            },
            RawV::U64(_) => if f == "nunlinked"@ {
                Some(1int)
            } else if f == "nunlinks"@ {
                Some(2int)
            } else if f == "nread"@ {
                Some(3int)
            } else if f == "reads"@ {
                Some(4int)
            } else if f == "nwritten"@ {
                Some(5int)
            } else if f == "writes"@ {
                Some(6int)
            } else {
                None
            },
        },
        None => None,
    }
}

/// What an accumulator slot holds.
pub open spec fn builder_get(b: BuilderV, k: int) -> Option<RawV> {
    if k == 0 {
        match b.dataset_name {
            Some(s) => Some(RawV::Str(s)),
            None => None,
        }
    } else if k == 1 {
        match b.nunlinked {
            Some(x) => Some(RawV::U64(x)),
            None => None,
        }
    } else if k == 2 {
        match b.nunlinks {
            Some(x) => Some(RawV::U64(x)),
            None => None,
        }
    } else if k == 3 {
        match b.nread {
            Some(x) => Some(RawV::U64(x)),
            None => None,
        }
    } else if k == 4 {
        match b.reads {
            Some(x) => Some(RawV::U64(x)),
            None => None,
        }
    } else if k == 5 {
        match b.nwritten {
            Some(x) => Some(RawV::U64(x)),
            None => None,
        }
    } else if k == 6 {
        match b.writes {
            Some(x) => Some(RawV::U64(x)),
            None => None,
        }
    } else {
        None
    }
}

/// One field writes exactly its slot and leaves every other slot alone.
proof fn lemma_apply_get(b: BuilderV, name: Seq<char>, v: RawV, k: int)
    ensures
        builder_get(builder_apply(b, name, v), k) == (if slot_of(name, v) == Some(k) {
            Some(v)
        } else {
            builder_get(b, k)
        }),
{
}

/// Slots no field of the stream writes keep their value through the fold.
proof fn lemma_fold_get_unwritten(b: BuilderV, pairs: Seq<(Seq<char>, RawV)>, k: int)
    requires
        forall|i: int|
            0 <= i < pairs.len() ==> slot_of((#[trigger] pairs[i]).0, pairs[i].1) != Some(k),
    ensures
        builder_get(builder_fold(b, pairs), k) == builder_get(b, k),
    decreases pairs.len(),
{
    if pairs.len() > 0 {
        lemma_apply_get(b, pairs[0].0, pairs[0].1, k);
        assert(forall|i: int|
            0 <= i < pairs.drop_first().len() ==> (#[trigger] pairs.drop_first()[i]) == pairs[i
                + 1]);
        lemma_fold_get_unwritten(builder_apply(b, pairs[0].0, pairs[0].1), pairs.drop_first(), k);
    }
}

/// A slot written by exactly one field of the stream ends up holding that
/// field's value, wherever in the stream the field stands.
proof fn lemma_fold_get_written(b: BuilderV, pairs: Seq<(Seq<char>, RawV)>, k: int, w: int)
    requires
        0 <= w < pairs.len(),
        slot_of(pairs[w].0, pairs[w].1) == Some(k),
        forall|i: int|
            0 <= i < pairs.len() && i != w ==> slot_of((#[trigger] pairs[i]).0, pairs[i].1)
                != Some(k),
    ensures
        builder_get(builder_fold(b, pairs), k) == Some(pairs[w].1),
    decreases pairs.len(),
{
    let b2 = builder_apply(b, pairs[0].0, pairs[0].1);
    let rest = pairs.drop_first();
    assert(forall|i: int| 0 <= i < rest.len() ==> (#[trigger] rest[i]) == pairs[i + 1]);
    if w == 0 {
        lemma_apply_get(b, pairs[0].0, pairs[0].1, k);
        lemma_fold_get_unwritten(b2, rest, k);
    } else {
        lemma_fold_get_written(b2, rest, k, w - 1);
    }
}

/// Two accumulators with equal slots are equal.
proof fn lemma_builder_eq_from_slots(b1: BuilderV, b2: BuilderV)
    requires
        forall|k: int| 0 <= k <= 6 ==> builder_get(b1, k) == builder_get(b2, k),
    ensures
        b1 == b2,
{
    assert(builder_get(b1, 0) == builder_get(b2, 0));
    assert(builder_get(b1, 1) == builder_get(b2, 1));
    assert(builder_get(b1, 2) == builder_get(b2, 2));
    assert(builder_get(b1, 3) == builder_get(b2, 3));
    assert(builder_get(b1, 4) == builder_get(b2, 4));
    assert(builder_get(b1, 5) == builder_get(b2, 5));
    assert(builder_get(b1, 6) == builder_get(b2, 6));
    assert(b1 =~= b2);
}

/// No two fields of the stream write the same accumulator slot.
pub open spec fn distinct_fields(pairs: Seq<(Seq<char>, RawV)>) -> bool {
    forall|i: int, j: int|
        0 <= i < j < pairs.len() ==> !((#[trigger] slot_of(pairs[i].0, pairs[i].1)) is Some
            && slot_of(pairs[i].0, pairs[i].1) == #[trigger] slot_of(pairs[j].0, pairs[j].1))
}

/// The assembly-order law: feeding one record's fields in any order yields
/// the same accumulator, and so the same finished snapshot, as long as no
/// field occurs twice.
pub proof fn lemma_assembly_order_independent(
    p1: Seq<(Seq<char>, RawV)>,
    p2: Seq<(Seq<char>, RawV)>,
)
    requires
        p1.to_multiset() == p2.to_multiset(),
        distinct_fields(p1),
        distinct_fields(p2),
    ensures
        builder_fold(empty_builder(), p1) == builder_fold(empty_builder(), p2),
        builder_finish(builder_fold(empty_builder(), p1)) == builder_finish(
            builder_fold(empty_builder(), p2),
        ),
{
    p1.to_multiset_ensures();
    p2.to_multiset_ensures();
    let b1 = builder_fold(empty_builder(), p1);
    let b2 = builder_fold(empty_builder(), p2);
    assert forall|k: int| 0 <= k <= 6 implies builder_get(b1, k) == builder_get(b2, k) by {
        if exists|i: int| 0 <= i < p1.len() && slot_of((#[trigger] p1[i]).0, p1[i].1) == Some(k) {
            let w1 = choose|i: int|
                0 <= i < p1.len() && slot_of((#[trigger] p1[i]).0, p1[i].1) == Some(k);
            let x = p1[w1];
            assert(p1.contains(x));
            assert(p1.to_multiset().count(x) > 0);
            assert(p2.to_multiset().count(x) > 0);
            assert(p2.contains(x));
            let w2 = choose|i: int| 0 <= i < p2.len() && p2[i] == x;
            assert forall|i: int|
                0 <= i < p1.len() && i != w1 implies slot_of((#[trigger] p1[i]).0, p1[i].1)
                != Some(k) by {
                if slot_of(p1[i].0, p1[i].1) == Some(k) {
                    if i < w1 {
                        assert(!(slot_of(p1[i].0, p1[i].1) is Some && slot_of(p1[i].0, p1[i].1)
                            == slot_of(p1[w1].0, p1[w1].1)));
                    } else {
                        assert(!(slot_of(p1[w1].0, p1[w1].1) is Some && slot_of(
                            p1[w1].0,
                            p1[w1].1,
                        ) == slot_of(p1[i].0, p1[i].1)));
                    }
                }
            }
            assert forall|i: int|
                0 <= i < p2.len() && i != w2 implies slot_of((#[trigger] p2[i]).0, p2[i].1)
                != Some(k) by {
                if slot_of(p2[i].0, p2[i].1) == Some(k) {
                    if i < w2 {
                        assert(!(slot_of(p2[i].0, p2[i].1) is Some && slot_of(p2[i].0, p2[i].1)
                            == slot_of(p2[w2].0, p2[w2].1)));
                    } else {
                        assert(!(slot_of(p2[w2].0, p2[w2].1) is Some && slot_of(
                            p2[w2].0,
                            p2[w2].1,
                        ) == slot_of(p2[i].0, p2[i].1)));
                    }
                }
            }
            lemma_fold_get_written(empty_builder(), p1, k, w1);
            lemma_fold_get_written(empty_builder(), p2, k, w2);
        } else {
            assert forall|i: int|
                0 <= i < p2.len() implies slot_of((#[trigger] p2[i]).0, p2[i].1) != Some(k) by {
                if slot_of(p2[i].0, p2[i].1) == Some(k) {
                    let x = p2[i];
                    assert(p2.contains(x));
                    assert(p1.to_multiset().count(x) > 0);
                    assert(p1.contains(x));
                    let m = choose|m: int| 0 <= m < p1.len() && p1[m] == x;
                    assert(slot_of(p1[m].0, p1[m].1) == Some(k));
                }
            }
            assert(forall|i: int|
                0 <= i < p1.len() ==> slot_of((#[trigger] p1[i]).0, p1[i].1) != Some(k));
            lemma_fold_get_unwritten(empty_builder(), p1, k);
            lemma_fold_get_unwritten(empty_builder(), p2, k);
        }
    }
    lemma_builder_eq_from_slots(b1, b2);
}

} // verus!
// ---------------------------------------------------------------------------
// The empty stream
// ---------------------------------------------------------------------------
verus! {

/// An empty raw-field stream assembles into no snapshots at all, rather
/// than an error or a spurious record.
pub proof fn lemma_assemble_empty(pairs: Seq<(Seq<char>, RawV)>)
    requires
        pairs.len() == 0,
    ensures
        assemble_seq(pairs) == Seq::<SnapV>::empty(),
{
    assert(builder_finish(empty_builder()) is None);
}

} // verus!
// ---------------------------------------------------------------------------
// Selecting dataset entries of the counter tree
// ---------------------------------------------------------------------------
verus! {

/// Whether a counter-tree entry belongs to a dataset group: what follows
/// the entry's third dot-separated component begins with "dataset".
pub open spec fn is_dataset_entry(name: Seq<char>) -> bool {
    let c = split_seq(name, '.');
    if c.len() >= 4 {
        has_prefix(c[3], "dataset"@)
    } else {
        has_prefix(c[c.len() - 1], "dataset"@)
    }
}

/// Tests whether a counter-tree entry carries dataset statistics, so a
/// collector can pass the whole tree through and keep only those.
pub fn is_dataset_ctl_name(name: &str) -> (r: bool)
    ensures
        r == is_dataset_entry(name@),
{
    let comps = split_str(name, '.');
    let n = comps.len();
    if n >= 4 {
        assert(comps@.map_values(|x: String| x@)[3] == split_seq(name@, '.')[3]);
        str_starts_with(comps[3].as_str(), "dataset")
    } else {
        assert(comps@.map_values(|x: String| x@)[n - 1] == split_seq(name@, '.')[n - 1]);
        str_starts_with(comps[n - 1].as_str(), "dataset")
    }
}

} // verus!
// ---------------------------------------------------------------------------
// Defaulting of the optional counters
// ---------------------------------------------------------------------------
verus! {

/// Older kernels expose no unlink counters: an accumulator that saw every
/// required field still finishes, with both unlink counters zero.
pub proof fn lemma_optional_fields_default(b: BuilderV)
    requires
        b.dataset_name is Some,
        b.nread is Some,
        b.reads is Some,
        b.nwritten is Some,
        b.writes is Some,
        b.nunlinked is None,
        b.nunlinks is None,
    ensures
        builder_finish(b) is Some,
        builder_finish(b)->0.nunlinked == 0,
        builder_finish(b)->0.nunlinks == 0,
{
}

} // verus!
