//! String utilities shared by the assembler, the data source and the view
//! state: lexicographic ordering of names, path depth, prefix tests and
//! splitting on separator characters.
use vstd::prelude::*;

verus! {

/// Lexicographic "strictly less than" over character sequences, compared from
/// position `i` on.  Characters are ordered by their scalar values, which for
/// UTF-8 encoded strings agrees with the byte order `str` uses.
pub open spec fn lex_lt_from(a: Seq<char>, b: Seq<char>, i: int) -> bool
    decreases a.len() - i,
{
    if i >= b.len() {
        false
    } else if i >= a.len() {
        true
    } else if a[i] < b[i] {
        true
    } else if a[i] == b[i] {
        lex_lt_from(a, b, i + 1)
    } else {
        false
    }
}

/// Lexicographic "strictly less than" over whole character sequences.
pub open spec fn lex_lt(a: Seq<char>, b: Seq<char>) -> bool {
    lex_lt_from(a, b, 0)
}

pub proof fn lemma_lex_lt_from_irrefl(a: Seq<char>, i: int)
    ensures
        !lex_lt_from(a, a, i),
    decreases a.len() - i,
{
    if i < a.len() {
        lemma_lex_lt_from_irrefl(a, i + 1);
    }
}

pub proof fn lemma_lex_lt_from_trans(a: Seq<char>, b: Seq<char>, c: Seq<char>, i: int)
    requires
        lex_lt_from(a, b, i),
        lex_lt_from(b, c, i),
    ensures
        lex_lt_from(a, c, i),
    decreases a.len() - i,
{
    if i < a.len() && i < b.len() && i < c.len() && a[i] == b[i] && b[i] == c[i] {
        lemma_lex_lt_from_trans(a, b, c, i + 1);
    }
}

pub proof fn lemma_lex_lt_from_connex(a: Seq<char>, b: Seq<char>, i: int)
    requires
        0 <= i <= a.len(),
        i <= b.len(),
        !lex_lt_from(a, b, i),
        !lex_lt_from(b, a, i),
    ensures
        a.len() == b.len(),
        forall|j: int| i <= j < a.len() ==> a[j] == b[j],
    decreases a.len() - i,
{
    if i < a.len() && i < b.len() {
        lemma_lex_lt_from_connex(a, b, i + 1);
    }
}

/// Two sequences that neither order strictly below the other are equal.
pub proof fn lemma_lex_lt_total(a: Seq<char>, b: Seq<char>)
    requires
        !lex_lt(a, b),
        !lex_lt(b, a),
    ensures
        a == b,
{
    lemma_lex_lt_from_connex(a, b, 0);
    assert(a =~= b);
}

pub proof fn lemma_lex_lt_trans(a: Seq<char>, b: Seq<char>, c: Seq<char>)
    requires
        lex_lt(a, b),
        lex_lt(b, c),
    ensures
        lex_lt(a, c),
{
    lemma_lex_lt_from_trans(a, b, c, 0);
}

pub proof fn lemma_lex_lt_irrefl(a: Seq<char>)
    ensures
        !lex_lt(a, a),
{
    lemma_lex_lt_from_irrefl(a, 0);
}

/// Compares two names lexicographically by character scalar value.
pub fn str_lt(a: &str, b: &str) -> (r: bool)
    ensures
        r == lex_lt(a@, b@),
{
    let alen: usize = a.unicode_len();
    let blen: usize = b.unicode_len();
    let mut i: usize = 0;
    loop
        invariant
            0 <= i <= alen,
            i <= blen,
            alen == a@.len(),
            blen == b@.len(),
            lex_lt(a@, b@) == lex_lt_from(a@, b@, i as int),
            lex_lt(b@, a@) == lex_lt_from(b@, a@, i as int),
        decreases alen - i,
    {
        if i >= blen {
            return false;
        }
        if i >= alen {
            return true;
        }
        let ca = a.get_char(i);
        let cb = b.get_char(i);
        if ca < cb {
            return true;
        }
        if cb < ca {
            return false;
        }
        i = i + 1;
    }
}

/// How many times `c` occurs in `s` at or after position `i`.
pub open spec fn count_char_from(s: Seq<char>, c: char, i: int) -> int
    decreases s.len() - i,
{
    if i < 0 || i >= s.len() {
        0
    } else {
        (if s[i] == c {
            1int
        } else {
            0int
        }) + count_char_from(s, c, i + 1)
    }
}

pub proof fn lemma_count_char_from_bounds(s: Seq<char>, c: char, i: int)
    requires
        0 <= i <= s.len(),
    ensures
        0 <= count_char_from(s, c, i) <= s.len() - i,
    decreases s.len() - i,
{
    if i < s.len() {
        lemma_count_char_from_bounds(s, c, i + 1);
    }
}

/// The number of '/'-separated path components of a name: one more than the
/// number of '/' characters, also for the empty name, as `split` counts.
pub open spec fn depth_of(s: Seq<char>) -> int {
    1 + count_char_from(s, '/', 0)
}

/// Whether a dataset name has at most `d` '/'-separated components.
pub fn depth_at_most(s: &str, d: usize) -> (r: bool)
    requires
        d >= 1,
    ensures
        r == (depth_of(s@) <= d),
{
    let len: usize = s.unicode_len();
    let mut count: usize = 0;
    let mut i: usize = 0;
    proof {
        lemma_count_char_from_bounds(s@, '/', 0);
    }
    while i < len
        invariant
            0 <= i <= len,
            len == s@.len(),
            count <= i,
            count + count_char_from(s@, '/', i as int) == count_char_from(s@, '/', 0),
        decreases len - i,
    {
        proof {
            lemma_count_char_from_bounds(s@, '/', i + 1);
        }
        if s.get_char(i) == '/' {
            count = count + 1;
        }
        i = i + 1;
    }
    count <= d - 1
}

/// `p` names a strict ancestor of `n`: it is a proper prefix of `n` that ends
/// exactly at a '/' boundary.
pub open spec fn is_boundary_prefix(p: Seq<char>, n: Seq<char>) -> bool {
    &&& p.len() < n.len()
    &&& n.take(p.len() as int) == p
    &&& n[p.len() as int] == '/'
}

} // verus!
// ---------------------------------------------------------------------------
// Ancestor prefixes of a hierarchical name
// ---------------------------------------------------------------------------
verus! {

/// The names that a dataset's counters are folded into when aggregation is
/// on, scanning `s` from position `i`: every prefix that ends just before a
/// '/', and the whole name.
pub open spec fn parents_from(s: Seq<char>, i: int) -> Seq<Seq<char>>
    decreases s.len() - i,
{
    if i < 0 || i >= s.len() {
        Seq::empty()
    } else if s[i] == '/' {
        seq![s.take(i)] + parents_from(s, i + 1)
    } else if i == s.len() - 1 {
        seq![s]
    } else {
        parents_from(s, i + 1)
    }
}

/// Every strict-ancestor prefix of `s`, shortest first, then `s` itself.
pub open spec fn parents_of(s: Seq<char>) -> Seq<Seq<char>> {
    parents_from(s, 0)
}

/// Each entry of `parents_from(s, i)` is a prefix of `s` no shorter than `i`,
/// and entry lengths grow strictly, so no name occurs twice.
pub proof fn lemma_parents_from_lens(s: Seq<char>, i: int)
    requires
        0 <= i <= s.len(),
    ensures
        forall|k: int|
            0 <= k < parents_from(s, i).len() ==> i <= #[trigger] parents_from(s, i)[k].len()
                <= s.len(),
        forall|k1: int, k2: int|
            0 <= k1 < k2 < parents_from(s, i).len() ==> #[trigger] parents_from(s, i)[k1].len()
                < #[trigger] parents_from(s, i)[k2].len(),
    decreases s.len() - i,
{
    if i < s.len() {
        lemma_parents_from_lens(s, i + 1);
        if s[i] == '/' {
            assert(parents_from(s, i) == seq![s.take(i)] + parents_from(s, i + 1));
            assert(parents_from(s, i)[0].len() == i);
            assert(forall|k: int|
                1 <= k < parents_from(s, i).len() ==> parents_from(s, i)[k] == #[trigger] parents_from(
                    s,
                    i + 1,
                )[k - 1]);
        }
    }
}

/// Which names stand in `parents_from(s, i)`: the prefixes cut at a '/' at or
/// after `i`, and - when the name does not end in '/' - the name itself.
pub proof fn lemma_parents_from_membership(s: Seq<char>, i: int, p: Seq<char>)
    requires
        0 <= i < s.len(),
        s[s.len() - 1] != '/',
    ensures
        parents_from(s, i).contains(p) <==> ((exists|j: int|
            i <= j < s.len() && s[j] == '/' && p == s.take(j)) || p == s),
    decreases s.len() - i,
{
    if i == s.len() - 1 {
        if s[i] == '/' {
        } else {
            assert(parents_from(s, i) == seq![s]);
            if p == s {
                assert(parents_from(s, i)[0] == p);
                assert(parents_from(s, i).contains(p));
            }
        }
    } else {
        lemma_parents_from_membership(s, i + 1, p);
        if s[i] == '/' {
            let rest = parents_from(s, i + 1);
            assert(parents_from(s, i) == seq![s.take(i)] + rest);
            if parents_from(s, i).contains(p) {
                let k = choose|k: int| 0 <= k < parents_from(s, i).len() && parents_from(s, i)[k] == p;
                if k == 0 {
                    assert(p == s.take(i) && s[i] == '/');
                } else {
                    assert(rest[k - 1] == p);
                    assert(rest.contains(p));
                }
            }
            if p == s.take(i) {
                assert(parents_from(s, i)[0] == p);
                assert(parents_from(s, i).contains(p));
            }
            if (exists|j: int| i + 1 <= j < s.len() && s[j] == '/' && p == s.take(j)) || p == s {
                assert(rest.contains(p));
                let k = choose|k: int| 0 <= k < rest.len() && rest[k] == p;
                assert(parents_from(s, i)[k + 1] == p);
                assert(parents_from(s, i).contains(p));
            }
        }
    }
}

/// The membership characterization at the top of the scan: a name is folded
/// into `p` exactly when `p` is the name itself or a strict ancestor of it.
pub proof fn lemma_parents_membership(s: Seq<char>, p: Seq<char>)
    requires
        s.len() > 0,
        s[s.len() - 1] != '/',
    ensures
        parents_of(s).contains(p) <==> (p == s || is_boundary_prefix(p, s)),
{
    lemma_parents_from_membership(s, 0, p);
    if exists|j: int| 0 <= j < s.len() && s[j] == '/' && p == s.take(j) {
        let j = choose|j: int| 0 <= j < s.len() && s[j] == '/' && p == s.take(j);
        assert(p.len() == j);
        assert(is_boundary_prefix(p, s));
    }
    if is_boundary_prefix(p, s) {
        let j = p.len() as int;
        assert(s[j] == '/' && p == s.take(j));
    }
}

} // verus!
// ---------------------------------------------------------------------------
// Splitting, tokens, decimal numbers
// ---------------------------------------------------------------------------
verus! {

/// The pieces of `s` cut at every occurrence of `sep`, scanning from `i` with
/// the current piece having begun at `start`.  Like `str::split`, the result
/// always holds one piece more than there are separators.
pub open spec fn split_from(s: Seq<char>, sep: char, start: int, i: int) -> Seq<Seq<char>>
    decreases s.len() - i,
{
    if i < 0 || i >= s.len() || start < 0 || start > i {
        seq![s.subrange(start, s.len() as int)]
    } else if s[i] == sep {
        seq![s.subrange(start, i)] + split_from(s, sep, i + 1, i + 1)
    } else {
        split_from(s, sep, start, i + 1)
    }
}

/// All pieces of `s` cut at `sep`.
pub open spec fn split_seq(s: Seq<char>, sep: char) -> Seq<Seq<char>> {
    split_from(s, sep, 0, 0)
}

/// Cuts `s` at every occurrence of `sep`, as `str::split` does.
pub fn split_str(s: &str, sep: char) -> (r: Vec<String>)
    ensures
        r@.map_values(|x: String| x@) == split_seq(s@, sep),
        r@.len() >= 1,
{
    let len: usize = s.unicode_len();
    let mut r: Vec<String> = Vec::new();
    let mut start: usize = 0;
    let mut i: usize = 0;
    while i < len
        invariant
            0 <= start <= i <= len,
            len == s@.len(),
            r@.map_values(|x: String| x@) + split_from(s@, sep, start as int, i as int) == split_seq(
                s@,
                sep,
            ),
        decreases len - i,
    {
        if s.get_char(i) == sep {
            let ghost pre = r@.map_values(|x: String| x@);
            let piece = s.substring_char(start, i).to_owned();
            r.push(piece);
            proof {
                assert(r@.map_values(|x: String| x@) =~= pre.push(s@.subrange(
                    start as int,
                    i as int,
                )));
                assert(pre.push(s@.subrange(start as int, i as int)) + split_from(
                    s@,
                    sep,
                    i + 1,
                    i + 1,
                ) =~= pre + (seq![s@.subrange(start as int, i as int)] + split_from(
                    s@,
                    sep,
                    i + 1,
                    i + 1,
                )));
            }
            start = i + 1;
        }
        i = i + 1;
    }
    let ghost pre = r@.map_values(|x: String| x@);
    let piece = s.substring_char(start, len).to_owned();
    r.push(piece);
    proof {
        assert(split_from(s@, sep, start as int, len as int) == seq![
            s@.subrange(start as int, s@.len() as int),
        ]);
        assert(r@.map_values(|x: String| x@) =~= pre + seq![
            s@.subrange(start as int, s@.len() as int),
        ]);
    }
    r
}

/// ASCII whitespace, as `char::is_ascii_whitespace` defines it.
pub open spec fn is_ws(c: char) -> bool {
    c == ' ' || c == '\t' || c == '\n' || c == '\r' || c == '\u{0c}'
}

/// Whether `c` is ASCII whitespace.
pub fn char_is_ws(c: char) -> (r: bool)
    ensures
        r == is_ws(c),
{
    c == ' ' || c == '\t' || c == '\n' || c == '\r' || c == '\u{0c}'
}

/// The whitespace-separated tokens of `s` from position `i` on, with `cur`
/// the token gathered so far.
pub open spec fn toks_acc(s: Seq<char>, i: int, cur: Seq<char>) -> Seq<Seq<char>>
    decreases s.len() - i,
{
    if i < 0 || i >= s.len() {
        if cur.len() > 0 {
            seq![cur]
        } else {
            Seq::empty()
        }
    } else if is_ws(s[i]) {
        (if cur.len() > 0 {
            seq![cur]
        } else {
            Seq::empty()
        }) + toks_acc(s, i + 1, Seq::empty())
    } else {
        toks_acc(s, i + 1, cur.push(s[i]))
    }
}

/// The whitespace-separated tokens of `s`, in order, each nonempty.
pub open spec fn tokens_of(s: Seq<char>) -> Seq<Seq<char>> {
    toks_acc(s, 0, Seq::empty())
}

/// Cuts `s` into its whitespace-separated tokens, as
/// `str::split_ascii_whitespace` does.
pub fn tokens(s: &str) -> (r: Vec<String>)
    ensures
        r@.map_values(|x: String| x@) == tokens_of(s@),
{
    let len: usize = s.unicode_len();
    let mut r: Vec<String> = Vec::new();
    let mut start: usize = 0;
    let mut i: usize = 0;
    proof {
        assert(s@.subrange(0, 0) =~= Seq::<char>::empty());
        assert(r@.map_values(|x: String| x@) + tokens_of(s@) =~= tokens_of(s@));
    }
    while i < len
        invariant
            0 <= start <= i <= len,
            len == s@.len(),
            r@.map_values(|x: String| x@) + toks_acc(s@, i as int, s@.subrange(start as int, i as int))
                == tokens_of(s@),
        decreases len - i,
    {
        if char_is_ws(s.get_char(i)) {
            proof {
                assert(s@.subrange(i + 1, i + 1) =~= Seq::<char>::empty());
            }
            if i > start {
                let ghost pre = r@.map_values(|x: String| x@);
                let piece = s.substring_char(start, i).to_owned();
                r.push(piece);
                proof {
                    assert(r@.map_values(|x: String| x@) =~= pre.push(s@.subrange(
                        start as int,
                        i as int,
                    )));
                    assert(pre.push(s@.subrange(start as int, i as int)) + toks_acc(
                        s@,
                        i + 1,
                        Seq::empty(),
                    ) =~= pre + (seq![s@.subrange(start as int, i as int)] + toks_acc(
                        s@,
                        i + 1,
                        Seq::empty(),
                    )));
                }
            } else {
                proof {
                    let pre = r@.map_values(|x: String| x@);
                    assert(pre + (Seq::<Seq<char>>::empty() + toks_acc(s@, i + 1, Seq::empty()))
                        =~= pre + toks_acc(s@, i + 1, Seq::empty()));
                }
            }
            start = i + 1;
        } else {
            proof {
                assert(s@.subrange(start as int, i as int).push(s@[i as int]) =~= s@.subrange(
                    start as int,
                    i + 1,
                ));
            }
        }
        i = i + 1;
    }
    if i > start {
        let ghost pre = r@.map_values(|x: String| x@);
        let piece = s.substring_char(start, len).to_owned();
        r.push(piece);
        proof {
            assert(r@.map_values(|x: String| x@) =~= pre.push(s@.subrange(
                start as int,
                len as int,
            )));
        }
    }
    r
}

} // verus!
// ---------------------------------------------------------------------------
// Decimal numbers, trimming, lines, equality
// ---------------------------------------------------------------------------
verus! {

pub open spec fn is_digit(c: char) -> bool {
    '0' <= c && c <= '9'
}

pub open spec fn digit_val(c: char) -> int {
    c as int - '0' as int
}

pub open spec fn all_digits(s: Seq<char>) -> bool {
    forall|i: int| 0 <= i < s.len() ==> is_digit(#[trigger] s[i])
}

/// The value of a sequence of decimal digits, most significant first.
pub open spec fn dec_val(s: Seq<char>) -> int
    decreases s.len(),
{
    if s.len() == 0 {
        0
    } else {
        dec_val(s.drop_last()) * 10 + digit_val(s.last())
    }
}

pub proof fn lemma_dec_val_nonneg(s: Seq<char>)
    requires
        all_digits(s),
    ensures
        dec_val(s) >= 0,
    decreases s.len(),
{
    if s.len() > 0 {
        assert(all_digits(s.drop_last()));
        lemma_dec_val_nonneg(s.drop_last());
    }
}

/// A digit string's value only grows as more digits are appended.
pub proof fn lemma_dec_val_take_le(s: Seq<char>, i: int)
    requires
        all_digits(s),
        0 <= i <= s.len(),
    ensures
        dec_val(s.take(i)) <= dec_val(s),
    decreases s.len(),
{
    if i < s.len() {
        assert(all_digits(s.drop_last()));
        assert(s.take(i) =~= s.drop_last().take(i));
        lemma_dec_val_take_le(s.drop_last(), i);
        lemma_dec_val_nonneg(s.drop_last());
    } else {
        assert(s.take(i) =~= s);
    }
}

/// The digit part of a decimal string: everything after an optional leading
/// '+', as `str::parse::<u64>` accepts.
pub open spec fn dec_digits(s: Seq<char>) -> Seq<char> {
    if s.len() > 0 && s[0] == '+' {
        s.skip(1)
    } else {
        s
    }
}

/// `s` is a string that `str::parse::<u64>` accepts: an optional '+', then
/// one or more digits, with a value that fits in a `u64`.
pub open spec fn is_u64_string(s: Seq<char>) -> bool {
    &&& dec_digits(s).len() > 0
    &&& all_digits(dec_digits(s))
    &&& dec_val(dec_digits(s)) <= u64::MAX
}

/// Reads an unsigned decimal number, as `str::parse::<u64>` would.
pub fn parse_u64(s: &str) -> (r: Option<u64>)
    ensures
        r is Some <==> is_u64_string(s@),
        r is Some ==> r->Some_0 == dec_val(dec_digits(s@)),
{
    let len: usize = s.unicode_len();
    let start: usize = if len > 0 && s.get_char(0) == '+' {
        1
    } else {
        0
    };
    let ghost d = dec_digits(s@);
    proof {
        assert(d =~= s@.subrange(start as int, len as int));
    }
    if start >= len {
        return None;
    }
    let mut acc: u64 = 0;
    let mut i: usize = start;
    proof {
        assert(d.take(0) =~= Seq::<char>::empty());
    }
    while i < len
        invariant
            start <= i <= len,
            len == s@.len(),
            start <= 1,
            d == dec_digits(s@),
            d =~= s@.subrange(start as int, len as int),
            forall|j: int| 0 <= j < i - start ==> is_digit(#[trigger] d[j]),
            acc == dec_val(d.take(i - start)),
        decreases len - i,
    {
        let c = s.get_char(i);
        if c < '0' || c > '9' {
            assert(!is_u64_string(s@)) by {
                assert(d[i - start] == c);
            }
            return None;
        }
        let dv: u64 = (c as u32 - '0' as u32) as u64;
        let ghost prev_take = d.take(i - start);
        proof {
            assert(d.take(i - start + 1).drop_last() =~= prev_take);
            assert(d.take(i - start + 1).last() == d[i - start]);
            assert(d[i - start] == s@[i as int]);
        }
        let step = match acc.checked_mul(10) {
            Some(x) => x.checked_add(dv),
            None => None,
        };
        match step {
            Some(x) => {
                acc = x;
                assert(acc == dec_val(d.take(i - start + 1)));
            }
            None => {
                assert(!is_u64_string(s@)) by {
                    assert(dec_val(d.take(i - start + 1)) > u64::MAX);
                    if all_digits(d) {
                        lemma_dec_val_take_le(d, i - start + 1);
                    }
                }
                return None;
            }
        }
        i = i + 1;
    }
    proof {
        assert(d.take(len - start) =~= d);
    }
    Some(acc)
}

/// Where the leading whitespace of `s` ends, scanning from `i`.
pub open spec fn ltrim_from(s: Seq<char>, i: int) -> int
    decreases s.len() - i,
{
    if i < 0 || i >= s.len() {
        s.len() as int
    } else if is_ws(s[i]) {
        ltrim_from(s, i + 1)
    } else {
        i
    }
}

/// Where the trailing whitespace of `s` begins, scanning left from `i`.
pub open spec fn rtrim_from(s: Seq<char>, i: int) -> int
    decreases i,
{
    if i <= 0 || i > s.len() {
        0
    } else if is_ws(s[i - 1]) {
        rtrim_from(s, i - 1)
    } else {
        i
    }
}

/// `s` with leading and trailing ASCII whitespace removed, as `str::trim`.
pub open spec fn trim_of(s: Seq<char>) -> Seq<char> {
    let a = ltrim_from(s, 0);
    let b = rtrim_from(s, s.len() as int);
    if a >= b {
        Seq::empty()
    } else {
        s.subrange(a, b)
    }
}


/// Removes leading and trailing ASCII whitespace, as `str::trim` does.
pub fn trim_str(s: &str) -> (r: String)
    ensures
        r@ == trim_of(s@),
{
    let len: usize = s.unicode_len();
    let mut a: usize = 0;
    while a < len && char_is_ws(s.get_char(a))
        invariant
            0 <= a <= len,
            len == s@.len(),
            ltrim_from(s@, 0) == ltrim_from(s@, a as int),
        decreases len - a,
    {
        a = a + 1;
    }
    let mut b: usize = len;
    while b > 0 && char_is_ws(s.get_char(b - 1))
        invariant
            0 <= b <= len,
            len == s@.len(),
            rtrim_from(s@, len as int) == rtrim_from(s@, b as int),
        decreases b,
    {
        b = b - 1;
    }
    if a >= b {
        let r = String::new();
        proof {
            assert(trim_of(s@) =~= Seq::<char>::empty());
        }
        r
    } else {
        s.substring_char(a, b).to_owned()
    }
}

/// Whether two names are the same string.
pub fn str_eq(a: &str, b: &str) -> (r: bool)
    ensures
        r == (a@ == b@),
{
    let lt = str_lt(a, b);
    let gt = str_lt(b, a);
    if !lt && !gt {
        proof {
            lemma_lex_lt_total(a@, b@);
        }
        true
    } else {
        proof {
            lemma_lex_lt_irrefl(a@);
        }
        false
    }
}

/// Relies on `String::push`: appends one character at the end.
#[verifier::external_body]
pub fn push_char(s: &mut String, c: char)
    ensures
        final(s)@ == old(s)@.push(c),
{
    s.push(c);
}

} // verus!
// ---------------------------------------------------------------------------
// Lines of a text block
// ---------------------------------------------------------------------------
verus! {

/// One line with a trailing carriage return removed, as `str::lines` does.
pub open spec fn strip_cr(l: Seq<char>) -> Seq<char> {
    if l.len() > 0 && l.last() == '\r' {
        l.drop_last()
    } else {
        l
    }
}

/// The lines of `s`, as `str::lines` yields them: pieces cut at '\n', any
/// trailing '\r' removed, and no final empty line after a terminating '\n'.
pub open spec fn lines_of(s: Seq<char>) -> Seq<Seq<char>> {
    let raw = split_seq(s, '\n');
    let kept = if raw.len() > 0 && raw.last().len() == 0 {
        raw.drop_last()
    } else {
        raw
    };
    kept.map_values(|l: Seq<char>| strip_cr(l))
}

/// Cuts a text block into lines, as `str::lines` does.
pub fn split_lines(s: &str) -> (r: Vec<String>)
    ensures
        r@.map_values(|x: String| x@) == lines_of(s@),
{
    let raw = split_str(s, '\n');
    let ghost rawv = raw@.map_values(|x: String| x@);
    let ghost kept = if rawv.len() > 0 && rawv.last().len() == 0 {
        rawv.drop_last()
    } else {
        rawv
    };
    let n = raw.len();
    let kept_len: usize = if raw[n - 1].as_str().is_empty() {
        n - 1
    } else {
        n
    };
    assert(kept_len == kept.len());
    assert(forall|j: int| 0 <= j < kept.len() ==> kept[j] == rawv[j]);
    let mut out: Vec<String> = Vec::new();
    let mut i: usize = 0;
    while i < kept_len
        invariant
            0 <= i <= kept_len,
            kept_len == kept.len(),
            kept_len <= raw@.len(),
            rawv == raw@.map_values(|x: String| x@),
            forall|j: int| 0 <= j < kept.len() ==> kept[j] == rawv[j],
            out@.map_values(|x: String| x@) =~= kept.map_values(|l: Seq<char>| strip_cr(l)).take(
                i as int,
            ),
        decreases kept_len - i,
    {
        let ghost pre = out@.map_values(|x: String| x@);
        let p = raw[i].as_str();
        assert(p@ == rawv[i as int]);
        let plen = p.unicode_len();
        if plen > 0 && p.get_char(plen - 1) == '\r' {
            let t = p.substring_char(0, plen - 1).to_owned();
            assert(t@ =~= strip_cr(kept[i as int]));
            out.push(t);
        } else {
            let t = p.to_owned();
            assert(t@ =~= strip_cr(kept[i as int]));
            out.push(t);
        }
        proof {
            assert(out@.map_values(|x: String| x@) =~= pre.push(strip_cr(kept[i as int])));
            assert(kept.map_values(|l: Seq<char>| strip_cr(l)).take(i + 1) =~= kept.map_values(
                |l: Seq<char>| strip_cr(l),
            ).take(i as int).push(strip_cr(kept[i as int])));
        }
        i = i + 1;
    }
    proof {
        assert(kept.map_values(|l: Seq<char>| strip_cr(l)).take(kept.len() as int) =~= lines_of(
            s@,
        ));
    }
    out
}

} // verus!
// ---------------------------------------------------------------------------
// Prefix tests
// ---------------------------------------------------------------------------
verus! {

/// `p` is an initial segment of `s`.
pub open spec fn has_prefix(s: Seq<char>, p: Seq<char>) -> bool {
    p.len() <= s.len() && s.take(p.len() as int) == p
}

/// Whether `s` begins with `p`, as `str::starts_with` tests it.
pub fn str_starts_with(s: &str, p: &str) -> (r: bool)
    ensures
        r == has_prefix(s@, p@),
{
    let sl: usize = s.unicode_len();
    let pl: usize = p.unicode_len();
    if pl > sl {
        return false;
    }
    let mut i: usize = 0;
    while i < pl
        invariant
            0 <= i <= pl <= sl,
            sl == s@.len(),
            pl == p@.len(),
            forall|j: int| 0 <= j < i ==> s@[j] == p@[j],
        decreases pl - i,
    {
        if s.get_char(i) != p.get_char(i) {
            assert(!has_prefix(s@, p@)) by {
                if s@.take(pl as int) == p@ {
                    assert(s@.take(pl as int)[i as int] == s@[i as int]);
                }
            }
            return false;
        }
        i = i + 1;
    }
    proof {
        assert(s@.take(pl as int) =~= p@);
    }
    true
}

} // verus!
