//! The parser: a recursive-descent reader of Bencode bytes.
//!
//! The grammar is `i`-integers, length-prefixed strings, `l`-lists and
//! `d`-dictionaries.  Whitespace is tolerated between tokens (never inside a
//! digit run, between the digits and the `e` of an integer, before the `:`
//! of a string, or inside string bytes).  Integers must be canonical: no
//! leading zeros and no negative zero.  Trailing bytes after the value are
//! an error.  Parsing is all-or-nothing: the first violation is reported
//! with its kind and byte offset.

use vstd::prelude::*;

use crate::value::BValue;
use crate::value::Bencodable;
use crate::value::bview;
use crate::value::insert_entry;
use crate::value::lemma_insert_sorted;
use crate::value::lemma_list_view;
use crate::value::list_view;
use crate::value::pairs_view;
use crate::value::spec_insert;
use crate::value::wf;

verus! {

broadcast use vstd::seq::group_seq_axioms, vstd::std_specs::vec::group_vec_axioms;

/// Why a parse failed.
#[derive(Clone, Copy, Debug, PartialEq, Eq, Structural)]
pub enum ErrorKind {
    /// The input ended before a construct closed, or a string's declared
    /// length overruns the remaining input.
    UnexpectedEof,
    /// A byte did not fit any production at its position.
    UnexpectedToken,
    /// A string's declared length is not followed by `:`.
    InvalidLength,
    /// A dictionary entry has a key but no value.
    MalformedDict,
    /// A dictionary key position held a non-string value.
    InvalidDictKey,
    /// An integer literal exceeds the representable range.
    IntegerOverflow,
}

/// A parse failure: what went wrong, and the byte offset where.
#[derive(Clone, Copy, Debug, PartialEq, Eq, Structural)]
pub struct ParseError {
    pub kind: ErrorKind,
    pub offset: usize,
}

/// Bytes skipped between tokens.
pub open spec fn is_ws(b: u8) -> bool {
    b == 32 || (9 <= b && b <= 13)
}

/// ASCII decimal digits.
pub open spec fn is_digit(b: u8) -> bool {
    48 <= b && b <= 57
}

/// The first position at or after `i` holding no whitespace.
pub open spec fn skip_ws(s: Seq<u8>, i: int) -> int
    recommends
        0 <= i <= s.len(),
    decreases s.len() - i,
{
    if i < s.len() && is_ws(s[i]) {
        skip_ws(s, i + 1)
    } else {
        i
    }
}

/// The end of the digit run starting at `i`.
pub open spec fn digit_run_end(s: Seq<u8>, i: int) -> int
    recommends
        0 <= i <= s.len(),
    decreases s.len() - i,
{
    if i < s.len() && is_digit(s[i]) {
        digit_run_end(s, i + 1)
    } else {
        i
    }
}

/// The value of a run of decimal digits, most significant first.
pub open spec fn digits_val(d: Seq<u8>) -> int
    decreases d.len(),
{
    if d.len() == 0 {
        0
    } else {
        digits_val(d.drop_last()) * 10 + (d.last() - 48)
    }
}

/// Parse an integer body, starting just after its `i`: optional sign,
/// canonical digits, then `e`.  Whitespace may follow the `i` and the sign.
pub open spec fn spec_int(s: Seq<u8>, i: int) -> Result<(BValue, int), (ErrorKind, int)>
    recommends
        0 <= i <= s.len(),
{
    let j0 = skip_ws(s, i);
    let neg = j0 < s.len() && s[j0] == 45;
    let j1 = if neg {
        skip_ws(s, j0 + 1)
    } else {
        j0
    };
    let j2 = digit_run_end(s, j1);
    if j1 == j2 {
        if j1 >= s.len() {
            Err((ErrorKind::UnexpectedEof, s.len() as int))
        } else {
            Err((ErrorKind::UnexpectedToken, j1))
        }
    } else {
        let run = s.subrange(j1, j2);
        let m = digits_val(run);
        if run.len() > 1 && run[0] == 48 {
            Err((ErrorKind::UnexpectedToken, j1))
        } else if neg && m == 0 {
            Err((ErrorKind::UnexpectedToken, j1))
        } else if (neg && m > -(i64::MIN as int)) || (!neg && m > i64::MAX as int) {
            Err((ErrorKind::IntegerOverflow, j1))
        } else if j2 >= s.len() {
            Err((ErrorKind::UnexpectedEof, s.len() as int))
        } else if s[j2] != 101 {
            Err((ErrorKind::UnexpectedToken, j2))
        } else {
            Ok((BValue::Int(if neg { -m } else { m }), j2 + 1))
        }
    }
}

/// Parse a string, starting at its first length digit: digits, `:`, then
/// exactly that many raw bytes.
pub open spec fn spec_str(s: Seq<u8>, i: int) -> Result<(Seq<u8>, int), (ErrorKind, int)>
    recommends
        0 <= i <= s.len(),
{
    let j = digit_run_end(s, i);
    let n = digits_val(s.subrange(i, j));
    if j >= s.len() {
        Err((ErrorKind::UnexpectedEof, s.len() as int))
    } else if s[j] != 58 {
        Err((ErrorKind::InvalidLength, j))
    } else if j + 1 + n > s.len() {
        Err((ErrorKind::UnexpectedEof, s.len() as int))
    } else {
        Ok((s.subrange(j + 1, j + 1 + n), j + 1 + n))
    }
}

/// Parse one value at `i`, whitespace allowed first: dispatch on the lead
/// byte, `i` for integers, `l` for lists, `d` for dictionaries, a digit for
/// strings.
pub open spec fn spec_value(s: Seq<u8>, i: int) -> Result<(BValue, int), (ErrorKind, int)>
    recommends
        0 <= i <= s.len(),
    decreases s.len() - i, 0int,
{
    let k = skip_ws(s, i);
    if k < i {
        // skip_ws never moves backwards; this branch is vacuous
        Err((ErrorKind::UnexpectedEof, s.len() as int))
    } else if k >= s.len() {
        Err((ErrorKind::UnexpectedEof, s.len() as int))
    } else if s[k] == 105 {
        spec_int(s, k + 1)
    } else if s[k] == 108 {
        spec_list_items(s, k + 1, Seq::empty())
    } else if s[k] == 100 {
        spec_dict_items(s, k + 1, Seq::empty())
    } else if is_digit(s[k]) {
        match spec_str(s, k) {
            Ok((b, j)) => Ok((BValue::Str(b), j)),
            Err(e) => Err(e),
        }
    } else {
        Err((ErrorKind::UnexpectedToken, k))
    }
}

/// Parse list elements until the closing `e`, in order.
pub open spec fn spec_list_items(s: Seq<u8>, i: int, acc: Seq<BValue>) -> Result<
    (BValue, int),
    (ErrorKind, int),
>
    recommends
        0 <= i <= s.len(),
    decreases s.len() - i, 1int,
{
    let k = skip_ws(s, i);
    if k < i {
        // skip_ws never moves backwards; this branch is vacuous
        Err((ErrorKind::UnexpectedEof, s.len() as int))
    } else if k >= s.len() {
        Err((ErrorKind::UnexpectedEof, s.len() as int))
    } else if s[k] == 101 {
        Ok((BValue::List(acc), k + 1))
    } else {
        match spec_value(s, k) {
            Err(e) => Err(e),
            Ok((v, j)) => {
                if j <= k || j > s.len() {
                    // a parsed value always advances and stays in bounds;
                    // this branch is vacuous
                    Err((ErrorKind::UnexpectedEof, s.len() as int))
                } else {
                    spec_list_items(s, j, acc.push(v))
                }
            },
        }
    }
}

/// Parse dictionary entries until the closing `e`: each a string key then a
/// value, a later duplicate key overwriting an earlier one, the entries kept
/// in ascending key order.
pub open spec fn spec_dict_items(s: Seq<u8>, i: int, acc: Seq<(Seq<u8>, BValue)>) -> Result<
    (BValue, int),
    (ErrorKind, int),
>
    recommends
        0 <= i <= s.len(),
    decreases s.len() - i, 1int,
{
    let k = skip_ws(s, i);
    if k < i {
        // skip_ws never moves backwards; this branch is vacuous
        Err((ErrorKind::UnexpectedEof, s.len() as int))
    } else if k >= s.len() {
        Err((ErrorKind::UnexpectedEof, s.len() as int))
    } else if s[k] == 101 {
        Ok((BValue::Dict(acc), k + 1))
    } else if s[k] == 105 || s[k] == 108 || s[k] == 100 {
        Err((ErrorKind::InvalidDictKey, k))
    } else if !is_digit(s[k]) {
        Err((ErrorKind::UnexpectedToken, k))
    } else {
        match spec_str(s, k) {
            Err(e) => Err(e),
            Ok((key, j)) => {
                if j <= k || j > s.len() {
                    // a parsed string always advances and stays in bounds;
                    // this branch is vacuous
                    Err((ErrorKind::UnexpectedEof, s.len() as int))
                } else {
                    let k2 = skip_ws(s, j);
                    if k2 < s.len() && s[k2] == 101 {
                        Err((ErrorKind::MalformedDict, k2))
                    } else {
                        match spec_value(s, j) {
                            Err(e) => Err(e),
                            Ok((v, j2)) => {
                                if j2 <= j || j2 > s.len() {
                                    // a parsed value always advances and stays
                                    // in bounds; this branch is vacuous
                                    Err((ErrorKind::UnexpectedEof, s.len() as int))
                                } else {
                                    spec_dict_items(s, j2, spec_insert(acc, key, v))
                                }
                            },
                        }
                    }
                }
            },
        }
    }
}

/// Parse the whole input: one value, then only whitespace may remain.
pub open spec fn spec_decode(s: Seq<u8>) -> Result<BValue, (ErrorKind, int)> {
    match spec_value(s, 0) {
        Err(e) => Err(e),
        Ok((v, j)) => {
            let k = skip_ws(s, j);
            if k == s.len() {
                Ok(v)
            } else {
                Err((ErrorKind::UnexpectedToken, k))
            }
        },
    }
}

pub proof fn lemma_skip_ws(s: Seq<u8>, i: int)
    requires
        0 <= i <= s.len(),
    ensures
        i <= skip_ws(s, i) <= s.len(),
        skip_ws(s, i) < s.len() ==> !is_ws(s[skip_ws(s, i)]),
        forall|j: int| i <= j < skip_ws(s, i) ==> is_ws(s[j]),
    decreases s.len() - i,
{
    if i < s.len() && is_ws(s[i]) {
        lemma_skip_ws(s, i + 1);
    }
}

pub proof fn lemma_digit_run(s: Seq<u8>, i: int)
    requires
        0 <= i <= s.len(),
    ensures
        i <= digit_run_end(s, i) <= s.len(),
        digit_run_end(s, i) < s.len() ==> !is_digit(s[digit_run_end(s, i)]),
        forall|j: int| i <= j < digit_run_end(s, i) ==> is_digit(s[j]),
    decreases s.len() - i,
{
    if i < s.len() && is_digit(s[i]) {
        lemma_digit_run(s, i + 1);
    }
}

/// A run of digits has a non-negative value.
pub proof fn lemma_digits_val_nonneg(d: Seq<u8>)
    requires
        forall|j: int| 0 <= j < d.len() ==> is_digit(#[trigger] d[j]),
    ensures
        digits_val(d) >= 0,
    decreases d.len(),
{
    if d.len() > 0 {
        lemma_digits_val_nonneg(d.drop_last());
    }
}

/// A prefix of a digit run is worth no more than the whole run.
pub proof fn lemma_digits_val_prefix(d: Seq<u8>, m: int)
    requires
        0 <= m <= d.len(),
        forall|j: int| 0 <= j < d.len() ==> is_digit(#[trigger] d[j]),
    ensures
        digits_val(d.subrange(0, m)) <= digits_val(d),
    decreases d.len() - m,
{
    if m == d.len() {
        assert(d.subrange(0, m) =~= d);
    } else {
        lemma_digits_val_prefix(d, m + 1);
        let p = d.subrange(0, m + 1);
        assert(p.drop_last() =~= d.subrange(0, m));
        assert forall|j: int| 0 <= j < p.len() implies is_digit(#[trigger] p[j]) by {
            assert(p[j] == d[j]);
        }
        lemma_digits_val_nonneg(d.subrange(0, m));
        assert(digits_val(p) == digits_val(d.subrange(0, m)) * 10 + (p.last() - 48));
    }
}

/// Skip whitespace, exactly as `skip_ws` says.
fn skip_ws_exec(s: &[u8], i: usize) -> (r: usize)
    requires
        i <= s@.len(),
    ensures
        r as int == skip_ws(s@, i as int),
        i <= r <= s@.len(),
{
    proof {
        lemma_skip_ws(s@, i as int);
    }
    let mut t = i;
    while t < s.len() && (s[t] == 32 || (9 <= s[t] && s[t] <= 13))
        invariant
            i <= t <= s@.len(),
            skip_ws(s@, i as int) == skip_ws(s@, t as int),
        decreases s@.len() - t,
    {
        t += 1;
    }
    t
}

/// Find the end of a digit run, exactly as `digit_run_end` says.
fn digit_run_end_exec(s: &[u8], i: usize) -> (r: usize)
    requires
        i <= s@.len(),
    ensures
        r as int == digit_run_end(s@, i as int),
        i <= r <= s@.len(),
{
    let mut t = i;
    while t < s.len() && 48 <= s[t] && s[t] <= 57
        invariant
            i <= t <= s@.len(),
            digit_run_end(s@, i as int) == digit_run_end(s@, t as int),
        decreases s@.len() - t,
    {
        t += 1;
    }
    t
}

/// Parse an integer body after its `i`, exactly as `spec_int` says.
#[verifier::loop_isolation(false)]
fn parse_int(s: &[u8], pos: usize) -> (r: Result<(i64, usize), ParseError>)
    requires
        pos <= s@.len(),
    ensures
        match r {
            Ok((n, j)) => spec_int(s@, pos as int) == Ok::<(BValue, int), (ErrorKind, int)>(
                (BValue::Int(n as int), j as int),
            ) && pos < j <= s@.len(),
            Err(e) => spec_int(s@, pos as int) == Err::<(BValue, int), (ErrorKind, int)>(
                (e.kind, e.offset as int),
            ),
        },
{
    proof {
        lemma_skip_ws(s@, pos as int);
    }
    let j0 = skip_ws_exec(s, pos);
    let neg = j0 < s.len() && s[j0] == 45;
    let j1 = if neg {
        proof {
            lemma_skip_ws(s@, j0 as int + 1);
        }
        skip_ws_exec(s, j0 + 1)
    } else {
        j0
    };
    proof {
        lemma_digit_run(s@, j1 as int);
    }
    let j2 = digit_run_end_exec(s, j1);
    if j1 == j2 {
        if j1 == s.len() {
            return Err(ParseError { kind: ErrorKind::UnexpectedEof, offset: s.len() });
        } else {
            return Err(ParseError { kind: ErrorKind::UnexpectedToken, offset: j1 });
        }
    }
    let ghost run = s@.subrange(j1 as int, j2 as int);
    proof {
        assert forall|j: int| 0 <= j < run.len() implies is_digit(#[trigger] run[j]) by {
            assert(run[j] == s@[j1 + j]);
        }
        lemma_digits_val_nonneg(run);
    }
    if s[j1] == 48 && j2 - j1 > 1 {
        proof {
            assert(run[0] == 48);
        }
        return Err(ParseError { kind: ErrorKind::UnexpectedToken, offset: j1 });
    }
    let mut acc: u128 = 0;
    let mut t = j1;
    while t < j2
        invariant
            j1 <= t <= j2,
            acc == digits_val(s@.subrange(j1 as int, t as int)),
            acc <= 0x8000000000000000u128 * 10 + 9,
        decreases j2 - t,
    {
        if acc > 0x8000000000000000u128 {
            proof {
                assert(s@.subrange(j1 as int, t as int) =~= run.subrange(0, t - j1));
                lemma_digits_val_prefix(run, t - j1);
            }
            return Err(ParseError { kind: ErrorKind::IntegerOverflow, offset: j1 });
        }
        let d = s[t];
        acc = acc * 10 + (d - 48) as u128;
        proof {
            let p = s@.subrange(j1 as int, t as int + 1);
            assert(p.drop_last() =~= s@.subrange(j1 as int, t as int));
            assert(p.last() == s@[t as int]);
        }
        t += 1;
    }
    proof {
        assert(s@.subrange(j1 as int, j2 as int) =~= run);
    }
    if neg && acc == 0 {
        return Err(ParseError { kind: ErrorKind::UnexpectedToken, offset: j1 });
    }
    if acc > (if neg {
        0x8000000000000000u128
    } else {
        0x7fffffffffffffffu128
    }) {
        return Err(ParseError { kind: ErrorKind::IntegerOverflow, offset: j1 });
    }
    if j2 == s.len() {
        return Err(ParseError { kind: ErrorKind::UnexpectedEof, offset: s.len() });
    }
    if s[j2] != 101 {
        return Err(ParseError { kind: ErrorKind::UnexpectedToken, offset: j2 });
    }
    let n: i64 = if neg {
        if acc == 0x8000000000000000u128 {
            i64::MIN
        } else {
            -(acc as i64)
        }
    } else {
        acc as i64
    };
    Ok((n, j2 + 1))
}

/// Parse a string at its first length digit, exactly as `spec_str` says.
#[verifier::loop_isolation(false)]
fn parse_str(s: &[u8], pos: usize) -> (r: Result<(Vec<u8>, usize), ParseError>)
    requires
        pos <= s@.len(),
    ensures
        match r {
            Ok((b, j)) => spec_str(s@, pos as int) == Ok::<(Seq<u8>, int), (ErrorKind, int)>(
                (b@, j as int),
            ) && pos < j <= s@.len(),
            Err(e) => spec_str(s@, pos as int) == Err::<(Seq<u8>, int), (ErrorKind, int)>(
                (e.kind, e.offset as int),
            ),
        },
{
    proof {
        lemma_digit_run(s@, pos as int);
    }
    let j = digit_run_end_exec(s, pos);
    let ghost run = s@.subrange(pos as int, j as int);
    proof {
        assert forall|m: int| 0 <= m < run.len() implies is_digit(#[trigger] run[m]) by {
            assert(run[m] == s@[pos + m]);
        }
        lemma_digits_val_nonneg(run);
    }
    if j == s.len() {
        return Err(ParseError { kind: ErrorKind::UnexpectedEof, offset: s.len() });
    }
    if s[j] != 58 {
        return Err(ParseError { kind: ErrorKind::InvalidLength, offset: j });
    }
    let mut acc: u128 = 0;
    let mut t = pos;
    while t < j
        invariant
            pos <= t <= j,
            acc == digits_val(s@.subrange(pos as int, t as int)),
            acc <= (s@.len() as u128) * 10 + 9,
        decreases j - t,
    {
        if acc > s.len() as u128 {
            proof {
                assert(s@.subrange(pos as int, t as int) =~= run.subrange(0, t - pos));
                lemma_digits_val_prefix(run, t - pos);
            }
            return Err(ParseError { kind: ErrorKind::UnexpectedEof, offset: s.len() });
        }
        let d = s[t];
        acc = acc * 10 + (d - 48) as u128;
        proof {
            let p = s@.subrange(pos as int, t as int + 1);
            assert(p.drop_last() =~= s@.subrange(pos as int, t as int));
            assert(p.last() == s@[t as int]);
        }
        t += 1;
    }
    proof {
        assert(s@.subrange(pos as int, j as int) =~= run);
    }
    if acc > (s.len() - (j + 1)) as u128 {
        return Err(ParseError { kind: ErrorKind::UnexpectedEof, offset: s.len() });
    }
    let n: usize = acc as usize;
    let mut b: Vec<u8> = Vec::new();
    let mut t2 = j + 1;
    while t2 < j + 1 + n
        invariant
            j + 1 <= t2 <= j + 1 + n,
            j + 1 + n <= s@.len(),
            b@ == s@.subrange(j as int + 1, t2 as int),
        decreases j + 1 + n - t2,
    {
        b.push(s[t2]);
        proof {
            assert(s@.subrange(j as int + 1, t2 as int + 1) =~= s@.subrange(
                j as int + 1,
                t2 as int,
            ).push(s@[t2 as int]));
        }
        t2 += 1;
    }
    Ok((b, j + 1 + n))
}

/// Parse one value at `pos`, exactly as `spec_value` says.  On success the
/// value is well-formed and the parse advanced.
pub fn parse_value(s: &[u8], pos: usize) -> (r: Result<(Bencodable, usize), ParseError>)
    requires
        pos <= s@.len(),
    ensures
        match r {
            Ok((v, j)) => spec_value(s@, pos as int) == Ok::<(BValue, int), (ErrorKind, int)>(
                (v@, j as int),
            ) && pos < j <= s@.len() && wf(v@),
            Err(e) => spec_value(s@, pos as int) == Err::<(BValue, int), (ErrorKind, int)>(
                (e.kind, e.offset as int),
            ),
        },
    decreases s@.len() - pos,
{
    proof {
        lemma_skip_ws(s@, pos as int);
    }
    let k = skip_ws_exec(s, pos);
    if k == s.len() {
        return Err(ParseError { kind: ErrorKind::UnexpectedEof, offset: s.len() });
    }
    let b = s[k];
    if b == 105 {
        match parse_int(s, k + 1) {
            Ok((n, j)) => Ok((Bencodable::Int(n), j)),
            Err(e) => Err(e),
        }
    } else if b == 108 {
        let mut items: Vec<Bencodable> = Vec::new();
        let mut cur = k + 1;
        proof {
            assert(list_view(items@) =~= Seq::<BValue>::empty());
        }
        #[verifier::loop_isolation(false)]
        loop
            invariant
                k + 1 <= cur <= s@.len(),
                cur > pos,
                spec_list_items(s@, k as int + 1, Seq::empty()) == spec_list_items(
                    s@,
                    cur as int,
                    list_view(items@),
                ),
                wf(BValue::List(list_view(items@))),
            decreases s@.len() - cur,
        {
            proof {
                lemma_skip_ws(s@, cur as int);
                lemma_list_view(items@);
            }
            let k2 = skip_ws_exec(s, cur);
            if k2 == s.len() {
                return Err(ParseError { kind: ErrorKind::UnexpectedEof, offset: s.len() });
            }
            if s[k2] == 101 {
                return Ok((Bencodable::List(items), k2 + 1));
            }
            match parse_value(s, k2) {
                Err(e) => {
                    return Err(e);
                },
                Ok((v, j)) => {
                    let ghost oldis = items@;
                    let ghost lv = list_view(items@);
                    items.push(v);
                    proof {
                        assert(items@.drop_last() =~= oldis);
                        assert(list_view(items@) == lv.push(bview(v)));
                        assert(list_view(items@).drop_last() =~= lv);
                        assert(list_view(items@).last() == bview(v));
                        assert(crate::value::wf_list(list_view(items@)));
                        assert(spec_list_items(s@, cur as int, lv) == spec_list_items(
                            s@,
                            j as int,
                            lv.push(bview(v)),
                        ));
                    }
                    cur = j;
                },
            }
        }
    } else if b == 100 {
        let mut entries: Vec<(Vec<u8>, Bencodable)> = Vec::new();
        let mut cur = k + 1;
        proof {
            assert(pairs_view(entries@) =~= Seq::<(Seq<u8>, BValue)>::empty());
        }
        #[verifier::loop_isolation(false)]
        loop
            invariant
                k + 1 <= cur <= s@.len(),
                cur > pos,
                spec_dict_items(s@, k as int + 1, Seq::<(Seq<u8>, BValue)>::empty())
                    == spec_dict_items(s@, cur as int, pairs_view(entries@)),
                wf(BValue::Dict(pairs_view(entries@))),
            decreases s@.len() - cur,
        {
            proof {
                lemma_skip_ws(s@, cur as int);
            }
            let k2 = skip_ws_exec(s, cur);
            if k2 == s.len() {
                return Err(ParseError { kind: ErrorKind::UnexpectedEof, offset: s.len() });
            }
            let lead = s[k2];
            if lead == 101 {
                return Ok((Bencodable::Dict(entries), k2 + 1));
            }
            if lead == 105 || lead == 108 || lead == 100 {
                return Err(ParseError { kind: ErrorKind::InvalidDictKey, offset: k2 });
            }
            if !(48 <= lead && lead <= 57) {
                return Err(ParseError { kind: ErrorKind::UnexpectedToken, offset: k2 });
            }
            match parse_str(s, k2) {
                Err(e) => {
                    return Err(e);
                },
                Ok((key, j)) => {
                    proof {
                        lemma_skip_ws(s@, j as int);
                    }
                    let k3 = skip_ws_exec(s, j);
                    if k3 < s.len() && s[k3] == 101 {
                        return Err(ParseError { kind: ErrorKind::MalformedDict, offset: k3 });
                    }
                    match parse_value(s, j) {
                        Err(e) => {
                            return Err(e);
                        },
                        Ok((v, j2)) => {
                            let ghost pv = pairs_view(entries@);
                            let ghost kv = key@;
                            let ghost vv = bview(v);
                            proof {
                                lemma_insert_sorted(pv, kv, vv);
                                crate::value::lemma_insert_wf(pv, kv, vv);
                            }
                            insert_entry(&mut entries, key, v);
                            proof {
                                assert(wf(BValue::Dict(pairs_view(entries@))));
                                assert(spec_dict_items(s@, cur as int, pv) == spec_dict_items(
                                    s@,
                                    j2 as int,
                                    spec_insert(pv, kv, vv),
                                ));
                            }
                            cur = j2;
                        },
                    }
                },
            }
        }
    } else if 48 <= b && b <= 57 {
        match parse_str(s, k) {
            Ok((bytes, j)) => Ok((Bencodable::Str(bytes), j)),
            Err(e) => Err(e),
        }
    } else {
        Err(ParseError { kind: ErrorKind::UnexpectedToken, offset: k })
    }
}

/// What decoding an input must return: exactly what `spec_decode` says,
/// with a well-formed value on success.
pub open spec fn decode_post(s: Seq<u8>, r: Result<Bencodable, ParseError>) -> bool {
    match r {
        Ok(v) => spec_decode(s) == Ok::<BValue, (ErrorKind, int)>(v@) && wf(v@),
        Err(e) => spec_decode(s) == Err::<BValue, (ErrorKind, int)>((e.kind, e.offset as int)),
    }
}

/// Decode one complete Bencode value from bytes: the parsed value, or the
/// first error; trailing bytes other than whitespace are an error.
pub fn decode_bytes(s: &[u8]) -> (r: Result<Bencodable, ParseError>)
    ensures
        decode_post(s@, r),
{
    match parse_value(s, 0) {
        Err(e) => Err(e),
        Ok((v, j)) => {
            proof {
                lemma_skip_ws(s@, j as int);
            }
            let k = skip_ws_exec(s, j);
            if k == s.len() {
                Ok(v)
            } else {
                Err(ParseError { kind: ErrorKind::UnexpectedToken, offset: k })
            }
        },
    }
}

/// Parsing from Bencode input.
pub trait Decode {
    /// The bytes this input stands for.
    spec fn decode_src(&self) -> Seq<u8>;

    /// Parse the full input into one value tree.
    fn decode(&self) -> (r: Result<Bencodable, ParseError>)
        ensures
            decode_post(self.decode_src(), r),
    ;
}

impl Decode for [u8] {
    open spec fn decode_src(&self) -> Seq<u8> {
        self@
    }

    fn decode(&self) -> (r: Result<Bencodable, ParseError>) {
        decode_bytes(self)
    }
}

impl Decode for str {
    open spec fn decode_src(&self) -> Seq<u8> {
        vstd::utf8::encode_utf8(self@)
    }

    fn decode(&self) -> (r: Result<Bencodable, ParseError>) {
        decode_bytes(self.as_bytes())
    }
}

} // verus!
