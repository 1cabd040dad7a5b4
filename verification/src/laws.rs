//! The laws that tie the serializer and the parser together: the
//! serializer's dictionary ordering is canonical and independent of
//! insertion order, decoding a serialization returns the canonical form of
//! the value, and serialization is idempotent across a decode.

use vstd::prelude::*;

use crate::de::digit_run_end;
use crate::de::digits_val;
use crate::de::is_digit;
use crate::de::is_ws;
use crate::de::spec_decode;
use crate::de::spec_dict_items;
use crate::de::spec_list_items;
use crate::de::spec_value;
use crate::de::ErrorKind;
use crate::ser::dec;
use crate::ser::enc_list;
use crate::ser::enc_pairs;
use crate::ser::encoded;
use crate::ser::encoded_c;
use crate::ser::pair_bytes;
use crate::ser::sdec;
use crate::value::canon_list;
use crate::value::canon_pairs;
use crate::value::canonv;
use crate::value::ints_ok;
use crate::value::ints_ok_list;
use crate::value::ints_ok_pairs;
use crate::value::keys_sorted;
use crate::value::lemma_insert_append;
use crate::value::lemma_insert_sorted;
use crate::value::lemma_insert_wf;
use crate::value::lemma_lex_total;
use crate::value::lemma_wf_list;
use crate::value::lemma_wf_pairs;
use crate::value::lex_lt;
use crate::value::sort_pairs;
use crate::value::spec_insert;
use crate::value::wf;
use crate::value::wf_list;
use crate::value::wf_pairs;
use crate::value::BValue;

verus! {

broadcast use vstd::seq::group_seq_axioms;

/// The decimal digits of a non-negative integer: at least one digit, all
/// digits, worth the number itself, with a leading zero only for zero.
pub proof fn lemma_dec_props(n: int)
    requires
        n >= 0,
    ensures
        dec(n).len() >= 1,
        forall|j: int| 0 <= j < dec(n).len() ==> is_digit(#[trigger] dec(n)[j]),
        digits_val(dec(n)) == n,
        dec(n)[0] == 48 ==> n == 0,
        n < 10 ==> dec(n).len() == 1,
    decreases n,
{
    if n < 10 {
        assert(dec(n) =~= seq![(48 + n) as u8]);
        assert(digits_val(dec(n)) == digits_val(dec(n).drop_last()) * 10 + (dec(n).last() - 48));
        assert(dec(n).drop_last() =~= Seq::<u8>::empty());
    } else {
        lemma_dec_props(n / 10);
        let d = dec(n);
        assert(d == dec(n / 10).push((48 + n % 10) as u8));
        assert(d.drop_last() =~= dec(n / 10));
        assert(digits_val(d) == n / 10 * 10 + n % 10);
        assert(d[0] == dec(n / 10)[0]);
        assert forall|j: int| 0 <= j < d.len() implies is_digit(#[trigger] d[j]) by {
            if j < d.len() - 1 {
                assert(d[j] == dec(n / 10)[j]);
            }
        }
    }
}

/// A digit run surrounded as stated ends exactly at `b`.
pub proof fn lemma_digit_run_exact(s: Seq<u8>, a: int, b: int)
    requires
        0 <= a <= b <= s.len(),
        forall|j: int| a <= j < b ==> is_digit(#[trigger] s[j]),
        b == s.len() || !is_digit(s[b]),
    ensures
        digit_run_end(s, a) == b,
    decreases b - a,
{
    if a < b {
        lemma_digit_run_exact(s, a + 1, b);
    }
}

/// The first byte of a serialized value: a lead token, never whitespace,
/// never a terminator, and the bytes are never empty.
pub proof fn lemma_enc_first(v: BValue)
    ensures
        encoded_c(v).len() >= 2,
        !is_ws(encoded_c(v)[0]),
        encoded_c(v)[0] != 101,
        encoded_c(v)[0] == 105 || encoded_c(v)[0] == 108 || encoded_c(v)[0] == 100 || is_digit(
            encoded_c(v)[0],
        ),
        (encoded_c(v)[0] == 105 || encoded_c(v)[0] == 108 || encoded_c(v)[0] == 100) == !is_digit(
            encoded_c(v)[0],
        ),
{
    match v {
        BValue::Int(i) => {
            lemma_dec_props(if i < 0 {
                -i
            } else {
                i
            });
        },
        BValue::Str(s) => {
            lemma_dec_props(s.len() as int);
            assert(encoded_c(v)[0] == dec(s.len() as int)[0]);
        },
        BValue::List(_) => {},
        BValue::Dict(_) => {},
    }
}

/// The keys that come out of sorting are strictly ascending, whatever
/// order the entries went in.
pub proof fn lemma_sort_pairs_sorted(es: Seq<(Seq<u8>, BValue)>)
    ensures
        keys_sorted(sort_pairs(es)),
    decreases es.len(),
{
    if es.len() > 0 {
        lemma_sort_pairs_sorted(es.drop_last());
        lemma_insert_sorted(sort_pairs(es.drop_last()), es.last().0, es.last().1);
    }
}

/// Sorting keeps every entry value well-formed.
pub proof fn lemma_sort_pairs_wf(es: Seq<(Seq<u8>, BValue)>)
    requires
        wf_pairs(es),
    ensures
        wf_pairs(sort_pairs(es)),
    decreases es.len(),
{
    if es.len() > 0 {
        assert(wf_pairs(es.drop_last()) && wf(es.last().1));
        lemma_sort_pairs_wf(es.drop_last());
        lemma_insert_wf(sort_pairs(es.drop_last()), es.last().0, es.last().1);
    }
}

/// Canonicalizing a value with representable integers yields a well-formed
/// value.
pub proof fn lemma_canonv_wf(v: BValue)
    requires
        ints_ok(v),
    ensures
        wf(canonv(v)),
    decreases v,
{
    match v {
        BValue::Int(_) => {},
        BValue::Str(_) => {},
        BValue::List(l) => {
            lemma_canon_list_wf(l);
        },
        BValue::Dict(es) => {
            lemma_canon_pairs_wf(es);
            lemma_sort_pairs_sorted(canon_pairs(es));
            lemma_sort_pairs_wf(canon_pairs(es));
        },
    }
}

pub proof fn lemma_canon_list_wf(l: Seq<BValue>)
    requires
        ints_ok_list(l),
    ensures
        wf_list(canon_list(l)),
    decreases l,
{
    if l.len() > 0 {
        lemma_canon_list_wf(l.drop_last());
        lemma_canonv_wf(l.last());
        assert(canon_list(l).drop_last() =~= canon_list(l.drop_last()));
        assert(canon_list(l).last() == canonv(l.last()));
    }
}

pub proof fn lemma_canon_pairs_wf(es: Seq<(Seq<u8>, BValue)>)
    requires
        ints_ok_pairs(es),
    ensures
        wf_pairs(canon_pairs(es)),
    decreases es,
{
    if es.len() > 0 {
        lemma_canon_pairs_wf(es.drop_last());
        lemma_canonv_wf(es.last().1);
        assert(canon_pairs(es).drop_last() =~= canon_pairs(es.drop_last()));
        assert(canon_pairs(es).last() == (es.last().0, canonv(es.last().1)));
    }
}

/// Sorting a sequence whose keys already ascend changes nothing.
pub proof fn lemma_sort_pairs_sorted_id(es: Seq<(Seq<u8>, BValue)>)
    requires
        keys_sorted(es),
    ensures
        sort_pairs(es) == es,
    decreases es.len(),
{
    if es.len() > 0 {
        assert forall|i: int, j: int|
            #![trigger es.drop_last()[i], es.drop_last()[j]]
            0 <= i < j < es.drop_last().len() implies lex_lt(
            es.drop_last()[i].0,
            es.drop_last()[j].0,
        ) by {
            assert(es.drop_last()[i] == es[i]);
            assert(es.drop_last()[j] == es[j]);
        }
        lemma_sort_pairs_sorted_id(es.drop_last());
        assert forall|j: int| 0 <= j < es.drop_last().len() implies lex_lt(
            #[trigger] es.drop_last()[j].0,
            es.last().0,
        ) by {
            assert(es.drop_last()[j] == es[j]);
            assert(es.last() == es[es.len() - 1]);
        }
        lemma_insert_append(es.drop_last(), es.last().0, es.last().1);
        assert(es.drop_last().push(es.last()) =~= es);
    }
}

/// A well-formed value is its own canonical form.
pub proof fn lemma_canonv_id(v: BValue)
    requires
        wf(v),
    ensures
        canonv(v) == v,
    decreases v,
{
    match v {
        BValue::Int(_) => {},
        BValue::Str(_) => {},
        BValue::List(l) => {
            lemma_canon_list_id(l);
        },
        BValue::Dict(es) => {
            lemma_canon_pairs_id(es);
            lemma_sort_pairs_sorted_id(es);
        },
    }
}

pub proof fn lemma_canon_list_id(l: Seq<BValue>)
    requires
        wf_list(l),
    ensures
        canon_list(l) == l,
    decreases l,
{
    if l.len() > 0 {
        lemma_canon_list_id(l.drop_last());
        lemma_canonv_id(l.last());
        assert(canon_list(l) =~= l);
    } else {
        assert(canon_list(l) =~= l);
    }
}

pub proof fn lemma_canon_pairs_id(es: Seq<(Seq<u8>, BValue)>)
    requires
        wf_pairs(es),
    ensures
        canon_pairs(es) == es,
    decreases es,
{
    if es.len() > 0 {
        lemma_canon_pairs_id(es.drop_last());
        lemma_canonv_id(es.last().1);
        assert((es.last().0, es.last().1) == es.last());
        assert(canon_pairs(es) =~= es);
    } else {
        assert(canon_pairs(es) =~= es);
    }
}

/// One byte of an embedded block of bytes, read off the containing input.
proof fn lemma_byte_at(s: Seq<u8>, i: int, e: Seq<u8>, t: int)
    requires
        0 <= i,
        i + e.len() <= s.len(),
        s.subrange(i, i + e.len() as int) == e,
        0 <= t < e.len(),
    ensures
        s[i + t] == e[t],
{
    assert(e[t] == s.subrange(i, i + e.len() as int)[t]);
}

/// Parsing at the start of a serialized well-formed value embedded in a
/// larger input consumes exactly its bytes and returns exactly the value.
pub proof fn lemma_parse_encoded(w: BValue, s: Seq<u8>, i: int)
    requires
        wf(w),
        0 <= i,
        i + encoded_c(w).len() <= s.len(),
        s.subrange(i, i + encoded_c(w).len() as int) == encoded_c(w),
    ensures
        spec_value(s, i) == Ok::<(BValue, int), (ErrorKind, int)>((w, i + encoded_c(w).len())),
    decreases w, 0int,
{
    let e = encoded_c(w);
    lemma_enc_first(w);
    lemma_byte_at(s, i, e, 0);
    match w {
        BValue::Int(n) => {
            let m: int = if n < 0 {
                -n
            } else {
                n
            };
            lemma_dec_props(m);
            let d = dec(m);
            let start: int = if n < 0 {
                i + 2
            } else {
                i + 1
            };
            assert(e == seq![105u8] + sdec(n) + seq![101u8]);
            assert(e[0] == 105);
            lemma_byte_at(s, i, e, 1);
            if n < 0 {
                assert(e[1] == 45);
                lemma_byte_at(s, i, e, 2);
                assert(e[2] == d[0]);
            } else {
                assert(e[1] == d[0]);
            }
            assert forall|t: int| start <= t < start + d.len() implies is_digit(
                #[trigger] s[t],
            ) by {
                lemma_byte_at(s, i, e, t - i);
                assert(e[t - i] == d[t - start]);
            }
            lemma_byte_at(s, i, e, start - i + d.len() as int);
            assert(e[start - i + d.len() as int] == 101);
            assert(s[start + d.len()] == 101);
            lemma_digit_run_exact(s, start, start + d.len() as int);
            assert forall|t: int|
                0 <= t < d.len() implies s.subrange(start, start + d.len() as int)[t] == d[t] by {
                lemma_byte_at(s, i, e, start - i + t);
                assert(e[start - i + t] == d[t]);
            }
            assert(s.subrange(start, start + d.len() as int) =~= d);
        },
        BValue::Str(b) => {
            lemma_dec_props(b.len() as int);
            let d = dec(b.len() as int);
            assert(e == dec(b.len() as int) + seq![58u8] + b);
            assert(e[0] == d[0]);
            assert forall|t: int| i <= t < i + d.len() implies is_digit(#[trigger] s[t]) by {
                lemma_byte_at(s, i, e, t - i);
                assert(e[t - i] == d[t - i]);
            }
            lemma_byte_at(s, i, e, d.len() as int);
            assert(e[d.len() as int] == 58);
            assert(s[i + d.len()] == 58);
            lemma_digit_run_exact(s, i, i + d.len() as int);
            assert forall|t: int|
                0 <= t < d.len() implies s.subrange(i, i + d.len() as int)[t] == d[t] by {
                lemma_byte_at(s, i, e, t);
            }
            assert(s.subrange(i, i + d.len() as int) =~= d);
            assert forall|t: int|
                0 <= t < b.len() implies s.subrange(
                i + d.len() + 1,
                i + d.len() + 1 + b.len() as int,
            )[t] == b[t] by {
                lemma_byte_at(s, i, e, d.len() + 1 + t);
                assert(e[d.len() + 1 + t] == b[t]);
            }
            assert(s.subrange(i + d.len() + 1, i + d.len() + 1 + b.len() as int) =~= b);
        },
        BValue::List(l) => {
            assert(e == seq![108u8] + enc_list(l) + seq![101u8]);
            assert(e[0] == 108);
            assert(l.skip(0) =~= l);
            let tb = enc_list(l);
            assert forall|t: int|
                0 <= t < tb.len() implies s.subrange(i + 1, i + 1 + tb.len() as int)[t]
                == tb[t] by {
                lemma_byte_at(s, i, e, 1 + t);
                assert(e[1 + t] == tb[t]);
            }
            assert(s.subrange(i + 1, i + 1 + tb.len() as int) =~= tb);
            lemma_byte_at(s, i, e, 1 + tb.len() as int);
            assert(e[1 + tb.len() as int] == 101);
            assert(s[i + 1 + tb.len()] == 101);
            lemma_parse_list_items(l, 0, Seq::empty(), s, i + 1);
            assert(Seq::<BValue>::empty() + l =~= l);
        },
        BValue::Dict(es) => {
            assert(e == seq![100u8] + enc_pairs(es) + seq![101u8]);
            assert(e[0] == 100);
            assert(es.skip(0) =~= es);
            let tb = enc_pairs(es);
            assert forall|t: int|
                0 <= t < tb.len() implies s.subrange(i + 1, i + 1 + tb.len() as int)[t]
                == tb[t] by {
                lemma_byte_at(s, i, e, 1 + t);
                assert(e[1 + t] == tb[t]);
            }
            assert(s.subrange(i + 1, i + 1 + tb.len() as int) =~= tb);
            lemma_byte_at(s, i, e, 1 + tb.len() as int);
            assert(e[1 + tb.len() as int] == 101);
            assert(s[i + 1 + tb.len()] == 101);
            assert(es.subrange(0, 0) =~= Seq::<(Seq<u8>, BValue)>::empty());
            lemma_parse_dict_items(es, 0, s, i + 1);
        },
    }
}

/// Parsing the serialized tail of a list, from element `idx` on, collects
/// exactly the remaining elements and stops at the closing `e`.
pub proof fn lemma_parse_list_items(
    elems: Seq<BValue>,
    idx: int,
    acc: Seq<BValue>,
    s: Seq<u8>,
    i: int,
)
    requires
        wf_list(elems),
        0 <= idx <= elems.len(),
        0 <= i,
        i + enc_list(elems.skip(idx)).len() + 1 <= s.len(),
        s.subrange(i, i + enc_list(elems.skip(idx)).len() as int) == enc_list(elems.skip(idx)),
        s[i + enc_list(elems.skip(idx)).len()] == 101,
    ensures
        spec_list_items(s, i, acc) == Ok::<(BValue, int), (ErrorKind, int)>(
            (BValue::List(acc + elems.skip(idx)), i + enc_list(elems.skip(idx)).len() + 1),
        ),
    decreases elems, elems.len() - idx,
{
    let rest = elems.skip(idx);
    let tb = enc_list(rest);
    if idx == elems.len() {
        assert(rest =~= Seq::<BValue>::empty());
        assert(enc_list(rest) == enc_list(Seq::<BValue>::empty()));
        assert(tb.len() == 0);
        assert(s[i] == 101);
        assert(acc + rest =~= acc);
    } else {
        assert(rest.len() > 0);
        assert(rest[0] == elems[idx]);
        assert(rest.drop_first() =~= elems.skip(idx + 1));
        let h = encoded_c(elems[idx]);
        let tb2 = enc_list(elems.skip(idx + 1));
        assert(tb == h + tb2);
        lemma_wf_list(elems);
        assert(wf(elems[idx]));
        lemma_enc_first(elems[idx]);
        lemma_byte_at(s, i, tb, 0);
        assert(tb[0] == h[0]);
        assert(s[i + 0] == h[0]);
        assert forall|t: int|
            0 <= t < h.len() implies s.subrange(i, i + h.len() as int)[t] == h[t] by {
            lemma_byte_at(s, i, tb, t);
            assert(tb[t] == h[t]);
        }
        assert(s.subrange(i, i + h.len() as int) =~= h);
        lemma_parse_encoded(elems[idx], s, i);
        let j = i + h.len();
        assert forall|t: int|
            0 <= t < tb2.len() implies s.subrange(j, j + tb2.len() as int)[t] == tb2[t] by {
            lemma_byte_at(s, i, tb, h.len() + t);
            assert(tb[h.len() + t] == tb2[t]);
        }
        assert(s.subrange(j, j + tb2.len() as int) =~= tb2);
        assert(s[j + tb2.len()] == 101);
        lemma_parse_list_items(elems, idx + 1, acc.push(elems[idx]), s, j);
        assert(acc.push(elems[idx]) + elems.skip(idx + 1) =~= acc + rest);
    }
}

/// Parsing the serialized tail of a dictionary whose keys ascend, from
/// entry `idx` on, collects exactly the remaining entries in order and
/// stops at the closing `e`.
pub proof fn lemma_parse_dict_items(es: Seq<(Seq<u8>, BValue)>, idx: int, s: Seq<u8>, i: int)
    requires
        keys_sorted(es),
        wf_pairs(es),
        0 <= idx <= es.len(),
        0 <= i,
        i + enc_pairs(es.skip(idx)).len() + 1 <= s.len(),
        s.subrange(i, i + enc_pairs(es.skip(idx)).len() as int) == enc_pairs(es.skip(idx)),
        s[i + enc_pairs(es.skip(idx)).len()] == 101,
    ensures
        spec_dict_items(s, i, es.subrange(0, idx)) == Ok::<(BValue, int), (ErrorKind, int)>(
            (BValue::Dict(es), i + enc_pairs(es.skip(idx)).len() + 1),
        ),
    decreases es, es.len() - idx,
{
    let rest = es.skip(idx);
    let tb = enc_pairs(rest);
    if idx == es.len() {
        assert(rest =~= Seq::<(Seq<u8>, BValue)>::empty());
        assert(enc_pairs(rest) == enc_pairs(Seq::<(Seq<u8>, BValue)>::empty()));
        assert(tb.len() == 0);
        assert(s[i] == 101);
        assert(es.subrange(0, idx) =~= es);
    } else {
        assert(rest.len() > 0);
        assert(rest[0] == es[idx]);
        assert(rest.drop_first() =~= es.skip(idx + 1));
        let key = es[idx].0;
        let val = es[idx].1;
        let kd = dec(key.len() as int);
        let pb = pair_bytes(es[idx]);
        let tb2 = enc_pairs(es.skip(idx + 1));
        assert(tb == pb + tb2);
        assert(pb == dec(key.len() as int) + seq![58u8] + key + encoded_c(val));
        lemma_dec_props(key.len() as int);
        lemma_wf_pairs(es);
        assert(wf(val));
        lemma_enc_first(val);
        // the key token: digits, `:`, the key bytes
        assert forall|t: int| i <= t < i + kd.len() implies is_digit(#[trigger] s[t]) by {
            lemma_byte_at(s, i, tb, t - i);
            assert(tb[t - i] == pb[t - i]);
            assert(pb[t - i] == kd[t - i]);
        }
        lemma_byte_at(s, i, tb, kd.len() as int);
        assert(tb[kd.len() as int] == pb[kd.len() as int]);
        assert(pb[kd.len() as int] == 58);
        assert(s[i + kd.len()] == 58);
        lemma_digit_run_exact(s, i, i + kd.len() as int);
        assert forall|t: int|
            0 <= t < kd.len() implies s.subrange(i, i + kd.len() as int)[t] == kd[t] by {
            lemma_byte_at(s, i, tb, t);
            assert(tb[t] == kd[t]);
        }
        assert(s.subrange(i, i + kd.len() as int) =~= kd);
        let j = i + kd.len() + 1 + key.len();
        assert forall|t: int|
            0 <= t < key.len() implies s.subrange(i + kd.len() + 1, j as int)[t] == key[t] by {
            lemma_byte_at(s, i, tb, kd.len() + 1 + t);
            assert(tb[kd.len() + 1 + t] == key[t]);
        }
        assert(s.subrange(i + kd.len() + 1, j as int) =~= key);
        assert(s[i + 0] == kd[0]);
        // the value follows immediately
        let h = encoded_c(val);
        assert forall|t: int|
            0 <= t < h.len() implies s.subrange(j, j + h.len() as int)[t] == h[t] by {
            lemma_byte_at(s, i, tb, kd.len() + 1 + key.len() + t);
            assert(tb[kd.len() + 1 + key.len() + t] == h[t]);
        }
        assert(s.subrange(j, j + h.len() as int) =~= h);
        lemma_byte_at(s, i, tb, kd.len() + 1 + key.len() as int);
        assert(tb[kd.len() + 1 + key.len() as int] == h[0]);
        assert(s[j] == h[0]);
        lemma_parse_encoded(val, s, j);
        let j2 = j + h.len();
        // the parsed entry appends at the end of the accumulated prefix
        assert forall|m: int| 0 <= m < es.subrange(0, idx).len() implies lex_lt(
            #[trigger] es.subrange(0, idx)[m].0,
            key,
        ) by {
            assert(es.subrange(0, idx)[m] == es[m]);
        }
        lemma_insert_append(es.subrange(0, idx), key, val);
        assert((key, val) == es[idx]);
        assert(es.subrange(0, idx).push(es[idx]) =~= es.subrange(0, idx + 1));
        // and the remaining entries parse by induction
        assert forall|t: int|
            0 <= t < tb2.len() implies s.subrange(j2, j2 + tb2.len() as int)[t] == tb2[t] by {
            lemma_byte_at(s, i, tb, pb.len() + t);
            assert(tb[pb.len() + t] == tb2[t]);
        }
        assert(s.subrange(j2, j2 + tb2.len() as int) =~= tb2);
        assert(s[j2 + tb2.len()] == 101);
        lemma_parse_dict_items(es, idx + 1, s, j2);
    }
}

/// Round trip: decoding the serialization of a well-formed value yields
/// exactly that value.
pub proof fn lemma_round_trip(v: BValue)
    requires
        wf(v),
    ensures
        spec_decode(encoded(v)) == Ok::<BValue, (ErrorKind, int)>(v),
{
    lemma_canonv_id(v);
    let e = encoded_c(v);
    assert(e.subrange(0, e.len() as int) =~= e);
    lemma_parse_encoded(v, e, 0);
}

/// Round trip up to dictionary entry order: decoding the serialization of
/// any value whose integers are representable yields its canonical form,
/// the same value with every dictionary put into ascending key order.
pub proof fn lemma_round_trip_canonical(v: BValue)
    requires
        ints_ok(v),
    ensures
        spec_decode(encoded(v)) == Ok::<BValue, (ErrorKind, int)>(canonv(v)),
{
    lemma_canonv_wf(v);
    let w = canonv(v);
    let e = encoded_c(w);
    assert(e.subrange(0, e.len() as int) =~= e);
    lemma_parse_encoded(w, e, 0);
}

/// Serializing is idempotent across a decode: serializing what a
/// serialization decodes to gives the same bytes again.
pub proof fn lemma_encode_idempotent(v: BValue)
    requires
        ints_ok(v),
    ensures
        spec_decode(encoded(v)) matches Ok(w) && encoded(w) == encoded(v),
{
    lemma_round_trip_canonical(v);
    lemma_canonv_wf(v);
    lemma_canonv_id(canonv(v));
}

/// A dictionary's serialization is its entries' bytes in canonical order:
/// whatever order the entries were supplied in, the keys laid out between
/// the `d` and the `e` ascend strictly.
pub proof fn lemma_encode_dict_canonical(es: Seq<(Seq<u8>, BValue)>)
    ensures
        encoded(BValue::Dict(es)) == seq![100u8] + enc_pairs(sort_pairs(canon_pairs(es)))
            + seq![101u8],
        keys_sorted(sort_pairs(canon_pairs(es))),
{
    lemma_sort_pairs_sorted(canon_pairs(es));
}

/// Entries with distinct keys may be inserted in either order: the
/// resulting entries are the same, so a dictionary's serialization does not
/// depend on the order its entries were supplied in.
pub proof fn lemma_insert_commutes(
    es: Seq<(Seq<u8>, BValue)>,
    k1: Seq<u8>,
    v1: BValue,
    k2: Seq<u8>,
    v2: BValue,
)
    requires
        k1 != k2,
    ensures
        spec_insert(spec_insert(es, k1, v1), k2, v2) == spec_insert(
            spec_insert(es, k2, v2),
            k1,
            v1,
        ),
    decreases es.len(),
{
    lemma_lex_total(k1, k2);
    if lex_lt(k1, k2) {
        lemma_insert_commutes_lt(es, k1, v1, k2, v2);
    } else {
        lemma_insert_commutes_lt(es, k2, v2, k1, v1);
    }
}

/// The ordered case of `lemma_insert_commutes`.
proof fn lemma_insert_commutes_lt(
    es: Seq<(Seq<u8>, BValue)>,
    k1: Seq<u8>,
    v1: BValue,
    k2: Seq<u8>,
    v2: BValue,
)
    requires
        lex_lt(k1, k2),
    ensures
        spec_insert(spec_insert(es, k1, v1), k2, v2) == spec_insert(
            spec_insert(es, k2, v2),
            k1,
            v1,
        ),
    decreases es.len(),
{
    lemma_lex_total(k1, k2);
    if es.len() == 0 {
        assert((seq![(k1, v1)]).drop_first() =~= Seq::<(Seq<u8>, BValue)>::empty());
        assert(spec_insert(spec_insert(es, k1, v1), k2, v2) =~= spec_insert(
            spec_insert(es, k2, v2),
            k1,
            v1,
        ));
    } else {
        let h = es[0];
        let tail = es.drop_first();
        lemma_lex_total(k1, h.0);
        lemma_lex_total(k2, h.0);
        assert((seq![(k1, v1)] + es).drop_first() =~= es);
        assert((seq![(k2, v2)] + es).drop_first() =~= es);
        assert((seq![(k1, v1)] + tail).drop_first() =~= tail);
        assert((seq![(k2, v2)] + tail).drop_first() =~= tail);
        assert((seq![h] + spec_insert(tail, k1, v1)).drop_first() =~= spec_insert(tail, k1, v1));
        assert((seq![h] + spec_insert(tail, k2, v2)).drop_first() =~= spec_insert(tail, k2, v2));
        if lex_lt(k2, h.0) {
            crate::value::lemma_lex_trans(k1, k2, h.0);
            assert(spec_insert(spec_insert(es, k1, v1), k2, v2) =~= spec_insert(
                spec_insert(es, k2, v2),
                k1,
                v1,
            ));
        } else if k2 == h.0 {
            assert(spec_insert(spec_insert(es, k1, v1), k2, v2) =~= spec_insert(
                spec_insert(es, k2, v2),
                k1,
                v1,
            ));
        } else if lex_lt(k1, h.0) {
            // k1 below the head, k2 above it
            assert(spec_insert(spec_insert(es, k1, v1), k2, v2) =~= spec_insert(
                spec_insert(es, k2, v2),
                k1,
                v1,
            ));
        } else if k1 == h.0 {
            assert(spec_insert(spec_insert(es, k1, v1), k2, v2) =~= spec_insert(
                spec_insert(es, k2, v2),
                k1,
                v1,
            ));
        } else {
            // both keys land past the head
            crate::value::lemma_lex_trans(h.0, k1, k2);
            lemma_insert_commutes_lt(tail, k1, v1, k2, v2);
            assert(spec_insert(spec_insert(es, k1, v1), k2, v2) =~= spec_insert(
                spec_insert(es, k2, v2),
                k1,
                v1,
            ));
        }
    }
}

/// A later entry with the same key overwrites an earlier one entirely.
pub proof fn lemma_insert_last_wins(es: Seq<(Seq<u8>, BValue)>, k: Seq<u8>, v1: BValue, v2: BValue)
    ensures
        spec_insert(spec_insert(es, k, v1), k, v2) == spec_insert(es, k, v2),
    decreases es.len(),
{
    lemma_lex_total(k, k);
    if es.len() == 0 {
        assert(spec_insert(spec_insert(es, k, v1), k, v2) =~= spec_insert(es, k, v2));
    } else if lex_lt(k, es[0].0) {
        assert((seq![(k, v1)] + es).drop_first() =~= es);
        assert(spec_insert(spec_insert(es, k, v1), k, v2) =~= spec_insert(es, k, v2));
    } else if k == es[0].0 {
        assert((seq![(k, v1)] + es.drop_first()).drop_first() =~= es.drop_first());
        assert(spec_insert(spec_insert(es, k, v1), k, v2) =~= spec_insert(es, k, v2));
    } else {
        lemma_insert_last_wins(es.drop_first(), k, v1, v2);
        assert((seq![es[0]] + spec_insert(es.drop_first(), k, v1))[0] == es[0]);
        assert((seq![es[0]] + spec_insert(es.drop_first(), k, v1)).drop_first() =~= spec_insert(
            es.drop_first(),
            k,
            v1,
        ));
        assert(spec_insert(spec_insert(es, k, v1), k, v2) =~= spec_insert(es, k, v2));
    }
}

} // verus!
