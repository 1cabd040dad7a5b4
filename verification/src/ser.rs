//! The serializer: the specification of canonical Bencode bytes, the
//! `Encode` trait, and verified emitters for integers, byte strings, lists
//! and dictionaries.  Dictionaries are always emitted with keys in strictly
//! ascending byte-wise order, whatever order their entries are held in.

use vstd::prelude::*;
use vstd::string::StrSliceExecFns;
use vstd::string::StringSliceAdditionalSpecFns;

use crate::value::BValue;
use crate::value::Bencodable;
use crate::value::bview;
use crate::value::canon_list;
use crate::value::canon_pairs;
use crate::value::canonv;
use crate::value::find_pos;
use crate::value::lemma_find_pos_unique;
use crate::value::lemma_insert_shape;
use crate::value::lemma_pairs_view;
use crate::value::lex_cmp;
use crate::value::lex_lt;
use crate::value::list_view;
use crate::value::pairs_view;
use crate::value::sort_pairs;
use crate::value::spec_insert;
use crate::value::KeyOrd;

verus! {

broadcast use vstd::seq::group_seq_axioms, vstd::std_specs::vec::group_vec_axioms;

/// Decimal digits of a non-negative integer, most significant first,
/// without leading zeros.
pub open spec fn dec(n: int) -> Seq<u8>
    recommends
        n >= 0,
    decreases n,
{
    if n < 10 {
        seq![(48 + n) as u8]
    } else {
        dec(n / 10).push((48 + n % 10) as u8)
    }
}

/// Minimal signed decimal representation: a `-` sign only when negative.
pub open spec fn sdec(n: int) -> Seq<u8> {
    if n < 0 {
        seq![45u8] + dec(-n)
    } else {
        dec(n)
    }
}

/// The serialized bytes of one dictionary entry: the key as a
/// length-prefixed string, then the value.
pub open spec fn pair_bytes(p: (Seq<u8>, BValue)) -> Seq<u8>
    decreases p,
{
    dec(p.0.len() as int) + seq![58u8] + p.0 + encoded_c(p.1)
}

/// The concatenated serializations of a sequence of values.
pub open spec fn enc_list(l: Seq<BValue>) -> Seq<u8>
    decreases l,
{
    if l.len() == 0 {
        Seq::empty()
    } else {
        encoded_c(l[0]) + enc_list(l.drop_first())
    }
}

/// The concatenated serializations of a sequence of dictionary entries.
pub open spec fn enc_pairs(es: Seq<(Seq<u8>, BValue)>) -> Seq<u8>
    decreases es,
{
    if es.len() == 0 {
        Seq::empty()
    } else {
        pair_bytes(es[0]) + enc_pairs(es.drop_first())
    }
}

/// The Bencode bytes of a value already in canonical form, emitted
/// structurally: `i...e`, `<len>:<bytes>`, `l...e`, `d...e`.
pub open spec fn encoded_c(v: BValue) -> Seq<u8>
    decreases v,
{
    match v {
        BValue::Int(i) => seq![105u8] + sdec(i) + seq![101u8],
        BValue::Str(s) => dec(s.len() as int) + seq![58u8] + s,
        BValue::List(l) => seq![108u8] + enc_list(l) + seq![101u8],
        BValue::Dict(es) => seq![100u8] + enc_pairs(es) + seq![101u8],
    }
}

/// The canonical serialization of any value: the structural bytes of its
/// canonical form, so every dictionary appears with ascending keys.
pub open spec fn encoded(v: BValue) -> Seq<u8> {
    encoded_c(canonv(v))
}

/// Serializing a list with one more value at the end appends that value's
/// bytes.
pub proof fn lemma_enc_list_snoc(l: Seq<BValue>, x: BValue)
    ensures
        enc_list(l.push(x)) == enc_list(l) + encoded_c(x),
    decreases l.len(),
{
    if l.len() == 0 {
        assert(l.push(x)[0] == x);
        assert(l.push(x).drop_first() =~= Seq::<BValue>::empty());
        assert(enc_list(l.push(x)) == encoded_c(x) + enc_list(Seq::<BValue>::empty()));
        assert(encoded_c(x) + Seq::<u8>::empty() =~= Seq::<u8>::empty() + encoded_c(x));
    } else {
        assert(l.push(x)[0] == l[0]);
        assert(l.push(x).drop_first() =~= l.drop_first().push(x));
        lemma_enc_list_snoc(l.drop_first(), x);
        assert(encoded_c(l[0]) + (enc_list(l.drop_first()) + encoded_c(x)) =~= (encoded_c(l[0])
            + enc_list(l.drop_first())) + encoded_c(x));
    }
}

/// Serializing entries with one more entry at the end appends that entry's
/// bytes.
pub proof fn lemma_enc_pairs_snoc(es: Seq<(Seq<u8>, BValue)>, p: (Seq<u8>, BValue))
    ensures
        enc_pairs(es.push(p)) == enc_pairs(es) + pair_bytes(p),
    decreases es.len(),
{
    if es.len() == 0 {
        assert(es.push(p)[0] == p);
        assert(es.push(p).drop_first() =~= Seq::<(Seq<u8>, BValue)>::empty());
        assert(enc_pairs(es.push(p)) == pair_bytes(p) + enc_pairs(
            Seq::<(Seq<u8>, BValue)>::empty(),
        ));
        assert(pair_bytes(p) + Seq::<u8>::empty() =~= Seq::<u8>::empty() + pair_bytes(p));
    } else {
        assert(es.push(p)[0] == es[0]);
        assert(es.push(p).drop_first() =~= es.drop_first().push(p));
        lemma_enc_pairs_snoc(es.drop_first(), p);
        assert(pair_bytes(es[0]) + (enc_pairs(es.drop_first()) + pair_bytes(p)) =~= (pair_bytes(
            es[0],
        ) + enc_pairs(es.drop_first())) + pair_bytes(p));
    }
}

/// The model entries selected by `order` out of `es`, values canonicalized.
pub open spec fn ordview(es: Seq<(Vec<u8>, Bencodable)>, order: Seq<usize>) -> Seq<
    (Seq<u8>, BValue),
>
    decreases order.len(),
{
    if order.len() == 0 {
        Seq::empty()
    } else {
        ordview(es, order.drop_last()).push(
            (es[order.last() as int].0@, canonv(bview(es[order.last() as int].1))),
        )
    }
}

/// `ordview` selects entries pointwise.
pub proof fn lemma_ordview(es: Seq<(Vec<u8>, Bencodable)>, order: Seq<usize>)
    requires
        forall|j: int| 0 <= j < order.len() ==> #[trigger] order[j] < es.len(),
    ensures
        ordview(es, order).len() == order.len(),
        forall|j: int|
            0 <= j < order.len() ==> #[trigger] ordview(es, order)[j] == (
                es[order[j] as int].0@,
                canonv(bview(es[order[j] as int].1)),
            ),
    decreases order.len(),
{
    if order.len() > 0 {
        lemma_ordview(es, order.drop_last());
        assert forall|j: int| 0 <= j < order.len() implies #[trigger] ordview(es, order)[j] == (
            es[order[j] as int].0@,
            canonv(bview(es[order[j] as int].1)),
        ) by {
            if j < order.len() - 1 {
                assert(order.drop_last()[j] == order[j]);
                assert(ordview(es, order)[j] == ordview(es, order.drop_last())[j]);
            }
        }
    }
}

/// Serialization into Bencode bytes.
pub trait Encode {
    /// The bytes that `encode` returns.
    spec fn encoded_spec(&self) -> Seq<u8>;

    /// Serialize this value into Bencode bytes.
    fn encode(&self) -> (r: Vec<u8>)
        ensures
            r@ == self.encoded_spec(),
    ;
}

/// Append the decimal digits of `n` to `out`.
fn push_uint(out: &mut Vec<u8>, n: u128)
    ensures
        final(out)@ == old(out)@ + dec(n as int),
    decreases n,
{
    if n < 10 {
        out.push(48 + n as u8);
        proof {
            assert(out@ =~= old(out)@ + dec(n as int));
        }
    } else {
        push_uint(out, n / 10);
        let d = (n % 10) as u8;
        out.push(48 + d);
        proof {
            assert(out@ =~= old(out)@ + dec(n as int));
        }
    }
}

/// Append `i`, the signed decimal digits of `n`, then `e`.
fn push_int_token(out: &mut Vec<u8>, n: i128)
    ensures
        final(out)@ == old(out)@ + seq![105u8] + sdec(n as int) + seq![101u8],
{
    out.push(105);
    if n < 0 {
        out.push(45);
        let mag: u128 = if n == i128::MIN {
            170141183460469231731687303715884105728u128
        } else {
            (-n) as u128
        };
        proof {
            assert(mag as int == -(n as int));
        }
        push_uint(out, mag);
    } else {
        push_uint(out, n as u128);
    }
    out.push(101);
    proof {
        assert(out@ =~= old(out)@ + seq![105u8] + sdec(n as int) + seq![101u8]);
    }
}

/// Append `i`, the decimal digits of `n`, then `e`.
fn push_uint_token(out: &mut Vec<u8>, n: u128)
    ensures
        final(out)@ == old(out)@ + seq![105u8] + dec(n as int) + seq![101u8],
{
    out.push(105);
    push_uint(out, n);
    out.push(101);
    proof {
        assert(out@ =~= old(out)@ + seq![105u8] + dec(n as int) + seq![101u8]);
    }
}

/// Append a byte string token: its length in decimal, `:`, its bytes.
fn push_str_token(out: &mut Vec<u8>, s: &Vec<u8>)
    ensures
        final(out)@ == old(out)@ + dec(s@.len() as int) + seq![58u8] + s@,
{
    push_uint(out, s.len() as u128);
    out.push(58);
    proof {
        assert(out@ =~= old(out)@ + dec(s@.len() as int) + seq![58u8] + s@.subrange(0, 0));
    }
    let mut k: usize = 0;
    while k < s.len()
        invariant
            k <= s@.len(),
            out@ == old(out)@ + dec(s@.len() as int) + seq![58u8] + s@.subrange(0, k as int),
        decreases s@.len() - k,
    {
        out.push(s[k]);
        proof {
            assert(s@.subrange(0, k as int + 1) =~= s@.subrange(0, k as int).push(s@[k as int]));
            assert(out@ =~= old(out)@ + dec(s@.len() as int) + seq![58u8] + s@.subrange(
                0,
                k as int + 1,
            ));
        }
        k += 1;
    }
    proof {
        assert(s@.subrange(0, s@.len() as int) =~= s@);
    }
}

impl Encode for String {
    open spec fn encoded_spec(&self) -> Seq<u8> {
        dec(vstd::utf8::encode_utf8(self@).len() as int) + seq![58u8] + vstd::utf8::encode_utf8(
            self@,
        )
    }

    fn encode(&self) -> (r: Vec<u8>) {
        let bv: Vec<u8> = self.as_str().as_bytes_vec();
        let mut out: Vec<u8> = Vec::new();
        push_str_token(&mut out, &bv);
        proof {
            assert(out@ =~= self.encoded_spec());
        }
        out
    }
}

impl Encode for usize {
    open spec fn encoded_spec(&self) -> Seq<u8> {
        seq![105u8] + sdec(*self as int) + seq![101u8]
    }

    fn encode(&self) -> (r: Vec<u8>) {
        let mut out: Vec<u8> = Vec::new();
        push_uint_token(&mut out, *self as u128);
        proof {
            assert(out@ =~= self.encoded_spec());
        }
        out
    }
}

impl Encode for u8 {
    open spec fn encoded_spec(&self) -> Seq<u8> {
        seq![105u8] + sdec(*self as int) + seq![101u8]
    }

    fn encode(&self) -> (r: Vec<u8>) {
        let mut out: Vec<u8> = Vec::new();
        push_uint_token(&mut out, *self as u128);
        proof {
            assert(out@ =~= self.encoded_spec());
        }
        out
    }
}

impl Encode for u16 {
    open spec fn encoded_spec(&self) -> Seq<u8> {
        seq![105u8] + sdec(*self as int) + seq![101u8]
    }

    fn encode(&self) -> (r: Vec<u8>) {
        let mut out: Vec<u8> = Vec::new();
        push_uint_token(&mut out, *self as u128);
        proof {
            assert(out@ =~= self.encoded_spec());
        }
        out
    }
}

impl Encode for u32 {
    open spec fn encoded_spec(&self) -> Seq<u8> {
        seq![105u8] + sdec(*self as int) + seq![101u8]
    }

    fn encode(&self) -> (r: Vec<u8>) {
        let mut out: Vec<u8> = Vec::new();
        push_uint_token(&mut out, *self as u128);
        proof {
            assert(out@ =~= self.encoded_spec());
        }
        out
    }
}

impl Encode for u64 {
    open spec fn encoded_spec(&self) -> Seq<u8> {
        seq![105u8] + sdec(*self as int) + seq![101u8]
    }

    fn encode(&self) -> (r: Vec<u8>) {
        let mut out: Vec<u8> = Vec::new();
        push_uint_token(&mut out, *self as u128);
        proof {
            assert(out@ =~= self.encoded_spec());
        }
        out
    }
}

impl Encode for u128 {
    open spec fn encoded_spec(&self) -> Seq<u8> {
        seq![105u8] + sdec(*self as int) + seq![101u8]
    }

    fn encode(&self) -> (r: Vec<u8>) {
        let mut out: Vec<u8> = Vec::new();
        push_uint_token(&mut out, *self);
        proof {
            assert(out@ =~= self.encoded_spec());
        }
        out
    }
}

impl Encode for isize {
    open spec fn encoded_spec(&self) -> Seq<u8> {
        seq![105u8] + sdec(*self as int) + seq![101u8]
    }

    fn encode(&self) -> (r: Vec<u8>) {
        let mut out: Vec<u8> = Vec::new();
        push_int_token(&mut out, *self as i128);
        proof {
            assert(out@ =~= self.encoded_spec());
        }
        out
    }
}

impl Encode for i8 {
    open spec fn encoded_spec(&self) -> Seq<u8> {
        seq![105u8] + sdec(*self as int) + seq![101u8]
    }

    fn encode(&self) -> (r: Vec<u8>) {
        let mut out: Vec<u8> = Vec::new();
        push_int_token(&mut out, *self as i128);
        proof {
            assert(out@ =~= self.encoded_spec());
        }
        out
    }
}

impl Encode for i16 {
    open spec fn encoded_spec(&self) -> Seq<u8> {
        seq![105u8] + sdec(*self as int) + seq![101u8]
    }

    fn encode(&self) -> (r: Vec<u8>) {
        let mut out: Vec<u8> = Vec::new();
        push_int_token(&mut out, *self as i128);
        proof {
            assert(out@ =~= self.encoded_spec());
        }
        out
    }
}

impl Encode for i32 {
    open spec fn encoded_spec(&self) -> Seq<u8> {
        seq![105u8] + sdec(*self as int) + seq![101u8]
    }

    fn encode(&self) -> (r: Vec<u8>) {
        let mut out: Vec<u8> = Vec::new();
        push_int_token(&mut out, *self as i128);
        proof {
            assert(out@ =~= self.encoded_spec());
        }
        out
    }
}

impl Encode for i64 {
    open spec fn encoded_spec(&self) -> Seq<u8> {
        seq![105u8] + sdec(*self as int) + seq![101u8]
    }

    fn encode(&self) -> (r: Vec<u8>) {
        let mut out: Vec<u8> = Vec::new();
        push_int_token(&mut out, *self as i128);
        proof {
            assert(out@ =~= self.encoded_spec());
        }
        out
    }
}

impl Encode for i128 {
    open spec fn encoded_spec(&self) -> Seq<u8> {
        seq![105u8] + sdec(*self as int) + seq![101u8]
    }

    fn encode(&self) -> (r: Vec<u8>) {
        let mut out: Vec<u8> = Vec::new();
        push_int_token(&mut out, *self);
        proof {
            assert(out@ =~= self.encoded_spec());
        }
        out
    }
}

/// The concatenated serializations of a sequence of encodable items.
pub open spec fn enc_items<T: Encode>(l: Seq<T>) -> Seq<u8>
    decreases l.len(),
{
    if l.len() == 0 {
        Seq::empty()
    } else {
        enc_items(l.drop_last()) + l.last().encoded_spec()
    }
}

impl<T: Encode> Encode for Vec<T> {
    open spec fn encoded_spec(&self) -> Seq<u8> {
        seq![108u8] + enc_items(self@) + seq![101u8]
    }

    fn encode(&self) -> (r: Vec<u8>) {
        let mut out: Vec<u8> = Vec::new();
        out.push(108);
        proof {
            assert(out@ =~= seq![108u8] + enc_items(self@.subrange(0, 0)));
        }
        let mut k: usize = 0;
        while k < self.len()
            invariant
                k <= self@.len(),
                out@ == seq![108u8] + enc_items(self@.subrange(0, k as int)),
            decreases self@.len() - k,
        {
            let mut e = self[k].encode();
            out.append(&mut e);
            proof {
                assert(self@.subrange(0, k as int + 1).drop_last() =~= self@.subrange(0, k as int));
                assert(self@.subrange(0, k as int + 1).last() == self@[k as int]);
                assert(out@ =~= seq![108u8] + enc_items(self@.subrange(0, k as int + 1)));
            }
            k += 1;
        }
        out.push(101);
        proof {
            assert(self@.subrange(0, self@.len() as int) =~= self@);
            assert(out@ =~= seq![108u8] + enc_items(self@) + seq![101u8]);
        }
        out
    }
}

impl Encode for Bencodable {
    open spec fn encoded_spec(&self) -> Seq<u8> {
        encoded(bview(*self))
    }

    fn encode(&self) -> (r: Vec<u8>) {
        enc_value(self)
    }
}

/// Serialize one value tree: the bytes of the canonical form of its view.
pub fn enc_value(v: &Bencodable) -> (r: Vec<u8>)
    ensures
        r@ == encoded(v@),
    decreases *v,
{
    let mut out: Vec<u8> = Vec::new();
    match v {
        Bencodable::Int(i) => {
            push_int_token(&mut out, *i as i128);
            proof {
                assert(out@ =~= encoded(v@));
            }
        },
        Bencodable::Str(s) => {
            push_str_token(&mut out, s);
            proof {
                assert(out@ =~= encoded(v@));
            }
        },
        Bencodable::List(l) => {
            out.push(108);
            proof {
                assert(list_view(l@.subrange(0, 0)) =~= Seq::<BValue>::empty());
                assert(canon_list(Seq::<BValue>::empty()) =~= Seq::<BValue>::empty());
                assert(out@ =~= seq![108u8] + enc_list(
                    canon_list(list_view(l@.subrange(0, 0))),
                ));
            }
            let mut k: usize = 0;
            #[verifier::loop_isolation(false)]
            while k < l.len()
                invariant
                    k <= l@.len(),
                    out@ == seq![108u8] + enc_list(canon_list(list_view(l@.subrange(0, k as int)))),
                decreases l@.len() - k,
            {
                proof {
                    assert(decreases_to!(*v => *l));
                    assert(decreases_to!(*l => l@));
                    assert(decreases_to!(l@ => l@[k as int]));
                }
                let mut e = enc_value(&l[k]);
                out.append(&mut e);
                proof {
                    let pre = l@.subrange(0, k as int);
                    let cur = l@.subrange(0, k as int + 1);
                    assert(cur.drop_last() =~= pre);
                    assert(cur.last() == l@[k as int]);
                    assert(list_view(cur) == list_view(pre).push(bview(l@[k as int])));
                    assert(list_view(pre).push(bview(l@[k as int])).drop_last() =~= list_view(pre));
                    assert(canon_list(list_view(cur)) == canon_list(list_view(pre)).push(
                        canonv(bview(l@[k as int])),
                    ));
                    lemma_enc_list_snoc(canon_list(list_view(pre)), canonv(bview(l@[k as int])));
                    assert(out@ =~= seq![108u8] + enc_list(canon_list(list_view(cur))));
                }
                k += 1;
            }
            out.push(101);
            proof {
                assert(l@.subrange(0, l@.len() as int) =~= l@);
                assert(out@ =~= encoded(v@));
            }
        },
        Bencodable::Dict(es) => {
            // Pass one: the canonical order of the entries, as indices into
            // `es`, keys ascending, a later duplicate key replacing an
            // earlier one.
            let mut order: Vec<usize> = Vec::new();
            let mut k: usize = 0;
            proof {
                assert(pairs_view(es@.subrange(0, 0)) =~= Seq::<(Seq<u8>, BValue)>::empty());
                assert(sort_pairs(canon_pairs(pairs_view(es@.subrange(0, 0)))) =~= Seq::<
                    (Seq<u8>, BValue),
                >::empty());
            }
            while k < es.len()
                invariant
                    k <= es@.len(),
                    forall|j: int| 0 <= j < order@.len() ==> #[trigger] order@[j] < es@.len(),
                    ordview(es@, order@) == sort_pairs(
                        canon_pairs(pairs_view(es@.subrange(0, k as int))),
                    ),
                decreases es@.len() - k,
            {
                proof {
                    lemma_ordview(es@, order@);
                }
                let ghost sv = ordview(es@, order@);
                let mut j: usize = 0;
                loop
                    invariant
                        j <= order@.len(),
                        k < es@.len(),
                        forall|m: int| 0 <= m < order@.len() ==> #[trigger] order@[m] < es@.len(),
                        sv == ordview(es@, order@),
                        sv.len() == order@.len(),
                        forall|m: int|
                            0 <= m < order@.len() ==> #[trigger] sv[m] == (
                                es@[order@[m] as int].0@,
                                canonv(bview(es@[order@[m] as int].1)),
                            ),
                        forall|m: int| 0 <= m < j ==> lex_lt(#[trigger] sv[m].0, es@[k as int].0@),
                    ensures
                        j <= order@.len(),
                        forall|m: int| 0 <= m < j ==> lex_lt(#[trigger] sv[m].0, es@[k as int].0@),
                        j < order@.len() ==> !lex_lt(sv[j as int].0, es@[k as int].0@),
                    decreases order@.len() - j,
                {
                    if j == order.len() {
                        break ;
                    }
                    let c = lex_cmp(&es[order[j]].0, &es[k].0);
                    match c {
                        KeyOrd::Less => {
                            j = j + 1;
                        },
                        _ => {
                            break ;
                        },
                    }
                }
                let ghost newp = (es@[k as int].0@, canonv(bview(es@[k as int].1)));
                proof {
                    lemma_find_pos_unique(sv, newp.0, j as int);
                    lemma_insert_shape(sv, newp.0, newp.1);
                }
                let mut replaced = false;
                if j < order.len() {
                    let c = lex_cmp(&es[order[j]].0, &es[k].0);
                    match c {
                        KeyOrd::Equal => {
                            order.remove(j);
                            order.insert(j, k);
                            replaced = true;
                            proof {
                                lemma_ordview(es@, order@);
                                assert(ordview(es@, order@) =~= sv.update(j as int, newp));
                            }
                        },
                        _ => {},
                    }
                }
                if !replaced {
                    order.insert(j, k);
                    proof {
                        lemma_ordview(es@, order@);
                        assert(ordview(es@, order@) =~= sv.insert(j as int, newp));
                    }
                }
                proof {
                    let pre = es@.subrange(0, k as int);
                    let cur = es@.subrange(0, k as int + 1);
                    assert(cur.drop_last() =~= pre);
                    assert(cur.last() == es@[k as int]);
                    assert(pairs_view(cur) == pairs_view(pre).push(
                        (es@[k as int].0@, bview(es@[k as int].1)),
                    ));
                    let pv = pairs_view(pre);
                    let q = (es@[k as int].0@, bview(es@[k as int].1));
                    assert(pv.push(q).drop_last() =~= pv);
                    assert(canon_pairs(pv.push(q)) == canon_pairs(pv).push((q.0, canonv(q.1))));
                    let cq = canon_pairs(pv);
                    assert(cq.push((q.0, canonv(q.1))).drop_last() =~= cq);
                    assert(sort_pairs(canon_pairs(pairs_view(cur))) == spec_insert(
                        sort_pairs(cq),
                        q.0,
                        canonv(q.1),
                    ));
                    assert(ordview(es@, order@) == sort_pairs(canon_pairs(pairs_view(cur))));
                }
                k += 1;
            }
            proof {
                assert(es@.subrange(0, es@.len() as int) =~= es@);
                lemma_ordview(es@, order@);
            }
            // Pass two: emit the entries in that order.
            let ghost fin = ordview(es@, order@);
            out.push(100);
            proof {
                assert(fin.subrange(0, 0) =~= Seq::<(Seq<u8>, BValue)>::empty());
                assert(out@ =~= seq![100u8] + enc_pairs(fin.subrange(0, 0)));
            }
            let mut j: usize = 0;
            #[verifier::loop_isolation(false)]
            while j < order.len()
                invariant
                    j <= order@.len(),
                    fin == ordview(es@, order@),
                    fin.len() == order@.len(),
                    forall|m: int| 0 <= m < order@.len() ==> #[trigger] order@[m] < es@.len(),
                    forall|m: int|
                        0 <= m < order@.len() ==> #[trigger] fin[m] == (
                            es@[order@[m] as int].0@,
                            canonv(bview(es@[order@[m] as int].1)),
                        ),
                    out@ == seq![100u8] + enc_pairs(fin.subrange(0, j as int)),
                decreases order@.len() - j,
            {
                let idx = order[j];
                push_str_token(&mut out, &es[idx].0);
                proof {
                    assert(decreases_to!(*v => *es));
                    assert(decreases_to!(*es => es@));
                    assert(decreases_to!(es@ => es@[idx as int]));
                    assert(decreases_to!(es@[idx as int] => es@[idx as int].1));
                }
                let mut e = enc_value(&es[idx].1);
                out.append(&mut e);
                proof {
                    assert(fin.subrange(0, j as int + 1).drop_last() =~= fin.subrange(0, j as int));
                    assert(fin.subrange(0, j as int + 1).last() == fin[j as int]);
                    assert(fin.subrange(0, j as int + 1) =~= fin.subrange(0, j as int).push(
                        fin[j as int],
                    ));
                    lemma_enc_pairs_snoc(fin.subrange(0, j as int), fin[j as int]);
                    assert(out@ =~= seq![100u8] + enc_pairs(fin.subrange(0, j as int + 1)));
                }
                j += 1;
            }
            out.push(101);
            proof {
                assert(fin.subrange(0, fin.len() as int) =~= fin);
                assert(out@ =~= encoded(v@));
            }
        },
    }
    out
}

} // verus!
