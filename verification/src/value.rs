//! The value model: the executable `Bencodable` tree, its mathematical view
//! `BValue`, byte-wise lexicographic ordering of keys, and the canonical form
//! of dictionaries (keys strictly ascending, a repeated key keeps its last
//! value).

use vstd::prelude::*;

verus! {

broadcast use vstd::seq::group_seq_axioms, vstd::std_specs::vec::group_vec_axioms;

/// The mathematical model of a Bencode value.
pub enum BValue {
    /// A signed integer.
    Int(int),
    /// A byte string.
    Str(Seq<u8>),
    /// An ordered sequence of values.
    List(Seq<BValue>),
    /// A dictionary: a sequence of key/value entries.
    Dict(Seq<(Seq<u8>, BValue)>),
}

/// A decoded Bencode value tree.
///
/// A `Dict` holds its entries as a vector of key/value pairs; entries may be
/// given in any order, and a repeated key means the later entry wins.
/// Serialization always emits dictionary keys in ascending byte-wise order.
#[derive(Debug, PartialEq)]
pub enum Bencodable {
    /// A dictionary of byte-string keys to values.
    Dict(Vec<(Vec<u8>, Bencodable)>),
    /// An ordered list of values.
    List(Vec<Bencodable>),
    /// A byte string.
    Str(Vec<u8>),
    /// A signed integer.
    Int(i64),
}

/// The view of a sequence of executable values.
pub open spec fn list_view(l: Seq<Bencodable>) -> Seq<BValue>
    decreases l,
{
    if l.len() == 0 {
        Seq::empty()
    } else {
        list_view(l.drop_last()).push(bview(l.last()))
    }
}

/// The view of a sequence of executable dictionary entries.
pub open spec fn pairs_view(es: Seq<(Vec<u8>, Bencodable)>) -> Seq<(Seq<u8>, BValue)>
    decreases es,
{
    if es.len() == 0 {
        Seq::empty()
    } else {
        pairs_view(es.drop_last()).push((es.last().0@, bview(es.last().1)))
    }
}

/// The view of an executable value.
pub open spec fn bview(v: Bencodable) -> BValue
    decreases v,
{
    match v {
        Bencodable::Int(i) => BValue::Int(i as int),
        Bencodable::Str(s) => BValue::Str(s@),
        Bencodable::List(l) => BValue::List(list_view(l@)),
        Bencodable::Dict(es) => BValue::Dict(pairs_view(es@)),
    }
}

impl View for Bencodable {
    type V = BValue;

    open spec fn view(&self) -> BValue {
        bview(*self)
    }
}

/// Copy a byte string.
fn clone_bytes(s: &Vec<u8>) -> (res: Vec<u8>)
    ensures
        res@ == s@,
{
    let mut b: Vec<u8> = Vec::new();
    let mut k: usize = 0;
    while k < s.len()
        invariant
            k <= s@.len(),
            b@ == s@.subrange(0, k as int),
        decreases s@.len() - k,
    {
        b.push(s[k]);
        proof {
            assert(s@.subrange(0, k as int + 1) =~= s@.subrange(0, k as int).push(s@[k as int]));
        }
        k += 1;
    }
    proof {
        assert(s@.subrange(0, s@.len() as int) =~= s@);
    }
    b
}

/// Copy a value tree; the copy stands for the same value.
fn clone_value(v: &Bencodable) -> (res: Bencodable)
    ensures
        res@ == v@,
    decreases *v,
{
    match v {
        Bencodable::Int(i) => Bencodable::Int(*i),
        Bencodable::Str(s) => Bencodable::Str(clone_bytes(s)),
        Bencodable::List(l) => {
            let mut out: Vec<Bencodable> = Vec::new();
            let mut k: usize = 0;
            proof {
                assert(list_view(out@) =~= list_view(l@.subrange(0, 0)));
            }
            #[verifier::loop_isolation(false)]
            while k < l.len()
                invariant
                    k <= l@.len(),
                    list_view(out@) == list_view(l@.subrange(0, k as int)),
                decreases l@.len() - k,
            {
                proof {
                    assert(decreases_to!(*v => *l));
                    assert(decreases_to!(*l => l@));
                    assert(decreases_to!(l@ => l@[k as int]));
                }
                let c = clone_value(&l[k]);
                let ghost oldout = out@;
                out.push(c);
                proof {
                    assert(out@.drop_last() =~= oldout);
                    let cur = l@.subrange(0, k as int + 1);
                    assert(cur.drop_last() =~= l@.subrange(0, k as int));
                    assert(cur.last() == l@[k as int]);
                    assert(list_view(out@) == list_view(cur));
                }
                k += 1;
            }
            proof {
                assert(l@.subrange(0, l@.len() as int) =~= l@);
            }
            Bencodable::List(out)
        },
        Bencodable::Dict(es) => {
            let mut out: Vec<(Vec<u8>, Bencodable)> = Vec::new();
            let mut k: usize = 0;
            proof {
                assert(pairs_view(out@) =~= pairs_view(es@.subrange(0, 0)));
            }
            #[verifier::loop_isolation(false)]
            while k < es.len()
                invariant
                    k <= es@.len(),
                    pairs_view(out@) == pairs_view(es@.subrange(0, k as int)),
                decreases es@.len() - k,
            {
                proof {
                    assert(decreases_to!(*v => *es));
                    assert(decreases_to!(*es => es@));
                    assert(decreases_to!(es@ => es@[k as int]));
                    assert(decreases_to!(es@[k as int] => es@[k as int].1));
                }
                let ck = clone_bytes(&es[k].0);
                let cv = clone_value(&es[k].1);
                let ghost oldout = out@;
                out.push((ck, cv));
                proof {
                    assert(out@.drop_last() =~= oldout);
                    let cur = es@.subrange(0, k as int + 1);
                    assert(cur.drop_last() =~= es@.subrange(0, k as int));
                    assert(cur.last() == es@[k as int]);
                    assert(pairs_view(out@) == pairs_view(cur));
                }
                k += 1;
            }
            proof {
                assert(es@.subrange(0, es@.len() as int) =~= es@);
            }
            Bencodable::Dict(out)
        },
    }
}

impl Clone for Bencodable {
    /// The copy stands for the same value as the one cloned.
    fn clone(&self) -> (res: Self)
        ensures
            res@ == self@,
    {
        clone_value(self)
    }
}

/// Strict byte-wise lexicographic order: `a` sorts before `b`.
pub open spec fn lex_lt(a: Seq<u8>, b: Seq<u8>) -> bool
    decreases a.len(),
{
    if b.len() == 0 {
        false
    } else if a.len() == 0 {
        true
    } else if a[0] < b[0] {
        true
    } else if a[0] > b[0] {
        false
    } else {
        lex_lt(a.drop_first(), b.drop_first())
    }
}

/// The keys of the entries are strictly ascending (so also duplicate-free).
pub open spec fn keys_sorted(es: Seq<(Seq<u8>, BValue)>) -> bool {
    forall|i: int, j: int|
        #![trigger es[i], es[j]]
        0 <= i < j < es.len() ==> lex_lt(es[i].0, es[j].0)
}

/// Every element of the list is well-formed.
pub open spec fn wf_list(l: Seq<BValue>) -> bool
    decreases l,
{
    if l.len() == 0 {
        true
    } else {
        wf_list(l.drop_last()) && wf(l.last())
    }
}

/// Every entry value is well-formed.
pub open spec fn wf_pairs(es: Seq<(Seq<u8>, BValue)>) -> bool
    decreases es,
{
    if es.len() == 0 {
        true
    } else {
        wf_pairs(es.drop_last()) && wf(es.last().1)
    }
}

/// Every integer in each element of the list is representable.
pub open spec fn ints_ok_list(l: Seq<BValue>) -> bool
    decreases l,
{
    if l.len() == 0 {
        true
    } else {
        ints_ok_list(l.drop_last()) && ints_ok(l.last())
    }
}

/// Every integer in each entry value is representable.
pub open spec fn ints_ok_pairs(es: Seq<(Seq<u8>, BValue)>) -> bool
    decreases es,
{
    if es.len() == 0 {
        true
    } else {
        ints_ok_pairs(es.drop_last()) && ints_ok(es.last().1)
    }
}

/// Every integer in the tree fits the executable integer type.  Dictionaries
/// may hold their entries in any order.
pub open spec fn ints_ok(v: BValue) -> bool
    decreases v,
{
    match v {
        BValue::Int(n) => i64::MIN <= n <= i64::MAX,
        BValue::Str(_) => true,
        BValue::List(l) => ints_ok_list(l),
        BValue::Dict(es) => ints_ok_pairs(es),
    }
}

/// A well-formed value: integers are representable and every dictionary in
/// the tree is in canonical form (keys strictly ascending).  Decoding only
/// ever produces well-formed values.
pub open spec fn wf(v: BValue) -> bool
    decreases v,
{
    match v {
        BValue::Int(n) => i64::MIN <= n <= i64::MAX,
        BValue::Str(_) => true,
        BValue::List(l) => wf_list(l),
        BValue::Dict(es) => keys_sorted(es) && wf_pairs(es),
    }
}

/// A list is well-formed exactly when its elements are.
pub proof fn lemma_wf_list(l: Seq<BValue>)
    ensures
        wf_list(l) == (forall|i: int| 0 <= i < l.len() ==> #[trigger] wf(l[i])),
    decreases l.len(),
{
    if l.len() > 0 {
        lemma_wf_list(l.drop_last());
        if wf_list(l) {
            assert forall|i: int| 0 <= i < l.len() implies #[trigger] wf(l[i]) by {
                if i < l.len() - 1 {
                    assert(l.drop_last()[i] == l[i]);
                    assert(wf(l.drop_last()[i]));
                } else {
                    assert(l[i] == l.last());
                }
            }
        } else if !wf_list(l.drop_last()) {
            let i = choose|i: int| 0 <= i < l.drop_last().len() && !(#[trigger] wf(l.drop_last()[i]));
            assert(l.drop_last()[i] == l[i]);
            assert(!wf(l[i]));
        } else {
            assert(l.last() == l[l.len() - 1]);
            assert(!wf(l[l.len() - 1]));
        }
    }
}

/// A dictionary is well-formed exactly when its keys ascend and its values
/// are well-formed.
pub proof fn lemma_wf_pairs(es: Seq<(Seq<u8>, BValue)>)
    ensures
        wf_pairs(es) == (forall|i: int| 0 <= i < es.len() ==> #[trigger] wf(es[i].1)),
    decreases es.len(),
{
    if es.len() > 0 {
        lemma_wf_pairs(es.drop_last());
        if wf_pairs(es) {
            assert forall|i: int| 0 <= i < es.len() implies #[trigger] wf(es[i].1) by {
                if i < es.len() - 1 {
                    assert(es.drop_last()[i] == es[i]);
                    assert(wf(es.drop_last()[i].1));
                } else {
                    assert(es[i] == es.last());
                }
            }
        } else if !wf_pairs(es.drop_last()) {
            let i = choose|i: int|
                0 <= i < es.drop_last().len() && !(#[trigger] wf(es.drop_last()[i].1));
            assert(es.drop_last()[i] == es[i]);
            assert(!wf(es[i].1));
        } else {
            assert(es.last() == es[es.len() - 1]);
            assert(!wf(es[es.len() - 1].1));
        }
    }
}

/// Insert one entry into an entry sequence kept in ascending key order:
/// the new entry lands before the first key not below `k`, and replaces
/// that key's entry if it equals `k`.
pub open spec fn spec_insert(
    es: Seq<(Seq<u8>, BValue)>,
    k: Seq<u8>,
    v: BValue,
) -> Seq<(Seq<u8>, BValue)>
    decreases es.len(),
{
    if es.len() == 0 {
        seq![(k, v)]
    } else if lex_lt(k, es[0].0) {
        seq![(k, v)] + es
    } else if k == es[0].0 {
        seq![(k, v)] + es.drop_first()
    } else {
        seq![es[0]] + spec_insert(es.drop_first(), k, v)
    }
}

/// Canonical order of a dictionary's entries: insert them one by one,
/// so that a later duplicate key overwrites an earlier one.
pub open spec fn sort_pairs(es: Seq<(Seq<u8>, BValue)>) -> Seq<(Seq<u8>, BValue)>
    decreases es.len(),
{
    if es.len() == 0 {
        Seq::empty()
    } else {
        spec_insert(sort_pairs(es.drop_last()), es.last().0, es.last().1)
    }
}

/// Canonicalize each element of a list.
pub open spec fn canon_list(l: Seq<BValue>) -> Seq<BValue>
    decreases l,
{
    if l.len() == 0 {
        Seq::empty()
    } else {
        canon_list(l.drop_last()).push(canonv(l.last()))
    }
}

/// Canonicalize the value of each entry, keeping keys and order.
pub open spec fn canon_pairs(es: Seq<(Seq<u8>, BValue)>) -> Seq<(Seq<u8>, BValue)>
    decreases es,
{
    if es.len() == 0 {
        Seq::empty()
    } else {
        canon_pairs(es.drop_last()).push((es.last().0, canonv(es.last().1)))
    }
}

/// The canonical form of a value: every dictionary in the tree is put into
/// ascending key order with a later duplicate key winning.  Two values that
/// differ only in dictionary entry order have the same canonical form.
pub open spec fn canonv(v: BValue) -> BValue
    decreases v,
{
    match v {
        BValue::Int(_) => v,
        BValue::Str(_) => v,
        BValue::List(l) => BValue::List(canon_list(l)),
        BValue::Dict(es) => BValue::Dict(sort_pairs(canon_pairs(es))),
    }
}

/// `lex_lt` is a strict total order: any two keys are related exactly one way.
pub proof fn lemma_lex_total(a: Seq<u8>, b: Seq<u8>)
    ensures
        lex_lt(a, b) || lex_lt(b, a) || a == b,
        lex_lt(a, b) ==> !lex_lt(b, a),
        lex_lt(a, b) ==> a != b,
    decreases a.len(),
{
    if a.len() > 0 && b.len() > 0 && a[0] == b[0] {
        lemma_lex_total(a.drop_first(), b.drop_first());
        if !lex_lt(a.drop_first(), b.drop_first()) && !lex_lt(b.drop_first(), a.drop_first()) {
            assert(a =~= b) by {
                assert(a.drop_first() == b.drop_first());
                assert forall|i: int| 0 <= i < a.len() implies a[i] == b[i] by {
                    if i > 0 {
                        assert(a[i] == a.drop_first()[i - 1]);
                        assert(b[i] == b.drop_first()[i - 1]);
                    }
                }
            }
        }
        if a == b {
            assert(a.drop_first() == b.drop_first());
        }
    }
}

/// `lex_lt` is transitive.
pub proof fn lemma_lex_trans(a: Seq<u8>, b: Seq<u8>, c: Seq<u8>)
    requires
        lex_lt(a, b),
        lex_lt(b, c),
    ensures
        lex_lt(a, c),
    decreases a.len(),
{
    if a.len() > 0 && b.len() > 0 && c.len() > 0 && a[0] == b[0] && b[0] == c[0] {
        lemma_lex_trans(a.drop_first(), b.drop_first(), c.drop_first());
    }
}

/// Comparing two keys that agree on their first `i` bytes reduces to
/// comparing the remainders.
pub proof fn lemma_lex_common_prefix(a: Seq<u8>, b: Seq<u8>, i: int)
    requires
        0 <= i <= a.len(),
        i <= b.len(),
        forall|j: int| 0 <= j < i ==> a[j] == b[j],
    ensures
        lex_lt(a, b) == lex_lt(a.subrange(i, a.len() as int), b.subrange(i, b.len() as int)),
        (a == b) == (a.subrange(i, a.len() as int) == b.subrange(i, b.len() as int) && a.len()
            == b.len()),
    decreases i,
{
    if i == 0 {
        assert(a.subrange(0, a.len() as int) =~= a);
        assert(b.subrange(0, b.len() as int) =~= b);
    } else {
        lemma_lex_common_prefix(a, b, i - 1);
        let ai = a.subrange(i - 1, a.len() as int);
        let bi = b.subrange(i - 1, b.len() as int);
        assert(ai[0] == bi[0]);
        assert(ai.drop_first() =~= a.subrange(i, a.len() as int));
        assert(bi.drop_first() =~= b.subrange(i, b.len() as int));
        if a.len() == b.len() && a.subrange(i, a.len() as int) == b.subrange(i, b.len() as int) {
            assert(a =~= b) by {
                assert forall|j: int| 0 <= j < a.len() implies a[j] == b[j] by {
                    if j >= i {
                        assert(a[j] == a.subrange(i, a.len() as int)[j - i]);
                        assert(b[j] == b.subrange(i, b.len() as int)[j - i]);
                    }
                }
            }
        }
    }
}

/// The position at which `spec_insert` places a key: the index of the first
/// key not below `k`.
pub open spec fn find_pos(es: Seq<(Seq<u8>, BValue)>, k: Seq<u8>) -> int
    decreases es.len(),
{
    if es.len() == 0 {
        0
    } else if lex_lt(es[0].0, k) {
        1 + find_pos(es.drop_first(), k)
    } else {
        0
    }
}

pub proof fn lemma_find_pos(es: Seq<(Seq<u8>, BValue)>, k: Seq<u8>)
    ensures
        0 <= find_pos(es, k) <= es.len(),
        forall|j: int| 0 <= j < find_pos(es, k) ==> lex_lt(#[trigger] es[j].0, k),
        find_pos(es, k) < es.len() ==> !lex_lt(es[find_pos(es, k)].0, k),
    decreases es.len(),
{
    if es.len() > 0 && lex_lt(es[0].0, k) {
        lemma_find_pos(es.drop_first(), k);
        assert forall|j: int| 0 <= j < find_pos(es, k) implies lex_lt(#[trigger] es[j].0, k) by {
            if j > 0 {
                assert(es[j] == es.drop_first()[j - 1]);
            }
        }
        if find_pos(es, k) < es.len() {
            assert(es[find_pos(es, k)] == es.drop_first()[find_pos(es, k) - 1]);
        }
    }
}

/// The position of `spec_insert` is determined: any index with all keys
/// before it below `k` and the key at it (if any) not below `k` is it.
pub proof fn lemma_find_pos_unique(es: Seq<(Seq<u8>, BValue)>, k: Seq<u8>, i: int)
    requires
        0 <= i <= es.len(),
        forall|j: int| 0 <= j < i ==> lex_lt(#[trigger] es[j].0, k),
        i < es.len() ==> !lex_lt(es[i].0, k),
    ensures
        find_pos(es, k) == i,
    decreases es.len(),
{
    if es.len() > 0 && lex_lt(es[0].0, k) {
        assert(i > 0);
        assert forall|j: int| 0 <= j < i - 1 implies lex_lt(
            #[trigger] es.drop_first()[j].0,
            k,
        ) by {
            assert(es.drop_first()[j] == es[j + 1]);
        }
        if i - 1 < es.drop_first().len() {
            assert(es.drop_first()[i - 1] == es[i]);
        }
        lemma_find_pos_unique(es.drop_first(), k, i - 1);
    }
}

/// What `spec_insert` builds: an in-place update when the key at its position
/// equals `k`, an insertion at that position otherwise.
pub proof fn lemma_insert_shape(es: Seq<(Seq<u8>, BValue)>, k: Seq<u8>, v: BValue)
    ensures
        ({
            let p = find_pos(es, k);
            if p < es.len() && es[p].0 == k {
                spec_insert(es, k, v) == es.update(p, (k, v))
            } else {
                spec_insert(es, k, v) == es.insert(p, (k, v))
            }
        }),
    decreases es.len(),
{
    lemma_lex_total(k, if es.len() > 0 {
        es[0].0
    } else {
        k
    });
    lemma_find_pos(es, k);
    if es.len() > 0 {
        lemma_find_pos(es.drop_first(), k);
    }
    if es.len() == 0 {
        assert(spec_insert(es, k, v) =~= es.insert(0, (k, v)));
    } else if lex_lt(k, es[0].0) {
        assert(seq![(k, v)] + es =~= es.insert(0, (k, v)));
    } else if k == es[0].0 {
        assert(seq![(k, v)] + es.drop_first() =~= es.update(0, (k, v)));
    } else {
        lemma_insert_shape(es.drop_first(), k, v);
        let p = find_pos(es, k);
        assert(p == 1 + find_pos(es.drop_first(), k));
        let p1 = find_pos(es.drop_first(), k);
        if p1 < es.drop_first().len() {
            assert(es.drop_first()[p1] == es[p]);
        }
        if p < es.len() && es[p].0 == k {
            assert(seq![es[0]] + es.drop_first().update(p - 1, (k, v)) =~= es.update(p, (k, v)));
        } else {
            assert(seq![es[0]] + es.drop_first().insert(p - 1, (k, v)) =~= es.insert(p, (k, v)));
        }
    }
}

/// Inserting into a sequence with strictly ascending keys keeps the keys
/// strictly ascending.
pub proof fn lemma_insert_sorted(es: Seq<(Seq<u8>, BValue)>, k: Seq<u8>, v: BValue)
    requires
        keys_sorted(es),
    ensures
        keys_sorted(spec_insert(es, k, v)),
{
    lemma_find_pos(es, k);
    lemma_insert_shape(es, k, v);
    let p = find_pos(es, k);
    let r = spec_insert(es, k, v);
    if p < es.len() && es[p].0 == k {
        assert forall|i: int, j: int|
            #![trigger r[i], r[j]]
            0 <= i < j < r.len() implies lex_lt(r[i].0, r[j].0) by {
            assert(r[i].0 == es[i].0);
            assert(r[j].0 == es[j].0);
        }
    } else {
        if p < es.len() {
            lemma_lex_total(es[p].0, k);
        }
        assert forall|i: int, j: int|
            #![trigger r[i], r[j]]
            0 <= i < j < r.len() implies lex_lt(r[i].0, r[j].0) by {
            if i < p && j == p {
                assert(r[i].0 == es[i].0);
            } else if i < p && j > p {
                assert(r[i].0 == es[i].0);
                assert(r[j].0 == es[j - 1].0);
            } else if i == p && j > p {
                assert(r[j].0 == es[j - 1].0);
                if j - 1 > p {
                    lemma_lex_trans(k, es[p].0, es[j - 1].0);
                }
            } else if i > p {
                assert(r[i].0 == es[i - 1].0);
                assert(r[j].0 == es[j - 1].0);
            } else {
                assert(r[i].0 == es[i].0);
                assert(r[j].0 == es[j].0);
            }
        }
    }
}

/// Inserting a well-formed value among entries with well-formed values
/// keeps every entry value well-formed.
pub proof fn lemma_insert_wf(es: Seq<(Seq<u8>, BValue)>, k: Seq<u8>, v: BValue)
    requires
        wf(v),
        wf_pairs(es),
    ensures
        wf_pairs(spec_insert(es, k, v)),
{
    lemma_wf_pairs(es);
    lemma_find_pos(es, k);
    lemma_insert_shape(es, k, v);
    let p = find_pos(es, k);
    let r = spec_insert(es, k, v);
    lemma_wf_pairs(r);
    assert forall|m: int| 0 <= m < r.len() implies #[trigger] wf(r[m].1) by {
        if p < es.len() && es[p].0 == k {
            if m != p {
                assert(r[m] == es[m]);
            }
        } else {
            if m < p {
                assert(r[m] == es[m]);
            } else if m > p {
                assert(r[m] == es[m - 1]);
            }
        }
    }
}

/// When every key of `es` is below `k`, insertion appends at the end.
pub proof fn lemma_insert_append(es: Seq<(Seq<u8>, BValue)>, k: Seq<u8>, v: BValue)
    requires
        forall|j: int| 0 <= j < es.len() ==> lex_lt(#[trigger] es[j].0, k),
    ensures
        spec_insert(es, k, v) == es.push((k, v)),
{
    lemma_find_pos_unique(es, k, es.len() as int);
    lemma_insert_shape(es, k, v);
    assert(es.insert(es.len() as int, (k, v)) =~= es.push((k, v)));
}

/// `pairs_view` maps entries pointwise.
pub proof fn lemma_pairs_view(es: Seq<(Vec<u8>, Bencodable)>)
    ensures
        pairs_view(es).len() == es.len(),
        forall|j: int|
            0 <= j < es.len() ==> #[trigger] pairs_view(es)[j] == (es[j].0@, bview(es[j].1)),
    decreases es,
{
    if es.len() > 0 {
        lemma_pairs_view(es.drop_last());
        assert forall|j: int| 0 <= j < es.len() implies #[trigger] pairs_view(es)[j] == (
            es[j].0@,
            bview(es[j].1),
        ) by {
            if j < es.len() - 1 {
                assert(es.drop_last()[j] == es[j]);
                assert(pairs_view(es)[j] == pairs_view(es.drop_last())[j]);
            }
        }
    }
}

/// `list_view` maps elements pointwise.
pub proof fn lemma_list_view(l: Seq<Bencodable>)
    ensures
        list_view(l).len() == l.len(),
        forall|j: int| 0 <= j < l.len() ==> #[trigger] list_view(l)[j] == bview(l[j]),
    decreases l,
{
    if l.len() > 0 {
        lemma_list_view(l.drop_last());
        assert forall|j: int| 0 <= j < l.len() implies #[trigger] list_view(l)[j] == bview(
            l[j],
        ) by {
            if j < l.len() - 1 {
                assert(l.drop_last()[j] == l[j]);
                assert(list_view(l)[j] == list_view(l.drop_last())[j]);
            }
        }
    }
}

/// How two keys compare.
#[derive(Clone, Copy, Debug, PartialEq, Eq, Structural)]
pub enum KeyOrd {
    Less,
    Equal,
    Greater,
}

/// Compare two byte strings in byte-wise lexicographic order.
pub fn lex_cmp(a: &Vec<u8>, b: &Vec<u8>) -> (r: KeyOrd)
    ensures
        (r == KeyOrd::Less) == lex_lt(a@, b@),
        (r == KeyOrd::Equal) == (a@ == b@),
        (r == KeyOrd::Greater) == lex_lt(b@, a@),
{
    let mut i: usize = 0;
    while i < a.len() && i < b.len()
        invariant
            i <= a.len(),
            i <= b.len(),
            forall|j: int| 0 <= j < i ==> a@[j] == b@[j],
        decreases a.len() - i,
    {
        if a[i] < b[i] {
            proof {
                lemma_lex_common_prefix(a@, b@, i as int);
                lemma_lex_common_prefix(b@, a@, i as int);
            }
            return KeyOrd::Less;
        }
        if a[i] > b[i] {
            proof {
                lemma_lex_common_prefix(a@, b@, i as int);
                lemma_lex_common_prefix(b@, a@, i as int);
            }
            return KeyOrd::Greater;
        }
        i += 1;
    }
    proof {
        lemma_lex_common_prefix(a@, b@, i as int);
        lemma_lex_common_prefix(b@, a@, i as int);
        if a@.len() == b@.len() {
            assert(a@.subrange(i as int, a@.len() as int) =~= b@.subrange(
                i as int,
                b@.len() as int,
            ));
        }
    }
    if a.len() == b.len() {
        KeyOrd::Equal
    } else if a.len() < b.len() {
        KeyOrd::Less
    } else {
        KeyOrd::Greater
    }
}

/// Insert one entry into an entry vector whose keys may be in any order,
/// exactly as `spec_insert` places it; on a vector kept sorted this
/// maintains ascending keys with a later equal key overwriting.
pub fn insert_entry(es: &mut Vec<(Vec<u8>, Bencodable)>, k: Vec<u8>, v: Bencodable)
    ensures
        pairs_view(final(es)@) == spec_insert(pairs_view(old(es)@), k@, bview(v)),
{
    proof {
        lemma_pairs_view(es@);
    }
    let ghost sv = pairs_view(es@);
    let mut i: usize = 0;
    loop
        invariant
            i <= es.len(),
            es@ == old(es)@,
            sv == pairs_view(es@),
            sv.len() == es@.len(),
            forall|j: int| 0 <= j < es@.len() ==> #[trigger] sv[j] == (es@[j].0@, bview(es@[j].1)),
            forall|j: int| 0 <= j < i ==> lex_lt(#[trigger] sv[j].0, k@),
        ensures
            i <= es@.len(),
            forall|j: int| 0 <= j < i ==> lex_lt(#[trigger] sv[j].0, k@),
            i < es@.len() ==> !lex_lt(sv[i as int].0, k@),
        decreases es@.len() - i,
    {
        if i == es.len() {
            break ;
        }
        let c = lex_cmp(&es[i].0, &k);
        match c {
            KeyOrd::Less => {
                i = i + 1;
            },
            _ => {
                break ;
            },
        }
    }
    proof {
        lemma_find_pos_unique(sv, k@, i as int);
        lemma_insert_shape(sv, k@, bview(v));
    }
    if i < es.len() {
        let c = lex_cmp(&es[i].0, &k);
        match c {
            KeyOrd::Equal => {
                es.remove(i);
                es.insert(i, (k, v));
                proof {
                    lemma_pairs_view(es@);
                    assert(pairs_view(es@) =~= sv.update(i as int, (k@, bview(v))));
                }
                return ;
            },
            _ => {},
        }
    }
    es.insert(i, (k, v));
    proof {
        lemma_pairs_view(es@);
        assert(pairs_view(es@) =~= sv.insert(i as int, (k@, bview(v))));
    }
}

} // verus!
