use vstd::prelude::*;

verus! {

/// A bencode value: an opaque byte string, a signed 64-bit integer, an
/// ordered list, or a dictionary of byte-string keys.  Dictionary entries
/// are held as a sequence of pairs; canonical values keep them sorted by
/// raw byte order of the keys.
#[derive(Debug, PartialEq, Eq)]
pub enum BencodeValue {
    ByteString(Vec<u8>),
    Integer(i64),
    List(Vec<BencodeValue>),
    Dictionary(Vec<(Vec<u8>, BencodeValue)>),
}

/// The mathematical model of a bencode value tree.
pub enum SpecValue {
    Bytes(Seq<u8>),
    Int(int),
    List(Seq<SpecValue>),
    Dict(Seq<(Seq<u8>, SpecValue)>),
}

/// The model of an executable value.
pub open spec fn view_of(v: BencodeValue) -> SpecValue
    decreases v,
{
    match v {
        BencodeValue::ByteString(b) => SpecValue::Bytes(b@),
        BencodeValue::Integer(i) => SpecValue::Int(i as int),
        BencodeValue::List(l) => SpecValue::List(views_of(l@)),
        BencodeValue::Dictionary(d) => SpecValue::Dict(pair_views_of(d@)),
    }
}

/// The models of a sequence of executable values, element by element.
pub open spec fn views_of(l: Seq<BencodeValue>) -> Seq<SpecValue>
    decreases l,
{
    if l.len() == 0 {
        Seq::empty()
    } else {
        views_of(l.drop_last()).push(view_of(l.last()))
    }
}

/// The models of a sequence of key/value pairs, element by element.
pub open spec fn pair_views_of(d: Seq<(Vec<u8>, BencodeValue)>) -> Seq<(Seq<u8>, SpecValue)>
    decreases d,
{
    if d.len() == 0 {
        Seq::empty()
    } else {
        pair_views_of(d.drop_last()).push((d.last().0@, view_of(d.last().1)))
    }
}

/// Element views line up with the elements.
pub proof fn lemma_views_of_index(l: Seq<BencodeValue>)
    ensures
        views_of(l).len() == l.len(),
        forall|i: int| 0 <= i < l.len() ==> views_of(l)[i] == view_of(#[trigger] l[i]),
    decreases l,
{
    if l.len() > 0 {
        lemma_views_of_index(l.drop_last());
        assert forall|i: int| 0 <= i < l.len() implies views_of(l)[i] == view_of(
            #[trigger] l[i],
        ) by {
            if i < l.len() - 1 {
                assert(l.drop_last()[i] == l[i]);
                assert(views_of(l)[i] == views_of(l.drop_last())[i]);
            }
        }
    }
}

/// Pair views line up with the pairs.
pub proof fn lemma_pair_views_of_index(d: Seq<(Vec<u8>, BencodeValue)>)
    ensures
        pair_views_of(d).len() == d.len(),
        forall|i: int|
            0 <= i < d.len() ==> pair_views_of(d)[i] == ((#[trigger] d[i]).0@, view_of(d[i].1)),
    decreases d,
{
    if d.len() > 0 {
        lemma_pair_views_of_index(d.drop_last());
        assert forall|i: int| 0 <= i < d.len() implies pair_views_of(d)[i] == ((
        #[trigger] d[i]).0@, view_of(d[i].1)) by {
            if i < d.len() - 1 {
                assert(d.drop_last()[i] == d[i]);
                assert(pair_views_of(d)[i] == pair_views_of(d.drop_last())[i]);
            }
        }
    }
}

/// Strict lexicographic order on byte strings by raw byte value: a proper
/// prefix sorts before its extensions.
pub open spec fn lex_lt(a: Seq<u8>, b: Seq<u8>) -> bool
    decreases a.len(),
{
    if b.len() == 0 {
        false
    } else if a.len() == 0 {
        true
    } else if a[0] < b[0] {
        true
    } else if a[0] > b[0] {
        false
    } else {
        lex_lt(a.drop_first(), b.drop_first())
    }
}

/// The order is irreflexive.
pub proof fn lemma_lex_irrefl(a: Seq<u8>)
    ensures
        !lex_lt(a, a),
    decreases a.len(),
{
    if a.len() > 0 {
        lemma_lex_irrefl(a.drop_first());
    }
}

/// The order is transitive.
pub proof fn lemma_lex_trans(a: Seq<u8>, b: Seq<u8>, c: Seq<u8>)
    requires
        lex_lt(a, b),
        lex_lt(b, c),
    ensures
        lex_lt(a, c),
    decreases a.len(),
{
    if a.len() > 0 && b.len() > 0 && c.len() > 0 && a[0] == b[0] && b[0] == c[0] {
        lemma_lex_trans(a.drop_first(), b.drop_first(), c.drop_first());
    }
}

/// The order is total: two unordered byte strings are equal.
pub proof fn lemma_lex_total(a: Seq<u8>, b: Seq<u8>)
    requires
        !lex_lt(a, b),
        !lex_lt(b, a),
    ensures
        a == b,
    decreases a.len(),
{
    if a.len() > 0 && b.len() > 0 {
        lemma_lex_total(a.drop_first(), b.drop_first());
        assert(a =~= seq![a[0]] + a.drop_first());
        assert(b =~= seq![b[0]] + b.drop_first());
    } else {
        assert(a =~= b);
    }
}

/// The entries of a dictionary stand in strictly ascending key order.
pub open spec fn sorted_pairs(d: Seq<(Seq<u8>, SpecValue)>) -> bool {
    forall|p: int, q: int| 0 <= p < q < d.len() ==> lex_lt((#[trigger] d[p]).0, (#[trigger] d[q]).0)
}

/// No two entries of a dictionary share a key.
pub open spec fn distinct_keys(d: Seq<(Seq<u8>, SpecValue)>) -> bool {
    forall|p: int, q: int| 0 <= p < q < d.len() ==> (#[trigger] d[p]).0 != (#[trigger] d[q]).0
}

/// Whether `k` occurs among the keys of the pair sequence `d`.
pub open spec fn has_key(d: Seq<(Seq<u8>, SpecValue)>, k: Seq<u8>) -> bool {
    exists|i: int| 0 <= i < d.len() && (#[trigger] d[i]).0 == k
}

/// Pushing one pair extends key membership by exactly that pair's key.
pub proof fn lemma_has_key_push(acc: Seq<(Seq<u8>, SpecValue)>, p: (Seq<u8>, SpecValue), k: Seq<u8>)
    ensures
        has_key(acc.push(p), k) == (has_key(acc, k) || p.0 == k),
{
    if has_key(acc.push(p), k) {
        let w = choose|i: int| 0 <= i < acc.push(p).len() && (#[trigger] acc.push(p)[i]).0 == k;
        if w < acc.len() {
            assert(acc[w].0 == k);
        }
    }
    if has_key(acc, k) {
        let w = choose|i: int| 0 <= i < acc.len() && (#[trigger] acc[i]).0 == k;
        assert(acc.push(p)[w].0 == k);
    }
    if p.0 == k {
        assert(acc.push(p)[acc.len() as int].0 == k);
    }
}

/// Canonical well-formedness: every dictionary in the tree keeps its keys
/// strictly sorted in raw byte order.
pub open spec fn wf(t: SpecValue) -> bool
    decreases t,
{
    match t {
        SpecValue::Bytes(_) => true,
        SpecValue::Int(_) => true,
        SpecValue::List(l) => forall|i: int| 0 <= i < l.len() ==> wf(#[trigger] l[i]),
        SpecValue::Dict(d) => sorted_pairs(d) && forall|i: int|
            0 <= i < d.len() ==> wf((#[trigger] d[i]).1),
    }
}

/// Key uniqueness: every dictionary in the tree has pairwise distinct keys,
/// in whatever order they stand.
pub open spec fn all_uniq(t: SpecValue) -> bool
    decreases t,
{
    match t {
        SpecValue::Bytes(_) => true,
        SpecValue::Int(_) => true,
        SpecValue::List(l) => forall|i: int| 0 <= i < l.len() ==> all_uniq(#[trigger] l[i]),
        SpecValue::Dict(d) => distinct_keys(d) && forall|i: int|
            0 <= i < d.len() ==> all_uniq((#[trigger] d[i]).1),
    }
}

/// A canonical tree in particular has distinct keys everywhere.
pub proof fn lemma_wf_implies_uniq(t: SpecValue)
    requires
        wf(t),
    ensures
        all_uniq(t),
    decreases t,
{
    match t {
        SpecValue::Bytes(_) => {},
        SpecValue::Int(_) => {},
        SpecValue::List(l) => {
            assert forall|i: int| 0 <= i < l.len() implies all_uniq(#[trigger] l[i]) by {
                lemma_wf_implies_uniq(l[i]);
            }
        },
        SpecValue::Dict(d) => {
            assert forall|p: int, q: int| 0 <= p < q < d.len() implies (#[trigger] d[p]).0 != (
            #[trigger] d[q]).0 by {
                lemma_lex_irrefl(d[p].0);
            }
            assert forall|i: int| 0 <= i < d.len() implies all_uniq((#[trigger] d[i]).1) by {
                lemma_wf_implies_uniq(d[i].1);
            }
        },
    }
}

/// Every integer of the tree fits in a signed 64-bit value, as the format
/// requires.
pub open spec fn int_bounded(t: SpecValue) -> bool
    decreases t,
{
    match t {
        SpecValue::Bytes(_) => true,
        SpecValue::Int(i) => i64::MIN <= i <= i64::MAX,
        SpecValue::List(l) => forall|i: int| 0 <= i < l.len() ==> int_bounded(#[trigger] l[i]),
        SpecValue::Dict(d) => forall|i: int|
            0 <= i < d.len() ==> int_bounded((#[trigger] d[i]).1),
    }
}

/// The model of an executable value keeps every integer within 64 bits.
pub proof fn lemma_view_int_bounded(v: BencodeValue)
    ensures
        int_bounded(view_of(v)),
    decreases v,
{
    match v {
        BencodeValue::ByteString(_) => {},
        BencodeValue::Integer(_) => {},
        BencodeValue::List(l) => {
            lemma_views_of_index(l@);
            assert forall|i: int|
                0 <= i < views_of(l@).len() implies int_bounded(#[trigger] views_of(l@)[i]) by {
                lemma_view_int_bounded(l@[i]);
            }
        },
        BencodeValue::Dictionary(d) => {
            lemma_pair_views_of_index(d@);
            assert forall|i: int|
                0 <= i < pair_views_of(d@).len() implies int_bounded(
                (#[trigger] pair_views_of(d@)[i]).1,
            ) by {
                lemma_view_int_bounded(d@[i].1);
            }
        },
    }
}

/// Nesting depth of a tree: byte strings and integers sit at depth zero, and
/// each list or dictionary adds one level above its deepest child.
pub open spec fn height_of(t: SpecValue) -> nat
    decreases t,
{
    match t {
        SpecValue::Bytes(_) => 0,
        SpecValue::Int(_) => 0,
        SpecValue::List(l) => 1 + heights_of(l),
        SpecValue::Dict(d) => 1 + pair_heights_of(d),
    }
}

/// The largest height among the elements of a sequence.
pub open spec fn heights_of(l: Seq<SpecValue>) -> nat
    decreases l,
{
    if l.len() == 0 {
        0
    } else if height_of(l.first()) >= heights_of(l.drop_first()) {
        height_of(l.first())
    } else {
        heights_of(l.drop_first())
    }
}

/// The largest height among the values of a pair sequence.
pub open spec fn pair_heights_of(d: Seq<(Seq<u8>, SpecValue)>) -> nat
    decreases d,
{
    if d.len() == 0 {
        0
    } else if height_of(d.first().1) >= pair_heights_of(d.drop_first()) {
        height_of(d.first().1)
    } else {
        pair_heights_of(d.drop_first())
    }
}

/// Every element of a sequence stays at or under the sequence's height.
pub proof fn lemma_heights_of_bound(l: Seq<SpecValue>)
    ensures
        forall|i: int| 0 <= i < l.len() ==> height_of(#[trigger] l[i]) <= heights_of(l),
    decreases l,
{
    if l.len() > 0 {
        lemma_heights_of_bound(l.drop_first());
        assert forall|i: int| 0 <= i < l.len() implies height_of(#[trigger] l[i]) <= heights_of(
            l,
        ) by {
            if i > 0 {
                assert(l[i] == l.drop_first()[i - 1]);
            }
        }
    }
}

/// Every value of a pair sequence stays at or under the sequence's height.
pub proof fn lemma_pair_heights_of_bound(d: Seq<(Seq<u8>, SpecValue)>)
    ensures
        forall|i: int|
            0 <= i < d.len() ==> height_of((#[trigger] d[i]).1) <= pair_heights_of(d),
    decreases d,
{
    if d.len() > 0 {
        lemma_pair_heights_of_bound(d.drop_first());
        assert forall|i: int| 0 <= i < d.len() implies height_of((#[trigger] d[i]).1)
            <= pair_heights_of(d) by {
            if i > 0 {
                assert(d[i] == d.drop_first()[i - 1]);
            }
        }
    }
}

} // verus!
