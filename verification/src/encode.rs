use vstd::prelude::*;
use crate::digits::{dec_digits, int_digits, u64_digits, i64_digits};
use crate::model::{BencodeValue, SpecValue, view_of, views_of, pair_views_of, wf,
    lemma_views_of_index, lemma_pair_views_of_index};

verus! {

/// The encoding of one byte string: decimal length, a colon, the raw bytes.
pub open spec fn enc_bytes(b: Seq<u8>) -> Seq<u8> {
    dec_digits(b.len()) + seq![58u8] + b
}

/// The bencode encoding of a value tree, emitting dictionary entries in
/// their stored order.  On canonical trees (see `wf`) this is the canonical
/// encoding of the format.
pub open spec fn encode_tree(t: SpecValue) -> Seq<u8>
    decreases t,
{
    match t {
        SpecValue::Bytes(b) => enc_bytes(b),
        SpecValue::Int(i) => seq![105u8] + int_digits(i) + seq![101u8],
        SpecValue::List(l) => seq![108u8] + encode_items(l) + seq![101u8],
        SpecValue::Dict(d) => seq![100u8] + encode_pairs(d) + seq![101u8],
    }
}

/// The concatenated encodings of a sequence of values.
pub open spec fn encode_items(l: Seq<SpecValue>) -> Seq<u8>
    decreases l,
{
    if l.len() == 0 {
        Seq::empty()
    } else {
        encode_tree(l.first()) + encode_items(l.drop_first())
    }
}

/// The concatenated encodings of a sequence of key/value pairs.
pub open spec fn encode_pairs(d: Seq<(Seq<u8>, SpecValue)>) -> Seq<u8>
    decreases d,
{
    if d.len() == 0 {
        Seq::empty()
    } else {
        enc_bytes(d.first().0) + encode_tree(d.first().1) + encode_pairs(d.drop_first())
    }
}

/// Appending one more value extends the concatenated encoding at its end.
pub proof fn lemma_encode_items_push(l: Seq<SpecValue>, x: SpecValue)
    ensures
        encode_items(l.push(x)) == encode_items(l) + encode_tree(x),
    decreases l,
{
    if l.len() == 0 {
        assert(l.push(x).drop_first() =~= Seq::<SpecValue>::empty());
        assert(encode_items(Seq::<SpecValue>::empty()) =~= Seq::<u8>::empty());
        assert(encode_items(l.push(x)) =~= encode_items(l) + encode_tree(x));
    } else {
        assert(l.push(x).drop_first() =~= l.drop_first().push(x));
        lemma_encode_items_push(l.drop_first(), x);
        assert(encode_items(l.push(x)) =~= encode_items(l) + encode_tree(x));
    }
}

/// Appending one more pair extends the concatenated encoding at its end.
pub proof fn lemma_encode_pairs_push(d: Seq<(Seq<u8>, SpecValue)>, p: (Seq<u8>, SpecValue))
    ensures
        encode_pairs(d.push(p)) == encode_pairs(d) + enc_bytes(p.0) + encode_tree(p.1),
    decreases d,
{
    if d.len() == 0 {
        assert(d.push(p).drop_first() =~= Seq::<(Seq<u8>, SpecValue)>::empty());
        assert(encode_pairs(Seq::<(Seq<u8>, SpecValue)>::empty()) =~= Seq::<u8>::empty());
        assert(encode_pairs(d.push(p)) =~= encode_pairs(d) + enc_bytes(p.0) + encode_tree(p.1));
    } else {
        assert(d.push(p).drop_first() =~= d.drop_first().push(p));
        lemma_encode_pairs_push(d.drop_first(), p);
        assert(encode_pairs(d.push(p)) =~= encode_pairs(d) + enc_bytes(p.0) + encode_tree(p.1));
    }
}

/// Appends every byte of `src` to `out`.
pub(crate) fn append_all(src: &Vec<u8>, out: &mut Vec<u8>)
    ensures
        final(out)@ == old(out)@ + src@,
{
    let mut k: usize = 0;
    assert(out@ =~= old(out)@ + src@.subrange(0, 0));
    while k < src.len()
        invariant
            k <= src.len(),
            out@ == old(out)@ + src@.subrange(0, k as int),
        decreases src.len() - k,
    {
        out.push(src[k]);
        k = k + 1;
        assert(out@ =~= old(out)@ + src@.subrange(0, k as int));
    }
    assert(src@.subrange(0, src@.len() as int) =~= src@);
}

/// Appends the length-prefixed form of one byte string to `out`.
fn append_byte_string(b: &Vec<u8>, out: &mut Vec<u8>)
    ensures
        final(out)@ == old(out)@ + enc_bytes(b@),
{
    let len_digits = u64_digits(b.len() as u64);
    append_all(&len_digits, out);
    out.push(58u8);
    append_all(b, out);
    assert(out@ =~= old(out)@ + enc_bytes(b@));
}

/// Appends the encoding of `v` to `out`, emitting dictionary entries in
/// their stored order.
fn encode_into(v: &BencodeValue, out: &mut Vec<u8>)
    ensures
        final(out)@ == old(out)@ + encode_tree(view_of(*v)),
    decreases crate::model::height_of(view_of(*v)),
{
    match v {
        BencodeValue::ByteString(b) => {
            append_byte_string(b, out);
        },
        BencodeValue::Integer(i) => {
            out.push(105u8);
            let ds = i64_digits(*i);
            append_all(&ds, out);
            out.push(101u8);
            assert(out@ =~= old(out)@ + encode_tree(view_of(*v)));
        },
        BencodeValue::List(l) => {
            proof {
                lemma_views_of_index(l@);
            }
            out.push(108u8);
            let mut k: usize = 0;
            assert(out@ =~= old(out)@ + seq![108u8] + encode_items(
                views_of(l@).subrange(0, 0),
            ));
            while k < l.len()
                invariant
                    k <= l.len(),
                    view_of(*v) == SpecValue::List(views_of(l@)),
                    views_of(l@).len() == l@.len(),
                    forall|i: int| 0 <= i < l@.len() ==> views_of(l@)[i] == view_of(
                        #[trigger] l@[i],
                    ),
                    out@ == old(out)@ + seq![108u8] + encode_items(
                        views_of(l@).subrange(0, k as int),
                    ),
                decreases l.len() - k,
            {
                proof {
                    crate::model::lemma_heights_of_bound(views_of(l@));
                    assert(view_of(*v) == SpecValue::List(views_of(l@)));
                    assert(crate::model::height_of(view_of(*v)) == 1 + crate::model::heights_of(
                        views_of(l@),
                    ));
                    assert(crate::model::height_of(views_of(l@)[k as int])
                        < crate::model::height_of(view_of(*v)));
                }
                encode_into(&l[k], out);
                proof {
                    lemma_encode_items_push(
                        views_of(l@).subrange(0, k as int),
                        views_of(l@)[k as int],
                    );
                    assert(views_of(l@).subrange(0, k as int).push(views_of(l@)[k as int])
                        =~= views_of(l@).subrange(0, k as int + 1));
                }
                k = k + 1;
                assert(out@ =~= old(out)@ + seq![108u8] + encode_items(
                    views_of(l@).subrange(0, k as int),
                ));
            }
            assert(views_of(l@).subrange(0, views_of(l@).len() as int) =~= views_of(l@));
            out.push(101u8);
            assert(out@ =~= old(out)@ + encode_tree(view_of(*v)));
        },
        BencodeValue::Dictionary(d) => {
            proof {
                lemma_pair_views_of_index(d@);
            }
            out.push(100u8);
            let mut k: usize = 0;
            assert(out@ =~= old(out)@ + seq![100u8] + encode_pairs(
                pair_views_of(d@).subrange(0, 0),
            ));
            while k < d.len()
                invariant
                    k <= d.len(),
                    view_of(*v) == SpecValue::Dict(pair_views_of(d@)),
                    pair_views_of(d@).len() == d@.len(),
                    forall|i: int| 0 <= i < d@.len() ==> pair_views_of(d@)[i] == ((
                    #[trigger] d@[i]).0@, view_of(d@[i].1)),
                    out@ == old(out)@ + seq![100u8] + encode_pairs(
                        pair_views_of(d@).subrange(0, k as int),
                    ),
                decreases d.len() - k,
            {
                let pair = &d[k];
                proof {
                    crate::model::lemma_pair_heights_of_bound(pair_views_of(d@));
                    assert(view_of(*v) == SpecValue::Dict(pair_views_of(d@)));
                    assert(crate::model::height_of(view_of(*v)) == 1
                        + crate::model::pair_heights_of(pair_views_of(d@)));
                    assert(crate::model::height_of(pair_views_of(d@)[k as int].1)
                        < crate::model::height_of(view_of(*v)));
                }
                append_byte_string(&pair.0, out);
                encode_into(&pair.1, out);
                proof {
                    lemma_encode_pairs_push(
                        pair_views_of(d@).subrange(0, k as int),
                        pair_views_of(d@)[k as int],
                    );
                    assert(pair_views_of(d@).subrange(0, k as int).push(
                        pair_views_of(d@)[k as int],
                    ) =~= pair_views_of(d@).subrange(0, k as int + 1));
                }
                k = k + 1;
                assert(out@ =~= old(out)@ + seq![100u8] + encode_pairs(
                    pair_views_of(d@).subrange(0, k as int),
                ));
            }
            assert(pair_views_of(d@).subrange(0, pair_views_of(d@).len() as int)
                =~= pair_views_of(d@));
            out.push(101u8);
            assert(out@ =~= old(out)@ + encode_tree(view_of(*v)));
        },
    }
}

/// Encodes a canonical value: the result is exactly the canonical bencode
/// serialization of the tree.
pub fn encode(v: &BencodeValue) -> (r: Vec<u8>)
    requires
        wf(view_of(*v)),
    ensures
        r@ == encode_tree(view_of(*v)),
{
    let mut out: Vec<u8> = Vec::new();
    encode_into(v, &mut out);
    assert(out@ =~= encode_tree(view_of(*v)));
    out
}

} // verus!
