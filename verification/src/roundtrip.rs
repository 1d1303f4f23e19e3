use vstd::prelude::*;
use crate::digits::{is_digit, dec_digits, int_digits, digits_val, scan_digits,
    lemma_dec_digits_shape, lemma_digits_val_of_dec, lemma_scan_stops};
use crate::model::{BencodeValue, SpecValue, view_of, wf, all_uniq, int_bounded, has_key,
    distinct_keys, height_of, heights_of, pair_heights_of, lemma_wf_implies_uniq,
    lemma_view_int_bounded, lemma_has_key_push};
use crate::encode::{enc_bytes, encode_tree, encode_items, encode_pairs};
use crate::decode::{ParseReason, sp_value, sp_items, sp_pairs};

verus! {

/// An encoding is never empty, and its first byte tells the variant: a
/// digit for byte strings, `i` for integers, `l` for lists, `d` for
/// dictionaries — never the terminator `e`.
proof fn lemma_encode_head(t: SpecValue)
    ensures
        encode_tree(t).len() >= 1,
        t is Bytes ==> is_digit(encode_tree(t)[0]),
        t is Int ==> encode_tree(t)[0] == 105,
        t is List ==> encode_tree(t)[0] == 108,
        t is Dict ==> encode_tree(t)[0] == 100,
        encode_tree(t)[0] != 101,
{
    match t {
        SpecValue::Bytes(b) => {
            lemma_dec_digits_shape(b.len());
            assert(encode_tree(t)[0] == dec_digits(b.len())[0]);
        },
        SpecValue::Int(_) => {},
        SpecValue::List(_) => {},
        SpecValue::Dict(_) => {},
    }
}

/// A window of `s` that holds `a + b` splits into a window holding `a` and
/// one holding `b`.
proof fn lemma_subrange_cat(s: Seq<u8>, i: int, a: Seq<u8>, b: Seq<u8>)
    requires
        0 <= i,
        i + a.len() + b.len() <= s.len(),
        s.subrange(i, i + a.len() + b.len()) == a + b,
    ensures
        s.subrange(i, i + a.len()) == a,
        s.subrange(i + a.len(), i + a.len() + b.len()) == b,
{
    let w = s.subrange(i, i + a.len() + b.len());
    assert forall|t: int| 0 <= t < a.len() implies s.subrange(i, i + a.len() as int)[t] == a[t] by {
        assert(w[t] == (a + b)[t]);
    }
    assert(s.subrange(i, i + a.len() as int) =~= a);
    assert forall|t: int| 0 <= t < b.len() implies s.subrange(
        i + a.len(),
        i + a.len() + b.len(),
    )[t] == b[t] by {
        assert(w[a.len() + t] == (a + b)[a.len() + t]);
    }
    assert(s.subrange(i + a.len(), i + a.len() + b.len()) =~= b);
}

/// Parsing at a window that holds the encoding of `t` succeeds and yields
/// `t` itself, consuming exactly the encoding.
proof fn lemma_parse_encoded(s: Seq<u8>, i: int, t: SpecValue, dep: nat)
    requires
        0 <= i,
        i + encode_tree(t).len() <= s.len(),
        s.subrange(i, i + encode_tree(t).len() as int) == encode_tree(t),
        all_uniq(t),
        int_bounded(t),
        height_of(t) <= dep,
    ensures
        sp_value(s, i, dep) == Ok::<(SpecValue, int), (int, ParseReason)>(
            (t, i + encode_tree(t).len()),
        ),
    decreases height_of(t), 0nat,
{
    let enc = encode_tree(t);
    lemma_encode_head(t);
    assert(s[i] == enc[0]) by {
        assert(s.subrange(i, i + enc.len() as int)[0] == enc[0]);
    }
    assert forall|off: int| 0 <= off < enc.len() implies s[i + off] == enc[off] by {
        assert(s.subrange(i, i + enc.len() as int)[off] == enc[off]);
    }
    match t {
        SpecValue::Bytes(b) => {
            let dl = dec_digits(b.len()).len() as int;
            lemma_dec_digits_shape(b.len());
            assert forall|k: int| i <= k < i + dl implies is_digit(#[trigger] s[k]) by {
                assert(s[k] == enc[k - i]);
                assert(enc[k - i] == dec_digits(b.len())[k - i]);
            }
            assert(s[i + dl] == enc[dl]);
            assert(enc[dl] == 58);
            lemma_scan_stops(s, i, i + dl);
            let j = scan_digits(s, i);
            assert(j == i + dl);
            assert(s.subrange(i, i + dl) =~= dec_digits(b.len())) by {
                assert forall|k: int| 0 <= k < dl implies s.subrange(i, i + dl)[k] == dec_digits(
                    b.len(),
                )[k] by {
                    assert(s[i + k] == enc[k]);
                }
            }
            lemma_digits_val_of_dec(s, i, b.len());
            assert(digits_val(s, i, j) == b.len());
            if s[i] == 48 {
                assert(dec_digits(b.len())[0] == 48);
                assert(b.len() == 0 && dl == 1);
            }
            assert(s.subrange(j + 1, j + 1 + b.len() as int) =~= b) by {
                assert forall|k: int| 0 <= k < b.len() implies s.subrange(
                    j + 1,
                    j + 1 + b.len() as int,
                )[k] == b[k] by {
                    assert(s[i + (dl + 1 + k)] == enc[dl + 1 + k]);
                    assert(enc[dl + 1 + k] == b[k]);
                }
            }
            assert(sp_value(s, i, dep) == Ok::<(SpecValue, int), (int, ParseReason)>(
                (t, i + enc.len()),
            ));
        },
        SpecValue::Int(v) => {
            let idl = int_digits(v).len() as int;
            let start = i + 1;
            let m: nat = if v < 0 {
                (-v) as nat
            } else {
                v as nat
            };
            let dl = dec_digits(m).len() as int;
            lemma_dec_digits_shape(m);
            let ds: int = if v < 0 {
                start + 1
            } else {
                start
            };
            if v < 0 {
                assert(s[start] == enc[1]);
                assert(enc[1] == 45);
            } else {
                assert(s[start] == enc[1]);
                assert(enc[1] == dec_digits(m)[0]);
                assert(is_digit(s[start]));
                assert(s[start] != 45);
            }
            assert forall|k: int| ds <= k < ds + dl implies is_digit(#[trigger] s[k]) by {
                assert(s[k] == enc[k - i]);
                assert(enc[k - i] == dec_digits(m)[k - ds]);
            }
            assert(s[ds + dl] == enc[ds + dl - i]);
            assert(enc[ds + dl - i] == 101);
            lemma_scan_stops(s, ds, ds + dl);
            let j = scan_digits(s, ds);
            assert(j == ds + dl);
            assert(s.subrange(ds, ds + dl) =~= dec_digits(m)) by {
                assert forall|k: int| 0 <= k < dl implies s.subrange(ds, ds + dl)[k] == dec_digits(
                    m,
                )[k] by {
                    assert(s[ds + k] == enc[ds + k - i]);
                }
            }
            lemma_digits_val_of_dec(s, ds, m);
            assert(digits_val(s, ds, j) == m);
            if s[ds] == 48 {
                assert(dec_digits(m)[0] == 48);
                assert(m == 0 && dl == 1);
            }
            assert(sp_value(s, i, dep) == Ok::<(SpecValue, int), (int, ParseReason)>(
                (t, i + enc.len()),
            ));
        },
        SpecValue::List(l) => {
            assert(dep >= 1);
            let li = encode_items(l);
            assert(enc == seq![108u8] + li + seq![101u8]);
            assert(s.subrange(i + 1, i + 1 + li.len() as int) == li) by {
                assert(s.subrange(i, i + enc.len() as int) == seq![108u8] + (li
                    + seq![101u8])) by {
                    assert(enc =~= seq![108u8] + (li + seq![101u8]));
                }
                lemma_subrange_cat(s, i, seq![108u8], li + seq![101u8]);
                lemma_subrange_cat(s, i + 1, li, seq![101u8]);
            }
            assert(s[i + 1 + li.len() as int] == enc[1 + li.len() as int]);
            assert(enc[1 + li.len() as int] == 101);
            lemma_parse_encoded_items(s, i + 1, l, (dep - 1) as nat, Seq::empty());
            assert(Seq::<SpecValue>::empty() + l =~= l);
            assert(sp_value(s, i, dep) == Ok::<(SpecValue, int), (int, ParseReason)>(
                (t, i + enc.len()),
            ));
        },
        SpecValue::Dict(d) => {
            assert(dep >= 1);
            let pe = encode_pairs(d);
            assert(enc == seq![100u8] + pe + seq![101u8]);
            assert(s.subrange(i + 1, i + 1 + pe.len() as int) == pe) by {
                assert(s.subrange(i, i + enc.len() as int) == seq![100u8] + (pe
                    + seq![101u8])) by {
                    assert(enc =~= seq![100u8] + (pe + seq![101u8]));
                }
                lemma_subrange_cat(s, i, seq![100u8], pe + seq![101u8]);
                lemma_subrange_cat(s, i + 1, pe, seq![101u8]);
            }
            assert(s[i + 1 + pe.len() as int] == enc[1 + pe.len() as int]);
            assert(enc[1 + pe.len() as int] == 101);
            assert(forall|k: int|
                0 <= k < d.len() ==> !has_key(Seq::<(Seq<u8>, SpecValue)>::empty(), (
                #[trigger] d[k]).0));
            lemma_parse_encoded_pairs(s, i + 1, d, (dep - 1) as nat, Seq::empty());
            assert(Seq::<(Seq<u8>, SpecValue)>::empty() + d =~= d);
            assert(sp_value(s, i, dep) == Ok::<(SpecValue, int), (int, ParseReason)>(
                (t, i + enc.len()),
            ));
        },
    }
}

/// Parsing list elements at a window that holds the concatenated encodings
/// of `l` followed by the terminator appends exactly `l` to the accumulator.
proof fn lemma_parse_encoded_items(s: Seq<u8>, i: int, l: Seq<SpecValue>, dep: nat, acc: Seq<
    SpecValue,
>)
    requires
        0 <= i,
        i + encode_items(l).len() < s.len(),
        s.subrange(i, i + encode_items(l).len() as int) == encode_items(l),
        s[i + encode_items(l).len()] == 101,
        forall|k: int| 0 <= k < l.len() ==> all_uniq(#[trigger] l[k]),
        forall|k: int| 0 <= k < l.len() ==> int_bounded(#[trigger] l[k]),
        heights_of(l) <= dep,
    ensures
        sp_items(s, i, dep, acc) == Ok::<(Seq<SpecValue>, int), (int, ParseReason)>(
            (acc + l, i + encode_items(l).len() + 1),
        ),
    decreases heights_of(l), l.len(),
{
    if l.len() == 0 {
        assert(encode_items(l).len() == 0);
        assert(s[i] == 101);
        assert(acc + l =~= acc);
    } else {
        let first = l.first();
        let rest = l.drop_first();
        let e0 = encode_tree(first);
        let erest = encode_items(rest);
        assert(encode_items(l) == e0 + erest);
        lemma_subrange_cat(s, i, e0, erest);
        lemma_encode_head(first);
        assert(s[i] == s.subrange(i, i + e0.len() as int)[0]);
        assert(s[i] != 101);
        assert(height_of(first) <= heights_of(l));
        lemma_parse_encoded(s, i, first, dep);
        let j = i + e0.len();
        assert(heights_of(rest) <= heights_of(l));
        assert forall|k: int| 0 <= k < rest.len() implies all_uniq(#[trigger] rest[k])
            && int_bounded(rest[k]) by {
            assert(rest[k] == l[k + 1]);
        }
        lemma_parse_encoded_items(s, j, rest, dep, acc.push(first));
        assert(acc.push(first) + rest =~= acc + l);
        assert(sp_items(s, i, dep, acc) == Ok::<(Seq<SpecValue>, int), (int, ParseReason)>(
            (acc + l, i + encode_items(l).len() + 1),
        ));
    }
}

/// Parsing dictionary entries at a window that holds the concatenated
/// key/value encodings of `d` followed by the terminator appends exactly
/// `d` to the accumulator; the duplicate check never fires because the keys
/// of `d` are distinct and absent from the accumulator.
proof fn lemma_parse_encoded_pairs(
    s: Seq<u8>,
    i: int,
    d: Seq<(Seq<u8>, SpecValue)>,
    dep: nat,
    acc: Seq<(Seq<u8>, SpecValue)>,
)
    requires
        0 <= i,
        i + encode_pairs(d).len() < s.len(),
        s.subrange(i, i + encode_pairs(d).len() as int) == encode_pairs(d),
        s[i + encode_pairs(d).len()] == 101,
        distinct_keys(d),
        forall|k: int| 0 <= k < d.len() ==> all_uniq((#[trigger] d[k]).1),
        forall|k: int| 0 <= k < d.len() ==> int_bounded((#[trigger] d[k]).1),
        forall|k: int| 0 <= k < d.len() ==> !has_key(acc, (#[trigger] d[k]).0),
        pair_heights_of(d) <= dep,
    ensures
        sp_pairs(s, i, dep, acc) == Ok::<(Seq<(Seq<u8>, SpecValue)>, int), (int, ParseReason)>(
            (acc + d, i + encode_pairs(d).len() + 1),
        ),
    decreases pair_heights_of(d), d.len(),
{
    if d.len() == 0 {
        assert(encode_pairs(d).len() == 0);
        assert(s[i] == 101);
        assert(acc + d =~= acc);
    } else {
        let p = d.first();
        let rest = d.drop_first();
        let ek = enc_bytes(p.0);
        let ev = encode_tree(p.1);
        let erest = encode_pairs(rest);
        assert(encode_pairs(d) == ek + ev + erest);
        assert(encode_pairs(d) == (ek + ev) + erest) by {
            assert(ek + ev + erest =~= (ek + ev) + erest);
        }
        lemma_subrange_cat(s, i, ek + ev, erest);
        lemma_subrange_cat(s, i, ek, ev);
        let keytree = SpecValue::Bytes(p.0);
        assert(encode_tree(keytree) == ek);
        lemma_encode_head(keytree);
        assert(s[i] == s.subrange(i, i + ek.len() as int)[0]);
        assert(s[i] != 101);
        lemma_parse_encoded(s, i, keytree, dep);
        let j1 = i + ek.len();
        assert(!has_key(acc, p.0));
        assert(height_of(p.1) <= pair_heights_of(d));
        lemma_parse_encoded(s, j1, p.1, dep);
        let j2 = j1 + ev.len();
        assert(pair_heights_of(rest) <= pair_heights_of(d));
        assert forall|k: int|
            0 <= k < rest.len() implies all_uniq((#[trigger] rest[k]).1) && int_bounded(
            rest[k].1,
        ) by {
            assert(rest[k] == d[k + 1]);
        }
        assert forall|p2: int, q2: int|
            0 <= p2 < q2 < rest.len() implies (#[trigger] rest[p2]).0 != (#[trigger] rest[q2]).0 by {
            assert(rest[p2] == d[p2 + 1]);
            assert(rest[q2] == d[q2 + 1]);
        }
        assert forall|k: int| 0 <= k < rest.len() implies !has_key(acc.push(p), (
        #[trigger] rest[k]).0) by {
            assert(rest[k] == d[k + 1]);
            assert(!has_key(acc, d[k + 1].0));
            assert(d[0].0 != d[k + 1].0);
            lemma_has_key_push(acc, p, rest[k].0);
        }
        lemma_parse_encoded_pairs(s, j2, rest, dep, acc.push(p));
        assert(acc.push(p) + rest =~= acc + d);
        assert(sp_pairs(s, i, dep, acc) == Ok::<
            (Seq<(Seq<u8>, SpecValue)>, int),
            (int, ParseReason),
        >((acc + d, i + encode_pairs(d).len() + 1)));
    }
}

/// Round trip over the model: decoding a canonical encoding yields exactly
/// the encoded tree, consuming the whole encoding, at any depth bound that
/// admits the tree.
pub proof fn lemma_round_trip(t: SpecValue, dep: nat)
    requires
        wf(t),
        int_bounded(t),
        height_of(t) <= dep,
    ensures
        sp_value(encode_tree(t), 0, dep) == Ok::<(SpecValue, int), (int, ParseReason)>(
            (t, encode_tree(t).len() as int),
        ),
{
    lemma_wf_implies_uniq(t);
    let s = encode_tree(t);
    assert(s.subrange(0, s.len() as int) =~= s);
    lemma_parse_encoded(s, 0, t, dep);
}

/// Round trip for executable values: decoding the canonical encoding of a
/// canonical value gives that value's model back, whole.
pub proof fn lemma_round_trip_value(v: BencodeValue, dep: nat)
    requires
        wf(view_of(v)),
        height_of(view_of(v)) <= dep,
    ensures
        sp_value(encode_tree(view_of(v)), 0, dep) == Ok::<(SpecValue, int), (int, ParseReason)>(
            (view_of(v), encode_tree(view_of(v)).len() as int),
        ),
{
    lemma_view_int_bounded(v);
    lemma_round_trip(view_of(v), dep);
}

} // verus!
