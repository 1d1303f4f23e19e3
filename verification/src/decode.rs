use vstd::prelude::*;
use crate::digits::{is_digit, byte_is_digit, digits_val, scan_digits, lemma_scan_bounds,
    lemma_digits_val_mono};
use crate::model::{BencodeValue, SpecValue, view_of, views_of, pair_views_of, has_key,
    all_uniq, lemma_pair_views_of_index};

verus! {

/// Why a byte sequence was rejected as bencode.
#[derive(Debug, Clone, Copy, PartialEq, Eq)]
pub enum ParseReason {
    /// A value began with a byte that opens no construct.
    UnexpectedByte,
    /// A digit or the integer terminator was expected and something else stood there.
    NonDigit,
    /// A string length prefix was malformed or overran the remaining input.
    BadLengthPrefix,
    /// The input ended inside a construct.
    Unterminated,
    /// An integer literal had a leading zero, was `-0`, or exceeded 64 bits.
    InvalidInteger,
    /// A dictionary key was not a byte string.
    WrongKeyType,
    /// A dictionary repeated a key.
    DuplicateKey,
    /// Containers were nested beyond the recursion bound.
    TooDeep,
    /// Bytes follow the first decoded value where the whole input had to be
    /// one value.
    TrailingBytes,
}

/// A decode failure: the byte offset it was noticed at, and why.
#[derive(Debug, Clone, Copy, PartialEq, Eq)]
pub struct ParseError {
    pub offset: usize,
    pub reason: ParseReason,
}

/// The nesting bound: input whose containers nest deeper than this is rejected.
pub const MAX_DEPTH: usize = 64;

/// Parses one byte-string literal at `i` (`i` holds a digit): decimal length,
/// a colon, then exactly that many bytes.  A multi-digit length must not
/// start with a zero, and the declared length must fit in the input.
pub open spec fn sp_str(s: Seq<u8>, i: int) -> Result<(SpecValue, int), (int, ParseReason)> {
    let j = scan_digits(s, i);
    if j >= s.len() {
        Err((j, ParseReason::Unterminated))
    } else if s[j] != 58 {
        Err((j, ParseReason::BadLengthPrefix))
    } else if s[i] == 48 && j - i > 1 {
        Err((i, ParseReason::BadLengthPrefix))
    } else if j + 1 + digits_val(s, i, j) > s.len() {
        Err((i, ParseReason::BadLengthPrefix))
    } else {
        Ok((SpecValue::Bytes(s.subrange(j + 1, j + 1 + digits_val(s, i, j))), j + 1
            + digits_val(s, i, j)))
    }
}

/// Parses one integer literal at `i` (`i` holds the opening `i`): an optional
/// minus sign, digits with no leading zero, a closing `e`; `-0` and values
/// outside the signed 64-bit range are rejected.
pub open spec fn sp_int(s: Seq<u8>, i: int) -> Result<(SpecValue, int), (int, ParseReason)> {
    let start = i + 1;
    let neg = start < s.len() && s[start] == 45;
    let ds = if neg { start + 1 } else { start };
    let j = scan_digits(s, ds);
    if j == ds {
        if j >= s.len() {
            Err((j, ParseReason::Unterminated))
        } else {
            Err((j, ParseReason::NonDigit))
        }
    } else if j >= s.len() {
        Err((j, ParseReason::Unterminated))
    } else if s[j] != 101 {
        Err((j, ParseReason::NonDigit))
    } else if s[ds] == 48 && j - ds > 1 {
        Err((ds, ParseReason::InvalidInteger))
    } else if neg && digits_val(s, ds, j) == 0 {
        Err((ds, ParseReason::InvalidInteger))
    } else if !neg && digits_val(s, ds, j) > 9223372036854775807 {
        Err((i, ParseReason::InvalidInteger))
    } else if neg && digits_val(s, ds, j) > 9223372036854775808 {
        Err((i, ParseReason::InvalidInteger))
    } else {
        Ok(
            (
                SpecValue::Int(
                    if neg {
                        -(digits_val(s, ds, j) as int)
                    } else {
                        digits_val(s, ds, j) as int
                    },
                ),
                j + 1,
            ),
        )
    }
}

/// Parses one value at position `i`, with `dep` container levels still
/// allowed.  This is the defining specification of the decoder.
pub open spec fn sp_value(s: Seq<u8>, i: int, dep: nat) -> Result<
    (SpecValue, int),
    (int, ParseReason),
>
    decreases dep, s.len() - i, 0int,
{
    if i < 0 || i >= s.len() {
        Err((i, ParseReason::Unterminated))
    } else if s[i] == 105 {
        sp_int(s, i)
    } else if is_digit(s[i]) {
        sp_str(s, i)
    } else if s[i] == 108 {
        if dep == 0 {
            Err((i, ParseReason::TooDeep))
        } else {
            match sp_items(s, i + 1, (dep - 1) as nat, Seq::empty()) {
                Ok((items, j)) => Ok((SpecValue::List(items), j)),
                Err(e) => Err(e),
            }
        }
    } else if s[i] == 100 {
        if dep == 0 {
            Err((i, ParseReason::TooDeep))
        } else {
            match sp_pairs(s, i + 1, (dep - 1) as nat, Seq::empty()) {
                Ok((d, j)) => Ok((SpecValue::Dict(d), j)),
                Err(e) => Err(e),
            }
        }
    } else {
        Err((i, ParseReason::UnexpectedByte))
    }
}

/// Parses list elements from `i` until a closing `e`, appending to `acc`.
pub open spec fn sp_items(s: Seq<u8>, i: int, dep: nat, acc: Seq<SpecValue>) -> Result<
    (Seq<SpecValue>, int),
    (int, ParseReason),
>
    decreases dep, s.len() - i, 1int,
{
    if i < 0 || i >= s.len() {
        Err((i, ParseReason::Unterminated))
    } else if s[i] == 101 {
        Ok((acc, i + 1))
    } else {
        match sp_value(s, i, dep) {
            Err(e) => Err(e),
            Ok((v, j)) => if j <= i || j > s.len() {
                Err((i, ParseReason::Unterminated))
            } else {
                sp_items(s, j, dep, acc.push(v))
            },
        }
    }
}

/// Parses dictionary entries from `i` until a closing `e`, appending to
/// `acc`: each key must be a byte string not seen before in this dictionary.
pub open spec fn sp_pairs(
    s: Seq<u8>,
    i: int,
    dep: nat,
    acc: Seq<(Seq<u8>, SpecValue)>,
) -> Result<(Seq<(Seq<u8>, SpecValue)>, int), (int, ParseReason)>
    decreases dep, s.len() - i, 1int,
{
    if i < 0 || i >= s.len() {
        Err((i, ParseReason::Unterminated))
    } else if s[i] == 101 {
        Ok((acc, i + 1))
    } else {
        match sp_value(s, i, dep) {
            Err(e) => Err(e),
            Ok((k, j1)) => match k {
                SpecValue::Bytes(key) => if has_key(acc, key) {
                    Err((i, ParseReason::DuplicateKey))
                } else if j1 <= i || j1 > s.len() {
                    Err((i, ParseReason::Unterminated))
                } else {
                    match sp_value(s, j1, dep) {
                        Err(e) => Err(e),
                        Ok((v, j2)) => if j2 <= j1 || j2 > s.len() {
                            Err((j1, ParseReason::Unterminated))
                        } else {
                            sp_pairs(s, j2, dep, acc.push((key, v)))
                        },
                    }
                },
                _ => Err((i, ParseReason::WrongKeyType)),
            },
        }
    }
}

/// Reports whether two byte vectors hold the same bytes.
pub fn eq_bytes(a: &Vec<u8>, b: &Vec<u8>) -> (r: bool)
    ensures
        r == (a@ == b@),
{
    if a.len() != b.len() {
        assert(a@ != b@) by {
            assert(a@.len() != b@.len());
        }
        return false;
    }
    let mut k: usize = 0;
    while k < a.len()
        invariant
            k <= a.len(),
            a@.len() == b@.len(),
            forall|t: int| 0 <= t < k ==> a@[t] == b@[t],
        decreases a.len() - k,
    {
        if a[k] != b[k] {
            return false;
        }
        k = k + 1;
    }
    assert(a@ =~= b@);
    true
}

/// Reports whether `key` already occurs among the keys of `pairs`.
fn contains_key_exec(pairs: &Vec<(Vec<u8>, BencodeValue)>, key: &Vec<u8>) -> (r: bool)
    ensures
        r == has_key(pair_views_of(pairs@), key@),
{
    proof {
        lemma_pair_views_of_index(pairs@);
    }
    let mut k: usize = 0;
    while k < pairs.len()
        invariant
            k <= pairs.len(),
            pair_views_of(pairs@).len() == pairs@.len(),
            forall|i: int| 0 <= i < pairs@.len() ==> pair_views_of(pairs@)[i] == ((
            #[trigger] pairs@[i]).0@, view_of(pairs@[i].1)),
            forall|t: int| 0 <= t < k ==> (#[trigger] pair_views_of(pairs@)[t]).0 != key@,
        decreases pairs.len() - k,
    {
        if eq_bytes(&pairs[k].0, key) {
            assert(pair_views_of(pairs@)[k as int].0 == key@);
            return true;
        }
        k = k + 1;
    }
    false
}

/// Parses one byte-string literal; mirrors `sp_str`.
#[verifier::loop_isolation(false)]
fn decode_str(data: &[u8], i: usize) -> (r: Result<(BencodeValue, usize), ParseError>)
    requires
        i < data@.len(),
        is_digit(data@[i as int]),
    ensures
        ({
            match sp_str(data@, i as int) {
                Ok(tj) => r matches Ok(p) && view_of(p.0) == tj.0 && p.1 as int == tj.1,
                Err(e) => r matches Err(pe) && pe.offset as int == e.0 && pe.reason == e.1,
            }
        }),
{
    proof {
        lemma_scan_bounds(data@, i as int);
    }
    let ghost sj = scan_digits(data@, i as int);
    let mut j: usize = i;
    while j < data.len() && byte_is_digit(data[j])
        invariant
            i <= j <= data@.len(),
            scan_digits(data@, i as int) == scan_digits(data@, j as int),
        decreases data@.len() - j,
    {
        j = j + 1;
    }
    assert(sj == j as int);
    if j >= data.len() {
        return Err(ParseError { offset: j, reason: ParseReason::Unterminated });
    }
    if data[j] != 58 {
        return Err(ParseError { offset: j, reason: ParseReason::BadLengthPrefix });
    }
    if data[i] == 48 && j - i > 1 {
        return Err(ParseError { offset: i, reason: ParseReason::BadLengthPrefix });
    }
    let ghost n = digits_val(data@, i as int, j as int);
    let mut acc: u128 = 0;
    let limit: u128 = data.len() as u128;
    let mut k: usize = i;
    while k < j
        invariant
            i <= k <= j <= data@.len(),
            sj == j as int,
            sj == scan_digits(data@, i as int),
            forall|t: int| i <= t < j ==> is_digit(#[trigger] data@[t]),
            acc == digits_val(data@, i as int, k as int),
            acc <= limit,
            limit == data@.len(),
        decreases j - k,
    {
        let d = data[k];
        acc = acc * 10 + (d - 48) as u128;
        k = k + 1;
        assert(acc == digits_val(data@, i as int, k as int));
        if acc > limit {
            proof {
                lemma_digits_val_mono(data@, i as int, k as int, j as int);
                assert(n > data@.len());
            }
            return Err(ParseError { offset: i, reason: ParseReason::BadLengthPrefix });
        }
    }
    assert(acc == n);
    let nn: usize = acc as usize;
    if nn > data.len() - (j + 1) {
        return Err(ParseError { offset: i, reason: ParseReason::BadLengthPrefix });
    }
    let mut bytes: Vec<u8> = Vec::new();
    let start = j + 1;
    let mut t: usize = start;
    assert(bytes@ =~= data@.subrange(start as int, start as int));
    while t < start + nn
        invariant
            start <= t <= start + nn,
            start + nn <= data@.len(),
            bytes@ == data@.subrange(start as int, t as int),
        decreases start + nn - t,
    {
        bytes.push(data[t]);
        t = t + 1;
        assert(bytes@ =~= data@.subrange(start as int, t as int));
    }
    assert(bytes@ =~= data@.subrange(sj + 1, sj + 1 + n));
    Ok((BencodeValue::ByteString(bytes), start + nn))
}

/// Parses one integer literal; mirrors `sp_int`.
#[verifier::loop_isolation(false)]
fn decode_int(data: &[u8], i: usize) -> (r: Result<(BencodeValue, usize), ParseError>)
    requires
        i < data@.len(),
        data@[i as int] == 105,
    ensures
        ({
            match sp_int(data@, i as int) {
                Ok(tj) => r matches Ok(p) && view_of(p.0) == tj.0 && p.1 as int == tj.1,
                Err(e) => r matches Err(pe) && pe.offset as int == e.0 && pe.reason == e.1,
            }
        }),
{
    let dlen = data.len();
    let start = i + 1;
    let neg = start < dlen && data[start] == 45;
    let ds: usize = if neg {
        start + 1
    } else {
        start
    };
    proof {
        lemma_scan_bounds(data@, ds as int);
    }
    let ghost sj = scan_digits(data@, ds as int);
    let mut j: usize = ds;
    while j < data.len() && byte_is_digit(data[j])
        invariant
            ds <= j <= data@.len(),
            scan_digits(data@, ds as int) == scan_digits(data@, j as int),
        decreases data@.len() - j,
    {
        j = j + 1;
    }
    assert(sj == j as int);
    if j == ds {
        if j >= data.len() {
            return Err(ParseError { offset: j, reason: ParseReason::Unterminated });
        }
        return Err(ParseError { offset: j, reason: ParseReason::NonDigit });
    }
    if j >= data.len() {
        return Err(ParseError { offset: j, reason: ParseReason::Unterminated });
    }
    if data[j] != 101 {
        return Err(ParseError { offset: j, reason: ParseReason::NonDigit });
    }
    if data[ds] == 48 && j - ds > 1 {
        return Err(ParseError { offset: ds, reason: ParseReason::InvalidInteger });
    }
    let ghost n = digits_val(data@, ds as int, j as int);
    let mut acc: u128 = 0;
    let bound: u128 = 9223372036854775808;
    let mut k: usize = ds;
    while k < j
        invariant
            ds <= k <= j <= data@.len(),
            sj == j as int,
            sj == scan_digits(data@, ds as int),
            forall|t: int| ds <= t < j ==> is_digit(#[trigger] data@[t]),
            acc == digits_val(data@, ds as int, k as int),
            acc <= bound,
            bound == 9223372036854775808,
        decreases j - k,
    {
        let d = data[k];
        acc = acc * 10 + (d - 48) as u128;
        k = k + 1;
        assert(acc == digits_val(data@, ds as int, k as int));
        if acc > bound {
            proof {
                lemma_digits_val_mono(data@, ds as int, k as int, j as int);
                assert(n > 9223372036854775808);
            }
            return Err(ParseError { offset: i, reason: ParseReason::InvalidInteger });
        }
    }
    assert(acc == n);
    if neg && acc == 0 {
        return Err(ParseError { offset: ds, reason: ParseReason::InvalidInteger });
    }
    if !neg && acc > 9223372036854775807 {
        return Err(ParseError { offset: i, reason: ParseReason::InvalidInteger });
    }
    let val: i64 = if neg {
        if acc == 9223372036854775808 {
            i64::MIN
        } else {
            -(acc as i64)
        }
    } else {
        acc as i64
    };
    Ok((BencodeValue::Integer(val), j + 1))
}

/// Parses one value at position `i` of `data`, with `dep` container levels
/// still allowed.  Returns exactly what `sp_value` says: the parsed value and
/// the position after it, or the error `sp_value` gives.
#[verifier::loop_isolation(false)]
pub fn decode_at(data: &[u8], i: usize, dep: usize) -> (r: Result<
    (BencodeValue, usize),
    ParseError,
>)
    ensures
        ({
            match sp_value(data@, i as int, dep as nat) {
                Ok(tj) => r matches Ok(p) && view_of(p.0) == tj.0 && p.1 as int == tj.1,
                Err(e) => r matches Err(pe) && pe.offset as int == e.0 && pe.reason == e.1,
            }
        }),
    decreases dep,
{
    if i >= data.len() {
        return Err(ParseError { offset: i, reason: ParseReason::Unterminated });
    }
    let b = data[i];
    if b == 105 {
        decode_int(data, i)
    } else if byte_is_digit(b) {
        decode_str(data, i)
    } else if b == 108 {
        if dep == 0 {
            return Err(ParseError { offset: i, reason: ParseReason::TooDeep });
        }
        let mut cur: usize = i + 1;
        let mut items: Vec<BencodeValue> = Vec::new();
        assert(views_of(items@) =~= Seq::<SpecValue>::empty());
        loop
            invariant
                1 <= dep,
                i < data@.len(),
                cur <= data@.len() + 1,
                sp_items(data@, i as int + 1, (dep - 1) as nat, Seq::empty()) == sp_items(
                    data@,
                    cur as int,
                    (dep - 1) as nat,
                    views_of(items@),
                ),
            decreases data@.len() - cur,
        {
            if cur >= data.len() {
                return Err(ParseError { offset: cur, reason: ParseReason::Unterminated });
            }
            if data[cur] == 101 {
                let r = Ok((BencodeValue::List(items), cur + 1));
                assert(sp_value(data@, i as int, dep as nat) matches Ok(tj) && tj.0
                    == SpecValue::List(views_of(items@)) && tj.1 == cur + 1);
                return r;
            }
            match decode_at(data, cur, dep - 1) {
                Err(pe) => {
                    return Err(pe);
                },
                Ok((v, j)) => {
                    if j <= cur || j > data.len() {
                        return Err(ParseError { offset: cur, reason: ParseReason::Unterminated });
                    }
                    let ghost pre_items = items@;
                    items.push(v);
                    proof {
                        assert(items@.drop_last() =~= pre_items);
                        assert(views_of(items@) == views_of(items@.drop_last()).push(
                            view_of(items@.last()),
                        ));
                    }
                    cur = j;
                },
            }
        }
    } else if b == 100 {
        if dep == 0 {
            return Err(ParseError { offset: i, reason: ParseReason::TooDeep });
        }
        let mut cur: usize = i + 1;
        let mut pairs: Vec<(Vec<u8>, BencodeValue)> = Vec::new();
        assert(pair_views_of(pairs@) =~= Seq::<(Seq<u8>, SpecValue)>::empty());
        loop
            invariant
                1 <= dep,
                i < data@.len(),
                cur <= data@.len() + 1,
                sp_pairs(data@, i as int + 1, (dep - 1) as nat, Seq::empty()) == sp_pairs(
                    data@,
                    cur as int,
                    (dep - 1) as nat,
                    pair_views_of(pairs@),
                ),
            decreases data@.len() - cur,
        {
            if cur >= data.len() {
                return Err(ParseError { offset: cur, reason: ParseReason::Unterminated });
            }
            if data[cur] == 101 {
                let r = Ok((BencodeValue::Dictionary(pairs), cur + 1));
                assert(sp_value(data@, i as int, dep as nat) matches Ok(tj) && tj.0
                    == SpecValue::Dict(pair_views_of(pairs@)) && tj.1 == cur + 1);
                return r;
            }
            match decode_at(data, cur, dep - 1) {
                Err(pe) => {
                    return Err(pe);
                },
                Ok((kv, j1)) => {
                    let key: Vec<u8> = match kv {
                        BencodeValue::ByteString(bs) => bs,
                        _ => {
                            return Err(
                                ParseError { offset: cur, reason: ParseReason::WrongKeyType },
                            );
                        },
                    };
                    if contains_key_exec(&pairs, &key) {
                        return Err(ParseError { offset: cur, reason: ParseReason::DuplicateKey });
                    }
                    if j1 <= cur || j1 > data.len() {
                        return Err(ParseError { offset: cur, reason: ParseReason::Unterminated });
                    }
                    match decode_at(data, j1, dep - 1) {
                        Err(pe) => {
                            return Err(pe);
                        },
                        Ok((v, j2)) => {
                            if j2 <= j1 || j2 > data.len() {
                                return Err(
                                    ParseError { offset: j1, reason: ParseReason::Unterminated },
                                );
                            }
                            let ghost pre_pairs = pairs@;
                            pairs.push((key, v));
                            proof {
                                assert(pairs@.drop_last() =~= pre_pairs);
                                assert(pair_views_of(pairs@) == pair_views_of(
                                    pairs@.drop_last(),
                                ).push((pairs@.last().0@, view_of(pairs@.last().1))));
                            }
                            cur = j2;
                        },
                    }
                },
            }
        }
    } else {
        Err(ParseError { offset: i, reason: ParseReason::UnexpectedByte })
    }
}

/// Decodes the first bencode value of `data`: the value and how many bytes
/// it consumed, or the parse error `sp_value` pins down.  Containers may
/// nest at most `MAX_DEPTH` levels.
pub fn decode(data: &[u8]) -> (r: Result<(BencodeValue, usize), ParseError>)
    ensures
        ({
            match sp_value(data@, 0, MAX_DEPTH as nat) {
                Ok(tj) => r matches Ok(p) && view_of(p.0) == tj.0 && p.1 as int == tj.1,
                Err(e) => r matches Err(pe) && pe.offset as int == e.0 && pe.reason == e.1,
            }
        }),
{
    decode_at(data, 0, MAX_DEPTH)
}

/// Adding a pair whose key is absent keeps the keys pairwise distinct.
proof fn lemma_distinct_push(acc: Seq<(Seq<u8>, SpecValue)>, p: (Seq<u8>, SpecValue))
    requires
        crate::model::distinct_keys(acc),
        !has_key(acc, p.0),
    ensures
        crate::model::distinct_keys(acc.push(p)),
{
    let e = acc.push(p);
    assert forall|p2: int, q2: int|
        0 <= p2 < q2 < e.len() implies (#[trigger] e[p2]).0 != (#[trigger] e[q2]).0 by {
        if q2 == acc.len() {
            if e[p2].0 == p.0 {
                assert(acc[p2].0 == p.0);
            }
        } else {
            assert(e[p2] == acc[p2]);
            assert(e[q2] == acc[q2]);
        }
    }
}

/// Whatever the parser yields has pairwise distinct dictionary keys and
/// 64-bit integers, throughout the tree: the duplicate-key check and the
/// integer range check run at every level.
pub proof fn lemma_parse_uniq(s: Seq<u8>, i: int, dep: nat)
    ensures
        sp_value(s, i, dep) matches Ok(tj) ==> all_uniq(tj.0) && crate::model::int_bounded(tj.0),
    decreases dep, s.len() - i, 0int,
{
    if i < 0 || i >= s.len() {
    } else if s[i] == 105 {
    } else if is_digit(s[i]) {
    } else if s[i] == 108 {
        if dep > 0 {
            lemma_parse_uniq_items(s, i + 1, (dep - 1) as nat, Seq::empty());
        }
    } else if s[i] == 100 {
        if dep > 0 {
            lemma_parse_uniq_pairs(s, i + 1, (dep - 1) as nat, Seq::empty());
        }
    }
}

/// The element parser keeps every accumulated and parsed element unique.
proof fn lemma_parse_uniq_items(s: Seq<u8>, i: int, dep: nat, acc: Seq<SpecValue>)
    requires
        forall|k: int| 0 <= k < acc.len() ==> all_uniq(#[trigger] acc[k]) && crate::model::int_bounded(acc[k]),
    ensures
        sp_items(s, i, dep, acc) matches Ok(tj) ==> forall|k: int|
            0 <= k < tj.0.len() ==> all_uniq(#[trigger] tj.0[k]) && crate::model::int_bounded(
                tj.0[k],
            ),
    decreases dep, s.len() - i, 1int,
{
    if i < 0 || i >= s.len() {
    } else if s[i] == 101 {
    } else {
        match sp_value(s, i, dep) {
            Err(_) => {},
            Ok((v, j)) => {
                if !(j <= i || j > s.len()) {
                    lemma_parse_uniq(s, i, dep);
                    assert forall|k: int|
                        0 <= k < acc.push(v).len() implies all_uniq(#[trigger] acc.push(v)[k])
                        && crate::model::int_bounded(acc.push(v)[k]) by {
                        if k < acc.len() {
                            assert(acc.push(v)[k] == acc[k]);
                        }
                    }
                    lemma_parse_uniq_items(s, j, dep, acc.push(v));
                }
            },
        }
    }
}

/// The entry parser keeps the accumulated keys distinct and every value
/// unique inside.
proof fn lemma_parse_uniq_pairs(s: Seq<u8>, i: int, dep: nat, acc: Seq<(Seq<u8>, SpecValue)>)
    requires
        crate::model::distinct_keys(acc),
        forall|k: int|
            0 <= k < acc.len() ==> all_uniq((#[trigger] acc[k]).1) && crate::model::int_bounded(
                acc[k].1,
            ),
    ensures
        sp_pairs(s, i, dep, acc) matches Ok(tj) ==> crate::model::distinct_keys(tj.0) && forall|
            k: int,
        |
            0 <= k < tj.0.len() ==> all_uniq((#[trigger] tj.0[k]).1) && crate::model::int_bounded(
                tj.0[k].1,
            ),
    decreases dep, s.len() - i, 1int,
{
    if i < 0 || i >= s.len() {
    } else if s[i] == 101 {
    } else {
        match sp_value(s, i, dep) {
            Err(_) => {},
            Ok((kv, j1)) => {
                match kv {
                    SpecValue::Bytes(key) => {
                        if !has_key(acc, key) && !(j1 <= i || j1 > s.len()) {
                            match sp_value(s, j1, dep) {
                                Err(_) => {},
                                Ok((v, j2)) => {
                                    if !(j2 <= j1 || j2 > s.len()) {
                                        lemma_parse_uniq(s, j1, dep);
                                        lemma_distinct_push(acc, (key, v));
                                        assert forall|k: int|
                                            0 <= k < acc.push((key, v)).len() implies all_uniq((
                                            #[trigger] acc.push((key, v))[k]).1)
                                            && crate::model::int_bounded(
                                            acc.push((key, v))[k].1,
                                        ) by {
                                            if k < acc.len() {
                                                assert(acc.push((key, v))[k] == acc[k]);
                                            }
                                        }
                                        lemma_parse_uniq_pairs(s, j2, dep, acc.push((key, v)));
                                    }
                                },
                            }
                        }
                    },
                    _ => {},
                }
            },
        }
    }
}

} // verus!
