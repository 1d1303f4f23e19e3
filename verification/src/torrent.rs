use vstd::prelude::*;
use crate::model::{BencodeValue, SpecValue, view_of, pair_views_of, all_uniq, int_bounded,
    lemma_pair_views_of_index};
use crate::decode::{decode, sp_value, ParseError, ParseReason, MAX_DEPTH, eq_bytes};
use crate::encode::append_all;

verus! {

/// The torrent schema field a violation concerns.
#[derive(Debug, Clone, Copy, PartialEq, Eq)]
pub enum FieldName {
    TopLevel,
    Announce,
    Info,
    Name,
    Length,
    PieceLength,
    Pieces,
}

/// Why a well-formed bencode value failed the torrent schema.
#[derive(Debug, Clone, Copy, PartialEq, Eq)]
pub enum SchemaReason {
    /// The top-level value is not a dictionary.
    NotADictionary,
    /// A required key is absent.
    Missing,
    /// A key holds a value of the wrong variant.
    WrongType,
    /// A text field holds bytes that are not valid text.
    NotText,
    /// The total length is negative.
    Negative,
    /// The piece length is not positive.
    NonPositive,
    /// The pieces blob is not a whole number of 20-byte digests.
    NotMultipleOf20,
    /// The number of piece digests does not match the content length.
    PieceCountMismatch,
}

/// A schema violation: the field it concerns and why it was rejected.
#[derive(Debug, Clone, Copy, PartialEq, Eq)]
pub struct SchemaError {
    pub field: FieldName,
    pub reason: SchemaReason,
}

/// Builds a schema error.
pub open spec fn schema_err(f: FieldName, r: SchemaReason) -> SchemaError {
    SchemaError { field: f, reason: r }
}

/// Why loading a torrent failed: the bytes were not bencode, or the decoded
/// value missed the schema.
#[derive(Debug, Clone, Copy, PartialEq, Eq)]
pub enum TorrentError {
    Parse(ParseError),
    Schema(SchemaError),
}

/// The typed fields of a torrent file, read-only after loading.
#[derive(Debug, PartialEq, Eq)]
pub struct TorrentMetadata {
    pub announce: String,
    pub name: String,
    pub piece_length: u64,
    pub length: u64,
    pub pieces: Vec<u8>,
}

/// The mathematical content of loaded metadata.
pub struct TorrentShape {
    pub announce: Seq<char>,
    pub name: Seq<char>,
    pub piece_length: int,
    pub length: int,
    pub pieces: Seq<u8>,
}

/// The characters of a byte sequence read as text, named here and computed
/// outside: `Option::None` exactly where the bytes are not valid text.
pub uninterp spec fn utf8_chars(b: Seq<u8>) -> Option<Seq<char>>;

/// Relies on String::from_utf8: it succeeds exactly on valid UTF-8, and the
/// characters it yields depend on the bytes alone.
#[verifier::external_body]
fn bytes_to_utf8(b: &Vec<u8>) -> (r: Option<String>)
    ensures
        r is Some <==> utf8_chars(b@) is Some,
        r matches Some(s) ==> utf8_chars(b@) == Some(s@),
{
    match String::from_utf8(b.clone()) {
        Ok(s) => Some(s),
        Err(_) => None,
    }
}

/// The key `announce`.
pub open spec fn key_announce() -> Seq<u8> {
    seq![97u8, 110u8, 110u8, 111u8, 117u8, 110u8, 99u8, 101u8]
}

/// The key `info`.
pub open spec fn key_info() -> Seq<u8> {
    seq![105u8, 110u8, 102u8, 111u8]
}

/// The key `name`.
pub open spec fn key_name() -> Seq<u8> {
    seq![110u8, 97u8, 109u8, 101u8]
}

/// The key `length`.
pub open spec fn key_length() -> Seq<u8> {
    seq![108u8, 101u8, 110u8, 103u8, 116u8, 104u8]
}

/// The key `piece length`.
pub open spec fn key_piece_length() -> Seq<u8> {
    seq![112u8, 105u8, 101u8, 99u8, 101u8, 32u8, 108u8, 101u8, 110u8, 103u8, 116u8, 104u8]
}

/// The key `pieces`.
pub open spec fn key_pieces() -> Seq<u8> {
    seq![112u8, 105u8, 101u8, 99u8, 101u8, 115u8]
}

/// The first value stored under key `k`, if any.
pub open spec fn lookup(d: Seq<(Seq<u8>, SpecValue)>, k: Seq<u8>) -> Option<SpecValue>
    decreases d.len(),
{
    if d.len() == 0 {
        None
    } else if d.first().0 == k {
        Some(d.first().1)
    } else {
        lookup(d.drop_first(), k)
    }
}

/// Skipping entries whose keys all differ from `k` leaves the lookup alone.
pub proof fn lemma_lookup_skip(d: Seq<(Seq<u8>, SpecValue)>, k: Seq<u8>, m: int)
    requires
        0 <= m <= d.len(),
        forall|t: int| 0 <= t < m ==> (#[trigger] d[t]).0 != k,
    ensures
        lookup(d, k) == lookup(d.skip(m), k),
    decreases m,
{
    if m > 0 {
        assert(d.first().0 != k);
        assert forall|t: int| 0 <= t < m - 1 implies (#[trigger] d.drop_first()[t]).0 != k by {
            assert(d.drop_first()[t] == d[t + 1]);
        }
        lemma_lookup_skip(d.drop_first(), k, m - 1);
        assert(d.drop_first().skip(m - 1) =~= d.skip(m));
    } else {
        assert(d.skip(0) =~= d);
    }
}

/// A value looked up in a dictionary whose values all have unique keys and
/// bounded integers inherits both properties; with `lemma_parse_uniq` this
/// lets a decoded `info` sub-tree feed canonicalization and hashing.
pub proof fn lemma_lookup_uniq(d: Seq<(Seq<u8>, SpecValue)>, k: Seq<u8>)
    requires
        forall|i: int|
            0 <= i < d.len() ==> all_uniq((#[trigger] d[i]).1) && int_bounded(d[i].1),
    ensures
        lookup(d, k) matches Some(t) ==> all_uniq(t) && int_bounded(t),
    decreases d.len(),
{
    if d.len() > 0 {
        assert(d.first() == d[0]);
        if d.first().0 != k {
            assert forall|i: int|
                0 <= i < d.drop_first().len() implies all_uniq((#[trigger] d.drop_first()[i]).1)
                && int_bounded(d.drop_first()[i].1) by {
                assert(d.drop_first()[i] == d[i + 1]);
            }
            lemma_lookup_uniq(d.drop_first(), k);
        }
    }
}

/// Finds the first entry of `pairs` stored under `key`.
#[verifier::loop_isolation(false)]
pub fn dict_get<'a>(pairs: &'a Vec<(Vec<u8>, BencodeValue)>, key: &Vec<u8>) -> (r: Option<
    &'a BencodeValue,
>)
    ensures
        ({
            match lookup(pair_views_of(pairs@), key@) {
                Some(t) => r matches Some(v) && view_of(*v) == t,
                None => r is None,
            }
        }),
{
    proof {
        lemma_pair_views_of_index(pairs@);
    }
    let ghost dv = pair_views_of(pairs@);
    let mut k: usize = 0;
    while k < pairs.len()
        invariant
            k <= pairs@.len(),
            forall|t: int| 0 <= t < k ==> (#[trigger] dv[t]).0 != key@,
        decreases pairs@.len() - k,
    {
        if eq_bytes(&pairs[k].0, key) {
            proof {
                lemma_lookup_skip(dv, key@, k as int);
                assert(dv.skip(k as int).first() == dv[k as int]);
            }
            return Some(&pairs[k].1);
        }
        k = k + 1;
    }
    proof {
        lemma_lookup_skip(dv, key@, dv.len() as int);
        assert(dv.skip(dv.len() as int) =~= Seq::<(Seq<u8>, SpecValue)>::empty());
    }
    None
}

/// Takes the first entry stored under `key` out of `pairs`, consuming the
/// dictionary's entry vector.
#[verifier::loop_isolation(false)]
pub fn dict_take(pairs: Vec<(Vec<u8>, BencodeValue)>, key: &Vec<u8>) -> (r: Option<BencodeValue>)
    ensures
        ({
            match lookup(pair_views_of(pairs@), key@) {
                Some(t) => r matches Some(v) && view_of(v) == t,
                None => r is None,
            }
        }),
{
    proof {
        lemma_pair_views_of_index(pairs@);
    }
    let ghost dv = pair_views_of(pairs@);
    let mut rest = pairs;
    let mut k: usize = 0;
    while k < rest.len()
        invariant
            rest@ == pairs@,
            k <= pairs@.len(),
            forall|t: int| 0 <= t < k ==> (#[trigger] dv[t]).0 != key@,
        decreases pairs@.len() - k,
    {
        if eq_bytes(&rest[k].0, key) {
            proof {
                lemma_lookup_skip(dv, key@, k as int);
                assert(dv.skip(k as int).first() == dv[k as int]);
            }
            let pair = rest.remove(k);
            return Some(pair.1);
        }
        k = k + 1;
    }
    proof {
        lemma_lookup_skip(dv, key@, dv.len() as int);
        assert(dv.skip(dv.len() as int) =~= Seq::<(Seq<u8>, SpecValue)>::empty());
    }
    None
}

/// Builds the `info` key for callers that take the info sub-tree out of a
/// decoded torrent dictionary.
pub fn info_key() -> (r: Vec<u8>)
    ensures
        r@ == key_info(),
{
    key_bytes_info()
}

/// Projects the fields of an `info` dictionary, validating each in turn:
/// `name` is text, `length` is non-negative, `piece length` is positive,
/// `pieces` is a whole number of 20-byte digests, and the digest count
/// matches the content length rounded up to whole pieces.
pub open spec fn project_info(d: Seq<(Seq<u8>, SpecValue)>, announce: Seq<char>) -> Result<
    TorrentShape,
    SchemaError,
> {
    match lookup(d, key_name()) {
        None => Err(schema_err(FieldName::Name, SchemaReason::Missing)),
        Some(nv) => match nv {
            SpecValue::Bytes(nb) => match utf8_chars(nb) {
                None => Err(schema_err(FieldName::Name, SchemaReason::NotText)),
                Some(ntext) => match lookup(d, key_length()) {
                    None => Err(schema_err(FieldName::Length, SchemaReason::Missing)),
                    Some(lv) => match lv {
                        SpecValue::Int(len) => if len < 0 {
                            Err(schema_err(FieldName::Length, SchemaReason::Negative))
                        } else {
                            match lookup(d, key_piece_length()) {
                                None => Err(
                                    schema_err(FieldName::PieceLength, SchemaReason::Missing),
                                ),
                                Some(pv) => match pv {
                                    SpecValue::Int(pl) => if pl < 1 {
                                        Err(
                                            schema_err(
                                                FieldName::PieceLength,
                                                SchemaReason::NonPositive,
                                            ),
                                        )
                                    } else {
                                        match lookup(d, key_pieces()) {
                                            None => Err(
                                                schema_err(FieldName::Pieces, SchemaReason::Missing),
                                            ),
                                            Some(bv) => match bv {
                                                SpecValue::Bytes(pb) => if pb.len() % 20 != 0 {
                                                    Err(
                                                        schema_err(
                                                            FieldName::Pieces,
                                                            SchemaReason::NotMultipleOf20,
                                                        ),
                                                    )
                                                } else if pb.len() as int / 20 != (len + pl - 1)
                                                    / pl {
                                                    Err(
                                                        schema_err(
                                                            FieldName::Pieces,
                                                            SchemaReason::PieceCountMismatch,
                                                        ),
                                                    )
                                                } else {
                                                    Ok(
                                                        TorrentShape {
                                                            announce,
                                                            name: ntext,
                                                            piece_length: pl,
                                                            length: len,
                                                            pieces: pb,
                                                        },
                                                    )
                                                },
                                                _ => Err(
                                                    schema_err(
                                                        FieldName::Pieces,
                                                        SchemaReason::WrongType,
                                                    ),
                                                ),
                                            },
                                        }
                                    },
                                    _ => Err(
                                        schema_err(FieldName::PieceLength, SchemaReason::WrongType),
                                    ),
                                },
                            }
                        },
                        _ => Err(schema_err(FieldName::Length, SchemaReason::WrongType)),
                    },
                },
            },
            _ => Err(schema_err(FieldName::Name, SchemaReason::WrongType)),
        },
    }
}

/// Projects a decoded value onto the torrent schema: a dictionary whose
/// `announce` is text and whose `info` dictionary passes `project_info`.
pub open spec fn project(t: SpecValue) -> Result<TorrentShape, SchemaError> {
    match t {
        SpecValue::Dict(d) => match lookup(d, key_announce()) {
            None => Err(schema_err(FieldName::Announce, SchemaReason::Missing)),
            Some(av) => match av {
                SpecValue::Bytes(ab) => match utf8_chars(ab) {
                    None => Err(schema_err(FieldName::Announce, SchemaReason::NotText)),
                    Some(atext) => match lookup(d, key_info()) {
                        None => Err(schema_err(FieldName::Info, SchemaReason::Missing)),
                        Some(iv) => match iv {
                            SpecValue::Dict(idict) => project_info(idict, atext),
                            _ => Err(schema_err(FieldName::Info, SchemaReason::WrongType)),
                        },
                    },
                },
                _ => Err(schema_err(FieldName::Announce, SchemaReason::WrongType)),
            },
        },
        _ => Err(schema_err(FieldName::TopLevel, SchemaReason::NotADictionary)),
    }
}

/// Copies a byte vector.
fn clone_bytes(v: &Vec<u8>) -> (r: Vec<u8>)
    ensures
        r@ == v@,
{
    let mut out: Vec<u8> = Vec::new();
    append_all(v, &mut out);
    assert(out@ =~= v@);
    out
}

/// Builds the key `announce` as bytes.
fn key_bytes_announce() -> (r: Vec<u8>)
    ensures
        r@ == key_announce(),
{
    let mut v: Vec<u8> = Vec::new();
    v.push(97u8);
    v.push(110u8);
    v.push(110u8);
    v.push(111u8);
    v.push(117u8);
    v.push(110u8);
    v.push(99u8);
    v.push(101u8);
    assert(v@ =~= key_announce());
    v
}

/// Builds the key `info` as bytes.
fn key_bytes_info() -> (r: Vec<u8>)
    ensures
        r@ == key_info(),
{
    let mut v: Vec<u8> = Vec::new();
    v.push(105u8);
    v.push(110u8);
    v.push(102u8);
    v.push(111u8);
    assert(v@ =~= key_info());
    v
}

/// Builds the key `name` as bytes.
fn key_bytes_name() -> (r: Vec<u8>)
    ensures
        r@ == key_name(),
{
    let mut v: Vec<u8> = Vec::new();
    v.push(110u8);
    v.push(97u8);
    v.push(109u8);
    v.push(101u8);
    assert(v@ =~= key_name());
    v
}

/// Builds the key `length` as bytes.
fn key_bytes_length() -> (r: Vec<u8>)
    ensures
        r@ == key_length(),
{
    let mut v: Vec<u8> = Vec::new();
    v.push(108u8);
    v.push(101u8);
    v.push(110u8);
    v.push(103u8);
    v.push(116u8);
    v.push(104u8);
    assert(v@ =~= key_length());
    v
}

/// Builds the key `piece length` as bytes.
fn key_bytes_piece_length() -> (r: Vec<u8>)
    ensures
        r@ == key_piece_length(),
{
    let mut v: Vec<u8> = Vec::new();
    v.push(112u8);
    v.push(105u8);
    v.push(101u8);
    v.push(99u8);
    v.push(101u8);
    v.push(32u8);
    v.push(108u8);
    v.push(101u8);
    v.push(110u8);
    v.push(103u8);
    v.push(116u8);
    v.push(104u8);
    assert(v@ =~= key_piece_length());
    v
}

/// Builds the key `pieces` as bytes.
fn key_bytes_pieces() -> (r: Vec<u8>)
    ensures
        r@ == key_pieces(),
{
    let mut v: Vec<u8> = Vec::new();
    v.push(112u8);
    v.push(105u8);
    v.push(101u8);
    v.push(99u8);
    v.push(101u8);
    v.push(115u8);
    assert(v@ =~= key_pieces());
    v
}

/// Loads torrent metadata from raw file bytes: decodes the whole input as
/// one bencode value, then projects it onto the schema.  Returns exactly
/// what `sp_value` and `project` say, and a trailing-bytes parse error when
/// the first value ends before the input does.
pub fn load_torrent(data: &[u8]) -> (r: Result<TorrentMetadata, TorrentError>)
    ensures
        ({
            match sp_value(data@, 0, MAX_DEPTH as nat) {
                Err(e) => r matches Err(TorrentError::Parse(pe)) && pe.offset as int == e.0
                    && pe.reason == e.1,
                Ok(tj) => if tj.1 != data@.len() {
                    r matches Err(TorrentError::Parse(pe)) && pe.offset as int == tj.1
                        && pe.reason == ParseReason::TrailingBytes
                } else {
                    match project(tj.0) {
                        Err(se) => r == Err::<TorrentMetadata, TorrentError>(
                            TorrentError::Schema(se),
                        ),
                        Ok(shape) => r matches Ok(m) && m.announce@ == shape.announce && m.name@
                            == shape.name && m.piece_length as int == shape.piece_length
                            && m.length as int == shape.length && m.pieces@ == shape.pieces,
                    }
                },
            }
        }),
{
    let decoded = decode(data);
    let (v, n) = match decoded {
        Err(pe) => {
            return Err(TorrentError::Parse(pe));
        },
        Ok(p) => p,
    };
    if n != data.len() {
        return Err(
            TorrentError::Parse(ParseError { offset: n, reason: ParseReason::TrailingBytes }),
        );
    }
    let top = match &v {
        BencodeValue::Dictionary(d) => d,
        _ => {
            return Err(
                TorrentError::Schema(
                    SchemaError { field: FieldName::TopLevel, reason: SchemaReason::NotADictionary },
                ),
            );
        },
    };
    let ka = key_bytes_announce();
    let announce_s = match dict_get(top, &ka) {
        None => {
            return Err(
                TorrentError::Schema(
                    SchemaError { field: FieldName::Announce, reason: SchemaReason::Missing },
                ),
            );
        },
        Some(av) => match av {
            BencodeValue::ByteString(ab) => match bytes_to_utf8(ab) {
                None => {
                    return Err(
                        TorrentError::Schema(
                            SchemaError { field: FieldName::Announce, reason: SchemaReason::NotText },
                        ),
                    );
                },
                Some(s) => s,
            },
            _ => {
                return Err(
                    TorrentError::Schema(
                        SchemaError { field: FieldName::Announce, reason: SchemaReason::WrongType },
                    ),
                );
            },
        },
    };
    let ki = key_bytes_info();
    let idict = match dict_get(top, &ki) {
        None => {
            return Err(
                TorrentError::Schema(
                    SchemaError { field: FieldName::Info, reason: SchemaReason::Missing },
                ),
            );
        },
        Some(iv) => match iv {
            BencodeValue::Dictionary(id) => id,
            _ => {
                return Err(
                    TorrentError::Schema(
                        SchemaError { field: FieldName::Info, reason: SchemaReason::WrongType },
                    ),
                );
            },
        },
    };
    let kn = key_bytes_name();
    let name_s = match dict_get(idict, &kn) {
        None => {
            return Err(
                TorrentError::Schema(
                    SchemaError { field: FieldName::Name, reason: SchemaReason::Missing },
                ),
            );
        },
        Some(nv) => match nv {
            BencodeValue::ByteString(nb) => match bytes_to_utf8(nb) {
                None => {
                    return Err(
                        TorrentError::Schema(
                            SchemaError { field: FieldName::Name, reason: SchemaReason::NotText },
                        ),
                    );
                },
                Some(s) => s,
            },
            _ => {
                return Err(
                    TorrentError::Schema(
                        SchemaError { field: FieldName::Name, reason: SchemaReason::WrongType },
                    ),
                );
            },
        },
    };
    let kl = key_bytes_length();
    let length_v: u64 = match dict_get(idict, &kl) {
        None => {
            return Err(
                TorrentError::Schema(
                    SchemaError { field: FieldName::Length, reason: SchemaReason::Missing },
                ),
            );
        },
        Some(lv) => match lv {
            BencodeValue::Integer(len) => if *len < 0 {
                return Err(
                    TorrentError::Schema(
                        SchemaError { field: FieldName::Length, reason: SchemaReason::Negative },
                    ),
                );
            } else {
                *len as u64
            },
            _ => {
                return Err(
                    TorrentError::Schema(
                        SchemaError { field: FieldName::Length, reason: SchemaReason::WrongType },
                    ),
                );
            },
        },
    };
    let kp = key_bytes_piece_length();
    let piece_length_v: u64 = match dict_get(idict, &kp) {
        None => {
            return Err(
                TorrentError::Schema(
                    SchemaError { field: FieldName::PieceLength, reason: SchemaReason::Missing },
                ),
            );
        },
        Some(pv) => match pv {
            BencodeValue::Integer(pl) => if *pl < 1 {
                return Err(
                    TorrentError::Schema(
                        SchemaError {
                            field: FieldName::PieceLength,
                            reason: SchemaReason::NonPositive,
                        },
                    ),
                );
            } else {
                *pl as u64
            },
            _ => {
                return Err(
                    TorrentError::Schema(
                        SchemaError {
                            field: FieldName::PieceLength,
                            reason: SchemaReason::WrongType,
                        },
                    ),
                );
            },
        },
    };
    let kb = key_bytes_pieces();
    let pieces_v: Vec<u8> = match dict_get(idict, &kb) {
        None => {
            return Err(
                TorrentError::Schema(
                    SchemaError { field: FieldName::Pieces, reason: SchemaReason::Missing },
                ),
            );
        },
        Some(bv) => match bv {
            BencodeValue::ByteString(pb) => {
                if pb.len() % 20 != 0 {
                    return Err(
                        TorrentError::Schema(
                            SchemaError {
                                field: FieldName::Pieces,
                                reason: SchemaReason::NotMultipleOf20,
                            },
                        ),
                    );
                }
                let want: u64 = (length_v + piece_length_v - 1) / piece_length_v;
                if (pb.len() / 20) as u64 != want {
                    return Err(
                        TorrentError::Schema(
                            SchemaError {
                                field: FieldName::Pieces,
                                reason: SchemaReason::PieceCountMismatch,
                            },
                        ),
                    );
                }
                clone_bytes(pb)
            },
            _ => {
                return Err(
                    TorrentError::Schema(
                        SchemaError { field: FieldName::Pieces, reason: SchemaReason::WrongType },
                    ),
                );
            },
        },
    };
    Ok(
        TorrentMetadata {
            announce: announce_s,
            name: name_s,
            piece_length: piece_length_v,
            length: length_v,
            pieces: pieces_v,
        },
    )
}

} // verus!
