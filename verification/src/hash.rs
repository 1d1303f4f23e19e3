use vstd::prelude::*;
use sha1::{Digest, Sha1};
use crate::model::{BencodeValue, view_of, wf};
use crate::encode::{encode, encode_tree};

verus! {

/// The SHA-1 digest of a byte sequence, named here and computed by the
/// outside crate: a function of the bytes alone.
pub uninterp spec fn sha1_of(data: Seq<u8>) -> Seq<u8>;

/// Relies on sha1::Sha1 (through the digest traits): the SHA-1 digest of
/// `data`, always 20 bytes, a function of `data` alone.
#[verifier::external_body]
fn sha1_digest(data: &Vec<u8>) -> (r: Vec<u8>)
    ensures
        r@ == sha1_of(data@),
        r@.len() == 20,
{
    let mut hasher = Sha1::new();
    hasher.update(data.as_slice());
    hasher.finalize().to_vec()
}

/// The lowercase hexadecimal digit of a value below sixteen.
pub open spec fn hex_digit(n: u8) -> char {
    if n < 10 {
        (48 + n) as char
    } else {
        (87 + n) as char
    }
}

/// Lowercase hexadecimal rendering: two digits per byte, high nibble first.
pub open spec fn hex_chars(b: Seq<u8>) -> Seq<char>
    decreases b.len(),
{
    if b.len() == 0 {
        Seq::empty()
    } else {
        seq![hex_digit(b[0] / 16), hex_digit(b[0] % 16)] + hex_chars(b.drop_first())
    }
}

/// Relies on hex::encode: lowercase hexadecimal, two digits per byte, high
/// nibble first.
#[verifier::external_body]
fn hex_encode(data: &Vec<u8>) -> (r: String)
    ensures
        r@ == hex_chars(data@),
{
    hex::encode(data.as_slice())
}

/// The canonical info hash of a tree: the SHA-1 digest of its canonical
/// bencode encoding.
pub open spec fn info_hash_of(t: crate::model::SpecValue) -> Seq<u8> {
    sha1_of(encode_tree(t))
}

/// Computes the 20-byte info hash of a canonical info value.
pub fn info_hash(info: &BencodeValue) -> (r: Vec<u8>)
    requires
        wf(view_of(*info)),
    ensures
        r@ == info_hash_of(view_of(*info)),
        r@.len() == 20,
{
    let encoded = encode(info);
    sha1_digest(&encoded)
}

/// The info hash of a canonical info value as a lowercase hex string.
pub fn info_hash_hex(info: &BencodeValue) -> (r: String)
    requires
        wf(view_of(*info)),
    ensures
        r@ == hex_chars(info_hash_of(view_of(*info))),
{
    let digest = info_hash(info);
    hex_encode(&digest)
}

/// The lowercase hex rendering of arbitrary bytes.
pub fn to_hex(data: &Vec<u8>) -> (r: String)
    ensures
        r@ == hex_chars(data@),
{
    hex_encode(data)
}

/// One lowercase hex line per 20-byte piece digest of a pieces blob.
#[verifier::loop_isolation(false)]
pub fn piece_hashes_hex(pieces: &Vec<u8>) -> (r: Vec<String>)
    requires
        pieces@.len() % 20 == 0,
    ensures
        r@.len() * 20 == pieces@.len(),
        forall|i: int|
            0 <= i < r@.len() ==> (#[trigger] r@[i])@ == hex_chars(
                pieces@.subrange(20 * i, 20 * i + 20),
            ),
{
    let count = pieces.len() / 20;
    let mut out: Vec<String> = Vec::new();
    let mut k: usize = 0;
    while k < count
        invariant
            k <= count,
            count * 20 == pieces@.len(),
            out@.len() == k,
            forall|i: int|
                0 <= i < k ==> (#[trigger] out@[i])@ == hex_chars(
                    pieces@.subrange(20 * i, 20 * i + 20),
                ),
        decreases count - k,
    {
        let mut chunk: Vec<u8> = Vec::new();
        let base = k * 20;
        let mut t: usize = 0;
        while t < 20
            invariant
                t <= 20,
                base == k * 20,
                k < count,
                count * 20 == pieces@.len(),
                chunk@ == pieces@.subrange(base as int, base as int + t as int),
            decreases 20 - t,
        {
            assert(base + t < pieces@.len());
            chunk.push(pieces[base + t]);
            t = t + 1;
            assert(chunk@ =~= pieces@.subrange(base as int, base as int + t as int));
        }
        let line = hex_encode(&chunk);
        out.push(line);
        k = k + 1;
    }
    out
}

} // verus!
