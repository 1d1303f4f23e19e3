use vstd::prelude::*;
use crate::text::{ascii_chars, dec_chars, push_char, push_decimal};

verus! {

/// Bytes that travel unescaped in a query string: ASCII letters and digits
/// and the unreserved marks `-` `.` `_` `~`.
pub open spec fn is_unreserved(b: u8) -> bool {
    (48 <= b && b <= 57) || (65 <= b && b <= 90) || (97 <= b && b <= 122) || b == 45 || b == 46
        || b == 95 || b == 126
}

/// The uppercase hexadecimal digit of a value below sixteen.
pub open spec fn hex_digit_upper(n: u8) -> char {
    if n < 10 {
        (48 + n) as char
    } else {
        (55 + n) as char
    }
}

/// Percent-encoding of raw bytes: an unreserved byte stands for itself and
/// every other byte, control and non-printable bytes included, becomes
/// `%XX` with uppercase hex digits.
pub open spec fn pct_chars(b: Seq<u8>) -> Seq<char>
    decreases b.len(),
{
    if b.len() == 0 {
        Seq::empty()
    } else {
        (if is_unreserved(b[0]) {
            seq![b[0] as char]
        } else {
            seq!['%', hex_digit_upper(b[0] / 16), hex_digit_upper(b[0] % 16)]
        }) + pct_chars(b.drop_first())
    }
}

/// Percent-encoding one more byte extends the encoding at its end.
pub proof fn lemma_pct_chars_push(b: Seq<u8>, x: u8)
    ensures
        pct_chars(b.push(x)) == pct_chars(b) + (if is_unreserved(x) {
            seq![x as char]
        } else {
            seq!['%', hex_digit_upper(x / 16), hex_digit_upper(x % 16)]
        }),
    decreases b.len(),
{
    let tail = if is_unreserved(x) {
        seq![x as char]
    } else {
        seq!['%', hex_digit_upper(x / 16), hex_digit_upper(x % 16)]
    };
    if b.len() == 0 {
        assert(b.push(x).drop_first() =~= Seq::<u8>::empty());
        assert(pct_chars(Seq::<u8>::empty()) =~= Seq::<char>::empty());
        assert(pct_chars(b.push(x)) =~= pct_chars(b) + tail);
    } else {
        assert(b.push(x).drop_first() =~= b.drop_first().push(x));
        lemma_pct_chars_push(b.drop_first(), x);
        assert(pct_chars(b.push(x)) =~= pct_chars(b) + tail);
    }
}

/// Reports whether a byte needs no escaping in a query string.
pub fn byte_is_unreserved(b: u8) -> (r: bool)
    ensures
        r == is_unreserved(b),
{
    (48 <= b && b <= 57) || (65 <= b && b <= 90) || (97 <= b && b <= 122) || b == 45 || b == 46
        || b == 95 || b == 126
}

/// Appends the percent-encoding of `data` to `out`.
#[verifier::loop_isolation(false)]
fn push_percent_encoded(out: &mut String, data: &Vec<u8>)
    ensures
        final(out)@ == old(out)@ + pct_chars(data@),
{
    let mut k: usize = 0;
    assert(data@.subrange(0, 0) =~= Seq::<u8>::empty());
    assert(out@ =~= old(out)@ + pct_chars(data@.subrange(0, 0)));
    while k < data.len()
        invariant
            k <= data@.len(),
            out@ == old(out)@ + pct_chars(data@.subrange(0, k as int)),
        decreases data@.len() - k,
    {
        let b = data[k];
        if byte_is_unreserved(b) {
            push_char(out, b as char);
        } else {
            push_char(out, '%');
            let hi = b / 16;
            let lo = b % 16;
            push_char(
                out,
                if hi < 10 {
                    (48 + hi) as char
                } else {
                    (55 + hi) as char
                },
            );
            push_char(
                out,
                if lo < 10 {
                    (48 + lo) as char
                } else {
                    (55 + lo) as char
                },
            );
        }
        proof {
            lemma_pct_chars_push(data@.subrange(0, k as int), data@[k as int]);
            assert(data@.subrange(0, k as int).push(data@[k as int]) =~= data@.subrange(
                0,
                k as int + 1,
            ));
        }
        k = k + 1;
    }
    assert(data@.subrange(0, data@.len() as int) =~= data@);
}

/// Percent-encodes raw bytes for use in a query string.
pub fn percent_encode(data: &Vec<u8>) -> (r: String)
    ensures
        r@ == pct_chars(data@),
{
    let mut out = String::new();
    push_percent_encoded(&mut out, data);
    assert(out@ =~= pct_chars(data@));
    out
}

/// The parameters of one tracker announce: the swarm key, this peer's
/// identity, its port, and the transfer counters.
pub struct TrackerAnnounceParams {
    pub info_hash: Vec<u8>,
    pub peer_id: Vec<u8>,
    pub port: u16,
    pub uploaded: u64,
    pub downloaded: u64,
    pub left: u64,
    pub compact: bool,
}

impl TrackerAnnounceParams {
    /// The identifiers an announce carries are fixed-length: 20 bytes each.
    pub open spec fn wf(&self) -> bool {
        self.info_hash@.len() == 20 && self.peer_id@.len() == 20
    }
}

/// The announce query string: `info_hash` and `peer_id` percent-encoded as
/// raw bytes, the counters in decimal, the compact flag as `0` or `1`.
pub open spec fn announce_query_chars(p: TrackerAnnounceParams) -> Seq<char> {
    "info_hash="@ + pct_chars(p.info_hash@) + "&peer_id="@ + pct_chars(p.peer_id@) + "&port="@
        + dec_chars(p.port as nat) + "&uploaded="@ + dec_chars(p.uploaded as nat)
        + "&downloaded="@ + dec_chars(p.downloaded as nat) + "&left="@ + dec_chars(p.left as nat)
        + "&compact="@ + (if p.compact {
        "1"@
    } else {
        "0"@
    })
}

/// Builds the announce query string for the given parameters.
pub fn build_query(p: &TrackerAnnounceParams) -> (r: String)
    requires
        p.wf(),
    ensures
        r@ == announce_query_chars(*p),
{
    let mut out = String::new();
    out.append("info_hash=");
    push_percent_encoded(&mut out, &p.info_hash);
    out.append("&peer_id=");
    push_percent_encoded(&mut out, &p.peer_id);
    out.append("&port=");
    push_decimal(&mut out, p.port as u64);
    out.append("&uploaded=");
    push_decimal(&mut out, p.uploaded);
    out.append("&downloaded=");
    push_decimal(&mut out, p.downloaded);
    out.append("&left=");
    push_decimal(&mut out, p.left);
    out.append("&compact=");
    if p.compact {
        out.append("1");
    } else {
        out.append("0");
    }
    assert(out@ =~= announce_query_chars(*p));
    out
}

/// Builds the full announce URL: the announce location, a `?`, the query.
pub fn build_announce_url(announce: &String, p: &TrackerAnnounceParams) -> (r: String)
    requires
        p.wf(),
    ensures
        r@ == announce@ + "?"@ + announce_query_chars(*p),
{
    let mut out = announce.clone();
    out.append("?");
    let query = build_query(p);
    out.append(query.as_str());
    assert(out@ =~= announce@ + "?"@ + announce_query_chars(*p));
    out
}

} // verus!
