use vstd::prelude::*;
use crate::digits::{dec_digits, u64_digits};

verus! {

/// The characters of a byte sequence read one to one, byte by byte.
pub open spec fn ascii_chars(b: Seq<u8>) -> Seq<char> {
    Seq::new(b.len(), |i: int| b[i] as char)
}

/// The decimal rendering of `n` as characters.
pub open spec fn dec_chars(n: nat) -> Seq<char> {
    ascii_chars(dec_digits(n))
}

/// Relies on String::push: appends exactly the given character.
#[verifier::external_body]
pub(crate) fn push_char(s: &mut String, c: char)
    ensures
        final(s)@ == old(s)@ + seq![c],
{
    s.push(c);
}

/// Appends each byte of `bs` to `out` as its character.
pub(crate) fn push_ascii(out: &mut String, bs: &Vec<u8>)
    ensures
        final(out)@ == old(out)@ + ascii_chars(bs@),
{
    let mut k: usize = 0;
    assert(out@ =~= old(out)@ + ascii_chars(bs@.subrange(0, 0)));
    while k < bs.len()
        invariant
            k <= bs.len(),
            out@ == old(out)@ + ascii_chars(bs@.subrange(0, k as int)),
        decreases bs.len() - k,
    {
        let b = bs[k];
        push_char(out, b as char);
        k = k + 1;
        assert(out@ =~= old(out)@ + ascii_chars(bs@.subrange(0, k as int)));
    }
    assert(bs@.subrange(0, bs@.len() as int) =~= bs@);
}

/// Appends the decimal rendering of `n` to `out`.
pub fn push_decimal(out: &mut String, n: u64)
    ensures
        final(out)@ == old(out)@ + dec_chars(n as nat),
{
    let ds = u64_digits(n);
    push_ascii(out, &ds);
}

} // verus!
