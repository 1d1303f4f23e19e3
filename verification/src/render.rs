use vstd::prelude::*;
use crate::digits::{int_digits, i64_digits};
use crate::model::{BencodeValue, SpecValue, view_of, views_of, pair_views_of, height_of,
    heights_of, pair_heights_of, lemma_views_of_index, lemma_pair_views_of_index,
    lemma_heights_of_bound, lemma_pair_heights_of_bound};
use crate::text::{ascii_chars, push_char, push_ascii};

verus! {

/// The characters of a byte sequence read as text with lossy decoding,
/// named here and computed outside: invalid sequences become replacement
/// characters.  For display only; never a source of bytes.
pub uninterp spec fn lossy_utf8(b: Seq<u8>) -> Seq<char>;

/// Relies on String::from_utf8_lossy: the characters depend on the bytes
/// alone, with invalid sequences replaced.
#[verifier::external_body]
fn bytes_to_text_lossy(b: &Vec<u8>) -> (r: String)
    ensures
        r@ == lossy_utf8(b@),
{
    String::from_utf8_lossy(b.as_slice()).to_string()
}

/// Relies on str::chars: the characters of the string, in order.
#[verifier::external_body]
fn string_chars(s: &String) -> (r: Vec<char>)
    ensures
        r@ == s@,
{
    s.chars().collect()
}

/// How one character appears inside a quoted display string: quotes and
/// backslashes gain a backslash, everything else stands for itself.
pub open spec fn escaped_char(c: char) -> Seq<char> {
    if c == '"' {
        seq!['\\', '"']
    } else if c == '\\' {
        seq!['\\', '\\']
    } else {
        seq![c]
    }
}

/// The escaped form of a character sequence.
pub open spec fn escape_chars(cs: Seq<char>) -> Seq<char>
    decreases cs.len(),
{
    if cs.len() == 0 {
        Seq::empty()
    } else {
        escape_chars(cs.drop_last()) + escaped_char(cs.last())
    }
}

/// A byte string displayed as quoted, escaped, lossily decoded text.
pub open spec fn quoted(b: Seq<u8>) -> Seq<char> {
    seq!['"'] + escape_chars(lossy_utf8(b)) + seq!['"']
}

/// The display rendering of a value tree: quoted text for byte strings,
/// decimal for integers, a bracketed comma-separated array for lists, and a
/// braced object of `"key":value` entries, in stored order, for dictionaries.
pub open spec fn render_chars(t: SpecValue) -> Seq<char>
    decreases t,
{
    match t {
        SpecValue::Bytes(b) => quoted(b),
        SpecValue::Int(i) => ascii_chars(int_digits(i)),
        SpecValue::List(l) => seq!['['] + render_list(l) + seq![']'],
        SpecValue::Dict(d) => seq!['{'] + render_dict(d) + seq!['}'],
    }
}

/// Comma-separated renderings of a sequence of values.
pub open spec fn render_list(l: Seq<SpecValue>) -> Seq<char>
    decreases l,
{
    if l.len() == 0 {
        Seq::empty()
    } else if l.len() == 1 {
        render_chars(l.last())
    } else {
        render_list(l.drop_last()) + seq![','] + render_chars(l.last())
    }
}

/// One dictionary entry: the quoted key, a colon, the rendered value.
pub open spec fn render_entry(p: (Seq<u8>, SpecValue)) -> Seq<char>
    decreases p,
{
    quoted(p.0) + seq![':'] + render_chars(p.1)
}

/// Comma-separated renderings of a sequence of entries.
pub open spec fn render_dict(d: Seq<(Seq<u8>, SpecValue)>) -> Seq<char>
    decreases d,
{
    if d.len() == 0 {
        Seq::empty()
    } else if d.len() == 1 {
        render_entry(d.last())
    } else {
        render_dict(d.drop_last()) + seq![','] + render_entry(d.last())
    }
}

/// Appends the quoted, escaped, lossily decoded form of `b` to `out`.
#[verifier::loop_isolation(false)]
fn push_quoted(out: &mut String, b: &Vec<u8>)
    ensures
        final(out)@ == old(out)@ + quoted(b@),
{
    push_char(out, '"');
    let text = bytes_to_text_lossy(b);
    let cs = string_chars(&text);
    let mut k: usize = 0;
    assert(cs@.subrange(0, 0) =~= Seq::<char>::empty());
    assert(out@ =~= old(out)@ + seq!['"'] + escape_chars(cs@.subrange(0, 0)));
    while k < cs.len()
        invariant
            k <= cs@.len(),
            out@ == old(out)@ + seq!['"'] + escape_chars(cs@.subrange(0, k as int)),
        decreases cs@.len() - k,
    {
        let c = cs[k];
        if c == '"' {
            push_char(out, '\\');
            push_char(out, '"');
        } else if c == '\\' {
            push_char(out, '\\');
            push_char(out, '\\');
        } else {
            push_char(out, c);
        }
        proof {
            assert(cs@.subrange(0, k as int + 1).drop_last() =~= cs@.subrange(0, k as int));
        }
        k = k + 1;
        assert(out@ =~= old(out)@ + seq!['"'] + escape_chars(cs@.subrange(0, k as int)));
    }
    assert(cs@.subrange(0, cs@.len() as int) =~= cs@);
    push_char(out, '"');
    assert(out@ =~= old(out)@ + quoted(b@));
}

/// Appends the display rendering of `v` to `out`.
#[verifier::loop_isolation(false)]
fn render_into(v: &BencodeValue, out: &mut String)
    ensures
        final(out)@ == old(out)@ + render_chars(view_of(*v)),
    decreases height_of(view_of(*v)),
{
    match v {
        BencodeValue::ByteString(b) => {
            push_quoted(out, b);
        },
        BencodeValue::Integer(i) => {
            let ds = i64_digits(*i);
            push_ascii(out, &ds);
        },
        BencodeValue::List(l) => {
            proof {
                lemma_views_of_index(l@);
            }
            push_char(out, '[');
            let mut k: usize = 0;
            assert(out@ =~= old(out)@ + seq!['['] + render_list(views_of(l@).subrange(0, 0)));
            while k < l.len()
                invariant
                    k <= l@.len(),
                    view_of(*v) == SpecValue::List(views_of(l@)),
                    out@ == old(out)@ + seq!['['] + render_list(views_of(l@).subrange(0, k as int)),
                decreases l@.len() - k,
            {
                if k > 0 {
                    push_char(out, ',');
                }
                proof {
                    lemma_heights_of_bound(views_of(l@));
                    assert(height_of(views_of(l@)[k as int]) < height_of(view_of(*v)));
                }
                render_into(&l[k], out);
                proof {
                    assert(views_of(l@).subrange(0, k as int + 1).drop_last() =~= views_of(
                        l@,
                    ).subrange(0, k as int));
                }
                k = k + 1;
                assert(out@ =~= old(out)@ + seq!['['] + render_list(
                    views_of(l@).subrange(0, k as int),
                ));
            }
            assert(views_of(l@).subrange(0, views_of(l@).len() as int) =~= views_of(l@));
            push_char(out, ']');
            assert(out@ =~= old(out)@ + render_chars(view_of(*v)));
        },
        BencodeValue::Dictionary(d) => {
            proof {
                lemma_pair_views_of_index(d@);
            }
            push_char(out, '{');
            let mut k: usize = 0;
            assert(out@ =~= old(out)@ + seq!['{'] + render_dict(pair_views_of(d@).subrange(0, 0)));
            while k < d.len()
                invariant
                    k <= d@.len(),
                    view_of(*v) == SpecValue::Dict(pair_views_of(d@)),
                    out@ == old(out)@ + seq!['{'] + render_dict(
                        pair_views_of(d@).subrange(0, k as int),
                    ),
                decreases d@.len() - k,
            {
                if k > 0 {
                    push_char(out, ',');
                }
                let pair = &d[k];
                push_quoted(out, &pair.0);
                push_char(out, ':');
                proof {
                    lemma_pair_heights_of_bound(pair_views_of(d@));
                    assert(height_of(pair_views_of(d@)[k as int].1) < height_of(view_of(*v)));
                }
                render_into(&pair.1, out);
                proof {
                    assert(pair_views_of(d@).subrange(0, k as int + 1).drop_last()
                        =~= pair_views_of(d@).subrange(0, k as int));
                    assert(pair_views_of(d@).subrange(0, k as int + 1).last() == pair_views_of(
                        d@,
                    )[k as int]);
                    assert(render_entry(pair_views_of(d@)[k as int]) == quoted(d@[k as int].0@)
                        + seq![':'] + render_chars(view_of(d@[k as int].1)));
                }
                k = k + 1;
                assert(out@ =~= old(out)@ + seq!['{'] + render_dict(
                    pair_views_of(d@).subrange(0, k as int),
                ));
            }
            assert(pair_views_of(d@).subrange(0, pair_views_of(d@).len() as int) =~= pair_views_of(
                d@,
            ));
            push_char(out, '}');
            assert(out@ =~= old(out)@ + render_chars(view_of(*v)));
        },
    }
}

/// Renders a decoded value as one line of display text.
pub fn render(v: &BencodeValue) -> (r: String)
    ensures
        r@ == render_chars(view_of(*v)),
{
    let mut out = String::new();
    render_into(v, &mut out);
    assert(out@ =~= render_chars(view_of(*v)));
    out
}

} // verus!
