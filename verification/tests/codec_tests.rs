use torrent_core::model::BencodeValue;
use torrent_core::decode::{decode, ParseReason};
use torrent_core::encode::encode;
use torrent_core::canonical::{canonicalize, encode_canonical};
use torrent_core::render::render;

fn bs(s: &[u8]) -> BencodeValue {
    BencodeValue::ByteString(s.to_vec())
}

#[test]
fn decode_byte_string_literal() {
    let (v, n) = decode(b"4:spam").unwrap();
    assert_eq!(v, bs(b"spam"));
    assert_eq!(n, 6);
}

#[test]
fn decode_negative_integer_literal() {
    let (v, n) = decode(b"i-42e").unwrap();
    assert_eq!(v, BencodeValue::Integer(-42));
    assert_eq!(n, 5);
}

#[test]
fn decode_list_literal() {
    let (v, n) = decode(b"l4:spam4:eggse").unwrap();
    assert_eq!(v, BencodeValue::List(vec![bs(b"spam"), bs(b"eggs")]));
    assert_eq!(n, 14);
}

#[test]
fn decode_dictionary_literal() {
    let (v, n) = decode(b"d3:cow3:moo4:spam4:eggse").unwrap();
    assert_eq!(
        v,
        BencodeValue::Dictionary(vec![
            (b"cow".to_vec(), bs(b"moo")),
            (b"spam".to_vec(), bs(b"eggs")),
        ])
    );
    assert_eq!(n, 24);
}

#[test]
fn decode_zero_and_empty_string() {
    assert_eq!(decode(b"i0e").unwrap().0, BencodeValue::Integer(0));
    assert_eq!(decode(b"0:").unwrap(), (bs(b""), 2));
}

#[test]
fn decode_extreme_integers() {
    assert_eq!(
        decode(b"i9223372036854775807e").unwrap().0,
        BencodeValue::Integer(i64::MAX)
    );
    assert_eq!(
        decode(b"i-9223372036854775808e").unwrap().0,
        BencodeValue::Integer(i64::MIN)
    );
}

#[test]
fn decode_length_overruns_input() {
    let e = decode(b"5:hi").unwrap_err();
    assert_eq!(e.reason, ParseReason::BadLengthPrefix);
    assert_eq!(e.offset, 0);
}

#[test]
fn decode_minus_zero_rejected() {
    let e = decode(b"i-0e").unwrap_err();
    assert_eq!(e.reason, ParseReason::InvalidInteger);
}

#[test]
fn decode_leading_zero_rejected() {
    let e = decode(b"i01e").unwrap_err();
    assert_eq!(e.reason, ParseReason::InvalidInteger);
}

#[test]
fn decode_integer_overflow_rejected() {
    let e = decode(b"i9223372036854775808e").unwrap_err();
    assert_eq!(e.reason, ParseReason::InvalidInteger);
    let e = decode(b"i-9223372036854775809e").unwrap_err();
    assert_eq!(e.reason, ParseReason::InvalidInteger);
}

#[test]
fn decode_empty_and_unterminated() {
    assert_eq!(decode(b"").unwrap_err().reason, ParseReason::Unterminated);
    assert_eq!(decode(b"l4:spam").unwrap_err().reason, ParseReason::Unterminated);
    assert_eq!(decode(b"i12").unwrap_err().reason, ParseReason::Unterminated);
    assert_eq!(decode(b"3:ab").unwrap_err().reason, ParseReason::BadLengthPrefix);
}

#[test]
fn decode_bad_leading_byte() {
    assert_eq!(decode(b"x").unwrap_err().reason, ParseReason::UnexpectedByte);
}

#[test]
fn decode_duplicate_key_rejected() {
    let e = decode(b"d1:ai1e1:ai2ee").unwrap_err();
    assert_eq!(e.reason, ParseReason::DuplicateKey);
}

#[test]
fn decode_non_string_key_rejected() {
    let e = decode(b"di1ei2ee").unwrap_err();
    assert_eq!(e.reason, ParseReason::WrongKeyType);
}

#[test]
fn decode_deep_nesting_rejected() {
    let mut input = Vec::new();
    for _ in 0..100 {
        input.push(b'l');
    }
    for _ in 0..100 {
        input.push(b'e');
    }
    let e = decode(&input).unwrap_err();
    assert_eq!(e.reason, ParseReason::TooDeep);

    let mut shallow = Vec::new();
    for _ in 0..10 {
        shallow.push(b'l');
    }
    for _ in 0..10 {
        shallow.push(b'e');
    }
    assert!(decode(&shallow).is_ok());
}

#[test]
fn round_trip_nested_value() {
    let v = BencodeValue::Dictionary(vec![
        (
            b"files".to_vec(),
            BencodeValue::List(vec![bs(b"one"), BencodeValue::Integer(-5), bs(b"")]),
        ),
        (b"zero".to_vec(), BencodeValue::Integer(0)),
    ]);
    let encoded = encode(&v);
    let (back, consumed) = decode(&encoded).unwrap();
    assert_eq!(back, v);
    assert_eq!(consumed, encoded.len());
}

#[test]
fn round_trip_byte_string_with_raw_bytes() {
    let v = bs(&[0u8, 255u8, 10u8, 58u8]);
    let encoded = encode(&v);
    assert_eq!(encoded, b"4:\x00\xff\x0a:".to_vec());
    let (back, consumed) = decode(&encoded).unwrap();
    assert_eq!(back, v);
    assert_eq!(consumed, 4 + 2);
}

#[test]
fn canonical_encoding_sorts_keys() {
    let b_first = BencodeValue::Dictionary(vec![
        (b"b".to_vec(), BencodeValue::Integer(1)),
        (b"a".to_vec(), BencodeValue::Integer(2)),
    ]);
    let a_first = BencodeValue::Dictionary(vec![
        (b"a".to_vec(), BencodeValue::Integer(2)),
        (b"b".to_vec(), BencodeValue::Integer(1)),
    ]);
    let e1 = encode_canonical(b_first);
    let e2 = encode_canonical(a_first);
    assert_eq!(e1, b"d1:ai2e1:bi1ee".to_vec());
    assert_eq!(e2, b"d1:ai2e1:bi1ee".to_vec());
}

#[test]
fn canonicalize_sorts_nested_dictionaries() {
    let v = BencodeValue::List(vec![BencodeValue::Dictionary(vec![
        (b"z".to_vec(), BencodeValue::Integer(1)),
        (b"m".to_vec(), BencodeValue::Integer(2)),
        (b"a".to_vec(), BencodeValue::Integer(3)),
    ])]);
    let c = canonicalize(v);
    assert_eq!(
        c,
        BencodeValue::List(vec![BencodeValue::Dictionary(vec![
            (b"a".to_vec(), BencodeValue::Integer(3)),
            (b"m".to_vec(), BencodeValue::Integer(2)),
            (b"z".to_vec(), BencodeValue::Integer(1)),
        ])])
    );
}

#[test]
fn render_dictionary_as_display_text() {
    let (v, _) = decode(b"d3:cow3:moo4:spam4:eggse").unwrap();
    assert_eq!(render(&v), "{\"cow\":\"moo\",\"spam\":\"eggs\"}");
}

#[test]
fn render_list_and_integers() {
    let (v, _) = decode(b"l4:spami-7ei0ee").unwrap();
    assert_eq!(render(&v), "[\"spam\",-7,0]");
}

#[test]
fn render_escapes_quotes_and_backslashes() {
    let v = bs(b"a\"b\\c");
    assert_eq!(render(&v), "\"a\\\"b\\\\c\"");
}

#[test]
fn render_invalid_text_uses_replacement() {
    let v = bs(&[0xffu8, 0xfeu8]);
    let shown = render(&v);
    assert!(shown.contains('\u{fffd}'));
}
