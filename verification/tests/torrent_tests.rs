use torrent_core::model::BencodeValue;
use torrent_core::decode::{decode, ParseReason};
use torrent_core::torrent::{load_torrent, dict_take, info_key, FieldName, SchemaReason,
    TorrentError};
use torrent_core::canonical::{canonical_info_hash, canonical_info_hash_hex};
use torrent_core::hash::{to_hex, piece_hashes_hex};

/// A well-formed single-file torrent: announce URL, and an info dictionary
/// with name `xy`, length 40, piece length 20, and two 20-byte piece rows.
fn fixture(length: u64, pieces_len: usize) -> Vec<u8> {
    let mut out = Vec::new();
    out.extend_from_slice(b"d8:announce20:http://t.example/ann4:infod6:lengthi");
    out.extend_from_slice(length.to_string().as_bytes());
    out.extend_from_slice(b"e4:name2:xy12:piece lengthi20e6:pieces");
    out.extend_from_slice(pieces_len.to_string().as_bytes());
    out.push(b':');
    for i in 0..pieces_len {
        out.push((i % 251) as u8);
    }
    out.extend_from_slice(b"ee");
    out
}

#[test]
fn load_valid_torrent() {
    let data = fixture(40, 40);
    let m = load_torrent(&data).unwrap();
    assert_eq!(m.announce, "http://t.example/ann");
    assert_eq!(m.name, "xy");
    assert_eq!(m.length, 40);
    assert_eq!(m.piece_length, 20);
    assert_eq!(m.pieces.len(), 40);
}

#[test]
fn piece_count_mismatch_is_schema_error() {
    // length 50 needs ceil(50 / 20) == 3 piece digests, but only 2 are given.
    let data = fixture(50, 40);
    let e = load_torrent(&data).unwrap_err();
    match e {
        TorrentError::Schema(se) => {
            assert_eq!(se.field, FieldName::Pieces);
            assert_eq!(se.reason, SchemaReason::PieceCountMismatch);
        },
        other => panic!("expected schema error, got {:?}", other),
    }
}

#[test]
fn pieces_not_multiple_of_20_is_schema_error() {
    let data = fixture(40, 30);
    let e = load_torrent(&data).unwrap_err();
    match e {
        TorrentError::Schema(se) => {
            assert_eq!(se.field, FieldName::Pieces);
            assert_eq!(se.reason, SchemaReason::NotMultipleOf20);
        },
        other => panic!("expected schema error, got {:?}", other),
    }
}

#[test]
fn missing_announce_is_schema_error() {
    let data = b"d4:infod6:lengthi0e4:name1:x12:piece lengthi1e6:pieces0:ee";
    let e = load_torrent(data).unwrap_err();
    match e {
        TorrentError::Schema(se) => {
            assert_eq!(se.field, FieldName::Announce);
            assert_eq!(se.reason, SchemaReason::Missing);
        },
        other => panic!("expected schema error, got {:?}", other),
    }
}

#[test]
fn info_not_dictionary_is_schema_error() {
    let data = b"d8:announce3:url4:infoi7ee";
    let e = load_torrent(data).unwrap_err();
    match e {
        TorrentError::Schema(se) => {
            assert_eq!(se.field, FieldName::Info);
            assert_eq!(se.reason, SchemaReason::WrongType);
        },
        other => panic!("expected schema error, got {:?}", other),
    }
}

#[test]
fn announce_invalid_text_is_schema_error() {
    let data = b"d8:announce2:\xff\xfe4:infod6:lengthi0e4:name1:x12:piece lengthi1e6:pieces0:ee";
    let e = load_torrent(data).unwrap_err();
    match e {
        TorrentError::Schema(se) => {
            assert_eq!(se.field, FieldName::Announce);
            assert_eq!(se.reason, SchemaReason::NotText);
        },
        other => panic!("expected schema error, got {:?}", other),
    }
}

#[test]
fn negative_length_is_schema_error() {
    let data = b"d8:announce3:url4:infod6:lengthi-1e4:name1:x12:piece lengthi1e6:pieces0:ee";
    let e = load_torrent(data).unwrap_err();
    match e {
        TorrentError::Schema(se) => {
            assert_eq!(se.field, FieldName::Length);
            assert_eq!(se.reason, SchemaReason::Negative);
        },
        other => panic!("expected schema error, got {:?}", other),
    }
}

#[test]
fn malformed_file_is_parse_error() {
    let e = load_torrent(b"d8:announce").unwrap_err();
    assert!(matches!(e, TorrentError::Parse(_)));
}

#[test]
fn trailing_bytes_are_a_parse_error() {
    let e = load_torrent(b"i1extra").unwrap_err();
    match e {
        TorrentError::Parse(pe) => {
            assert_eq!(pe.reason, ParseReason::TrailingBytes);
            assert_eq!(pe.offset, 3);
        },
        other => panic!("expected parse error, got {:?}", other),
    }
}

#[test]
fn info_hash_ignores_key_insertion_order() {
    let sorted = BencodeValue::Dictionary(vec![
        (b"length".to_vec(), BencodeValue::Integer(40)),
        (b"name".to_vec(), BencodeValue::ByteString(b"xy".to_vec())),
    ]);
    let reversed = BencodeValue::Dictionary(vec![
        (b"name".to_vec(), BencodeValue::ByteString(b"xy".to_vec())),
        (b"length".to_vec(), BencodeValue::Integer(40)),
    ]);
    let h1 = canonical_info_hash(sorted);
    let h2 = canonical_info_hash(reversed);
    assert_eq!(h1.len(), 20);
    assert_eq!(h1, h2);
}

#[test]
fn info_hash_differs_for_different_content() {
    let a = BencodeValue::Dictionary(vec![(b"length".to_vec(), BencodeValue::Integer(40))]);
    let b = BencodeValue::Dictionary(vec![(b"length".to_vec(), BencodeValue::Integer(41))]);
    assert_ne!(canonical_info_hash(a), canonical_info_hash(b));
}

#[test]
fn info_hash_hex_matches_raw_digest() {
    let a = BencodeValue::Dictionary(vec![(b"length".to_vec(), BencodeValue::Integer(40))]);
    let b = BencodeValue::Dictionary(vec![(b"length".to_vec(), BencodeValue::Integer(40))]);
    let raw = canonical_info_hash(a);
    let hexed = canonical_info_hash_hex(b);
    assert_eq!(hexed, to_hex(&raw));
    assert_eq!(hexed.len(), 40);
}

#[test]
fn extract_info_subtree_for_hashing() {
    let data = fixture(40, 40);
    let (v, _) = decode(&data).unwrap();
    let pairs = match v {
        BencodeValue::Dictionary(pairs) => pairs,
        other => panic!("expected dictionary, got {:?}", other),
    };
    let key = info_key();
    let info = dict_take(pairs, &key).unwrap();
    assert!(matches!(info, BencodeValue::Dictionary(_)));
    let h = canonical_info_hash(info);
    assert_eq!(h.len(), 20);
}

#[test]
fn hex_encoding_is_lowercase_pairs() {
    assert_eq!(to_hex(&vec![0xabu8, 0x00u8, 0xffu8]), "ab00ff");
    assert_eq!(to_hex(&vec![171u8]), "ab");
}

#[test]
fn piece_hashes_split_into_hex_rows() {
    let mut pieces = Vec::new();
    for _ in 0..20 {
        pieces.push(0x01u8);
    }
    for _ in 0..20 {
        pieces.push(0xffu8);
    }
    let rows = piece_hashes_hex(&pieces);
    assert_eq!(rows.len(), 2);
    assert_eq!(rows[0], "01".repeat(20));
    assert_eq!(rows[1], "ff".repeat(20));
}
