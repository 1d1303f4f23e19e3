use torrent_core::announce::{percent_encode, build_query, build_announce_url,
    TrackerAnnounceParams};

fn params(info_hash: Vec<u8>, peer_id: Vec<u8>) -> TrackerAnnounceParams {
    TrackerAnnounceParams {
        info_hash,
        peer_id,
        port: 6881,
        uploaded: 0,
        downloaded: 0,
        left: 12335,
        compact: true,
    }
}

#[test]
fn percent_encoding_of_control_and_plus_bytes() {
    // Byte 0x00 must become %00 and byte 0x2b (`+`) must become %2B: neither
    // may pass through a text path unescaped.
    assert_eq!(percent_encode(&vec![0x00u8]), "%00");
    assert_eq!(percent_encode(&vec![0x2bu8]), "%2B");
    assert_eq!(percent_encode(&vec![0x00u8, 0x2bu8, b'a']), "%00%2Ba");
}

#[test]
fn percent_encoding_keeps_unreserved_bytes() {
    assert_eq!(percent_encode(&b"AZaz09-._~".to_vec()), "AZaz09-._~");
}

#[test]
fn percent_encoding_escapes_reserved_bytes() {
    assert_eq!(percent_encode(&b" /?&=%".to_vec()), "%20%2F%3F%26%3D%25");
    assert_eq!(percent_encode(&vec![0xffu8, 0x10u8]), "%FF%10");
}

#[test]
fn query_string_layout() {
    // An info hash holding byte 0x00 and byte 0x2b (`+`) must reach the
    // query string as %00 and %2B, never through a text path.
    let mut hash = vec![0x00u8, 0x2bu8];
    let mut peer = Vec::new();
    for _ in 0..18 {
        hash.push(0x00u8);
    }
    for _ in 0..20 {
        peer.push(b'p');
    }
    let q = build_query(&params(hash, peer));
    let expected = format!(
        "info_hash=%00%2B{}&peer_id={}&port=6881&uploaded=0&downloaded=0&left=12335&compact=1",
        "%00".repeat(18),
        "p".repeat(20)
    );
    assert_eq!(q, expected);
}

#[test]
fn query_string_compact_flag_off() {
    let mut hash = Vec::new();
    let mut peer = Vec::new();
    for _ in 0..20 {
        hash.push(b'h');
        peer.push(b'p');
    }
    let mut p = params(hash, peer);
    p.compact = false;
    let q = build_query(&p);
    assert!(q.ends_with("&compact=0"));
}

#[test]
fn announce_url_joins_with_question_mark() {
    let mut hash = Vec::new();
    let mut peer = Vec::new();
    for i in 0..20u8 {
        hash.push(i);
        peer.push(b'0' + (i % 10));
    }
    let url = build_announce_url(&String::from("http://t.example/ann"), &params(hash, peer));
    assert!(url.starts_with("http://t.example/ann?info_hash=%00%01%02"));
    assert!(url.contains("&peer_id=01234567890123456789"));
    assert!(url.contains("&left=12335"));
}
