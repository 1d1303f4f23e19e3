//! Verified core of a BitTorrent metadata client: a bencode codec with a
//! canonical (sorted-key) encoder, typed torrent metadata with its schema
//! checks, info-hash derivation, and tracker announce-query construction.

pub mod digits;
pub mod model;
pub mod encode;
pub mod decode;
pub mod text;
pub mod hash;
pub mod announce;
pub mod torrent;
pub mod render;
pub mod roundtrip;
pub mod canonical;
