//! Decoder for the bencode serialization format (the encoding used by
//! BitTorrent metainfo files), together with a typed projection of a decoded
//! value tree onto the torrent metainfo schema.
//!
//! The decoder is a recursive-descent parser from raw bytes to a
//! [`value::BencodeValue`] tree; it is verified sound and complete against a
//! mathematical description of the grammar, the canonical encoding function
//! [`encoding::spec_encode`]. The projection maps a decoded tree onto the
//! torrent schema ([`metainfo::Torrent`]) and is verified against a relational
//! description of that schema, [`metainfo::torrent_matches`].

pub mod decode;
pub mod digits;
pub mod encoding;
pub mod metainfo;
pub mod value;
