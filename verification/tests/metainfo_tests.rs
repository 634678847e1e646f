//! Tests for the metainfo projection: schema checks, the piece-hash
//! chunking rule, and the single/multi-file discriminator.

use bencode_meta::decode::decode_document;
use bencode_meta::metainfo::{project, Keys, SchemaFault, SchemaField, Torrent};
use bencode_meta::value::BencodeValue;

fn enc_str(s: &[u8]) -> Vec<u8> {
    let mut v = format!("{}:", s.len()).into_bytes();
    v.extend_from_slice(s);
    v
}

fn enc_int(i: i64) -> Vec<u8> {
    format!("i{}e", i).into_bytes()
}

fn enc_dict(entries: &[(&[u8], Vec<u8>)]) -> Vec<u8> {
    let mut v = vec![b'd'];
    for (k, val) in entries {
        v.extend_from_slice(&enc_str(k));
        v.extend_from_slice(val);
    }
    v.push(b'e');
    v
}

fn enc_list(items: &[Vec<u8>]) -> Vec<u8> {
    let mut v = vec![b'l'];
    for it in items {
        v.extend_from_slice(it);
    }
    v.push(b'e');
    v
}

fn single_file_info(pieces: &[u8]) -> Vec<u8> {
    enc_dict(&[
        (b"name", enc_str(b"sample.bin")),
        (b"piece length", enc_int(32768)),
        (b"pieces", enc_str(pieces)),
        (b"length", enc_int(1024)),
    ])
}

fn single_file_doc(pieces: &[u8]) -> Vec<u8> {
    enc_dict(&[
        (b"announce", enc_str(b"http://tracker.example.org/announce")),
        (b"info", single_file_info(pieces)),
    ])
}

fn project_doc(doc: &[u8]) -> Result<Torrent, bencode_meta::metainfo::SchemaError> {
    let v = decode_document(doc).unwrap();
    project(&v)
}

#[test]
fn single_file_torrent_projects() {
    let mut pieces = vec![0x11u8; 20];
    pieces.extend_from_slice(&[0x22u8; 20]);
    let t = project_doc(&single_file_doc(&pieces)).unwrap();
    assert_eq!(t.announce.as_slice(), b"http://tracker.example.org/announce");
    assert_eq!(t.info.name.as_slice(), b"sample.bin");
    assert_eq!(t.info.piece_length, 32768);
    assert_eq!(t.info.pieces.len(), 2);
    assert_eq!(t.info.pieces[0].as_slice(), &[0x11u8; 20]);
    assert_eq!(t.info.pieces[1].as_slice(), &[0x22u8; 20]);
    assert_eq!(t.info.keys, Keys::SingleFile { length: 1024 });
}

#[test]
fn pieces_of_forty_bytes_give_two_hashes_in_order() {
    let pieces: Vec<u8> = (0u8..40).collect();
    let t = project_doc(&single_file_doc(&pieces)).unwrap();
    assert_eq!(t.info.pieces.len(), 2);
    assert_eq!(t.info.pieces[0].as_slice(), &pieces[0..20]);
    assert_eq!(t.info.pieces[1].as_slice(), &pieces[20..40]);
}

#[test]
fn pieces_of_twenty_five_bytes_rejected() {
    let pieces = vec![0x33u8; 25];
    let e = project_doc(&single_file_doc(&pieces)).unwrap_err();
    assert_eq!(e.field, SchemaField::Pieces);
    assert_eq!(e.detail, SchemaFault::BadPiecesLength);
}

#[test]
fn empty_pieces_accepted() {
    let t = project_doc(&single_file_doc(b"")).unwrap();
    assert_eq!(t.info.pieces.len(), 0);
}

#[test]
fn multi_file_torrent_projects() {
    let f1 = enc_dict(&[
        (b"length", enc_int(100)),
        (b"path", enc_list(&[enc_str(b"dir"), enc_str(b"a.txt")])),
    ]);
    let f2 = enc_dict(&[
        (b"length", enc_int(200)),
        (b"path", enc_list(&[enc_str(b"b.txt")])),
    ]);
    let info = enc_dict(&[
        (b"name", enc_str(b"sample-dir")),
        (b"piece length", enc_int(16384)),
        (b"pieces", enc_str(&[0x44u8; 20])),
        (b"files", enc_list(&[f1, f2])),
    ]);
    let doc = enc_dict(&[(b"announce", enc_str(b"udp://t.example.net")), (b"info", info)]);
    let t = project_doc(&doc).unwrap();
    match &t.info.keys {
        Keys::MultiFile { files } => {
            assert_eq!(files.len(), 2);
            assert_eq!(files[0].length, 100);
            assert_eq!(files[0].path.len(), 2);
            assert_eq!(files[0].path[0].as_slice(), b"dir");
            assert_eq!(files[0].path[1].as_slice(), b"a.txt");
            assert_eq!(files[1].length, 200);
            assert_eq!(files[1].path[0].as_slice(), b"b.txt");
        },
        Keys::SingleFile { .. } => panic!("expected a multi-file layout"),
    }
}

#[test]
fn discriminator_both_fields_rejected() {
    let info = enc_dict(&[
        (b"name", enc_str(b"x")),
        (b"piece length", enc_int(1)),
        (b"pieces", enc_str(b"")),
        (b"length", enc_int(5)),
        (b"files", enc_list(&[])),
    ]);
    let doc = enc_dict(&[(b"announce", enc_str(b"u")), (b"info", info)]);
    let e = project_doc(&doc).unwrap_err();
    assert_eq!(e.field, SchemaField::Layout);
    assert_eq!(e.detail, SchemaFault::AmbiguousLayout);
}

#[test]
fn discriminator_neither_field_rejected() {
    let info = enc_dict(&[
        (b"name", enc_str(b"x")),
        (b"piece length", enc_int(1)),
        (b"pieces", enc_str(b"")),
    ]);
    let doc = enc_dict(&[(b"announce", enc_str(b"u")), (b"info", info)]);
    let e = project_doc(&doc).unwrap_err();
    assert_eq!(e.field, SchemaField::Layout);
    assert_eq!(e.detail, SchemaFault::Missing);
}

#[test]
fn projection_is_idempotent() {
    let pieces = vec![0x55u8; 40];
    let doc = single_file_doc(&pieces);
    let v = decode_document(&doc).unwrap();
    let t1 = project(&v).unwrap();
    let t2 = project(&v).unwrap();
    assert_eq!(t1, t2);
}

#[test]
fn root_must_be_dictionary() {
    let v = decode_document(b"l4:spame").unwrap();
    let e = project(&v).unwrap_err();
    assert_eq!(e.field, SchemaField::Root);
    assert_eq!(e.detail, SchemaFault::WrongType);
}

#[test]
fn announce_missing_rejected() {
    let doc = enc_dict(&[(b"info", single_file_info(b""))]);
    let e = project_doc(&doc).unwrap_err();
    assert_eq!(e.field, SchemaField::Announce);
    assert_eq!(e.detail, SchemaFault::Missing);
}

#[test]
fn announce_wrong_type_rejected() {
    let doc = enc_dict(&[(b"announce", enc_int(1)), (b"info", single_file_info(b""))]);
    let e = project_doc(&doc).unwrap_err();
    assert_eq!(e.field, SchemaField::Announce);
    assert_eq!(e.detail, SchemaFault::WrongType);
}

#[test]
fn info_missing_rejected() {
    let doc = enc_dict(&[(b"announce", enc_str(b"u"))]);
    let e = project_doc(&doc).unwrap_err();
    assert_eq!(e.field, SchemaField::Info);
    assert_eq!(e.detail, SchemaFault::Missing);
}

#[test]
fn info_wrong_type_rejected() {
    let doc = enc_dict(&[(b"announce", enc_str(b"u")), (b"info", enc_str(b"nope"))]);
    let e = project_doc(&doc).unwrap_err();
    assert_eq!(e.field, SchemaField::Info);
    assert_eq!(e.detail, SchemaFault::WrongType);
}

#[test]
fn name_missing_rejected() {
    let info = enc_dict(&[
        (b"piece length", enc_int(1)),
        (b"pieces", enc_str(b"")),
        (b"length", enc_int(5)),
    ]);
    let doc = enc_dict(&[(b"announce", enc_str(b"u")), (b"info", info)]);
    let e = project_doc(&doc).unwrap_err();
    assert_eq!(e.field, SchemaField::Name);
    assert_eq!(e.detail, SchemaFault::Missing);
}

#[test]
fn negative_piece_length_rejected() {
    let info = enc_dict(&[
        (b"name", enc_str(b"x")),
        (b"piece length", enc_int(-1)),
        (b"pieces", enc_str(b"")),
        (b"length", enc_int(5)),
    ]);
    let doc = enc_dict(&[(b"announce", enc_str(b"u")), (b"info", info)]);
    let e = project_doc(&doc).unwrap_err();
    assert_eq!(e.field, SchemaField::PieceLength);
    assert_eq!(e.detail, SchemaFault::Negative);
}

#[test]
fn file_entry_without_path_rejected() {
    let f1 = enc_dict(&[(b"length", enc_int(100))]);
    let info = enc_dict(&[
        (b"name", enc_str(b"x")),
        (b"piece length", enc_int(1)),
        (b"pieces", enc_str(b"")),
        (b"files", enc_list(&[f1])),
    ]);
    let doc = enc_dict(&[(b"announce", enc_str(b"u")), (b"info", info)]);
    let e = project_doc(&doc).unwrap_err();
    assert_eq!(e.field, SchemaField::Path);
    assert_eq!(e.detail, SchemaFault::Missing);
}

#[test]
fn file_path_segment_must_be_byte_string() {
    let f1 = enc_dict(&[
        (b"length", enc_int(100)),
        (b"path", enc_list(&[enc_int(3)])),
    ]);
    let info = enc_dict(&[
        (b"name", enc_str(b"x")),
        (b"piece length", enc_int(1)),
        (b"pieces", enc_str(b"")),
        (b"files", enc_list(&[f1])),
    ]);
    let doc = enc_dict(&[(b"announce", enc_str(b"u")), (b"info", info)]);
    let e = project_doc(&doc).unwrap_err();
    assert_eq!(e.field, SchemaField::Path);
    assert_eq!(e.detail, SchemaFault::WrongType);
}

#[test]
fn first_duplicate_key_wins() {
    let doc = enc_dict(&[
        (b"announce", enc_str(b"first")),
        (b"announce", enc_str(b"second")),
        (b"info", single_file_info(b"")),
    ]);
    let t = project_doc(&doc).unwrap();
    assert_eq!(t.announce.as_slice(), b"first");
}

#[test]
fn projection_built_by_hand_matches_decoded() {
    // The same tree assembled through the builders projects identically.
    let mut info = BencodeValue::empty_dictionary();
    info.insert_entry(b"name".to_vec(), BencodeValue::ByteString(b"x".to_vec())).unwrap();
    info.insert_entry(b"piece length".to_vec(), BencodeValue::Integer(4)).unwrap();
    info.insert_entry(b"pieces".to_vec(), BencodeValue::ByteString(vec![9u8; 20])).unwrap();
    info.insert_entry(b"length".to_vec(), BencodeValue::Integer(8)).unwrap();
    let mut root = BencodeValue::empty_dictionary();
    root.insert_entry(b"announce".to_vec(), BencodeValue::ByteString(b"u".to_vec())).unwrap();
    root.insert_entry(b"info".to_vec(), info).unwrap();
    let t1 = project(&root).unwrap();

    let info_doc = enc_dict(&[
        (b"name", enc_str(b"x")),
        (b"piece length", enc_int(4)),
        (b"pieces", enc_str(&[9u8; 20])),
        (b"length", enc_int(8)),
    ]);
    let doc = enc_dict(&[(b"announce", enc_str(b"u")), (b"info", info_doc)]);
    let t2 = project_doc(&doc).unwrap();
    assert_eq!(t1, t2);
}
