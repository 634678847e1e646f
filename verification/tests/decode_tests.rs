//! Tests for the bencode decoder: grammar scenarios, strictness rules, and
//! the value-model accessors and builders.

use bencode_meta::decode::{decode, decode_document, InputFault, MAX_DEPTH};
use bencode_meta::value::{BencodeValue, ValueKind};

fn enc_str(s: &[u8]) -> Vec<u8> {
    let mut v = format!("{}:", s.len()).into_bytes();
    v.extend_from_slice(s);
    v
}

#[test]
fn byte_string_length_exact() {
    let (v, used) = decode(b"4:spam").unwrap();
    assert_eq!(used, 6);
    assert_eq!(v.as_byte_string().unwrap().as_slice(), b"spam");
}

#[test]
fn empty_byte_string() {
    let (v, used) = decode(b"0:").unwrap();
    assert_eq!(used, 2);
    assert_eq!(v.as_byte_string().unwrap().len(), 0);
}

#[test]
fn integer_positive() {
    let v = decode_document(b"i3e").unwrap();
    assert_eq!(v.as_integer().unwrap(), 3);
}

#[test]
fn integer_negative() {
    let v = decode_document(b"i-3e").unwrap();
    assert_eq!(v.as_integer().unwrap(), -3);
}

#[test]
fn integer_zero() {
    let v = decode_document(b"i0e").unwrap();
    assert_eq!(v.as_integer().unwrap(), 0);
}

#[test]
fn integer_leading_zero_rejected() {
    let e = decode_document(b"i03e").unwrap_err();
    assert_eq!(e.detail, InputFault::LeadingZero);
}

#[test]
fn integer_minus_zero_rejected() {
    let e = decode_document(b"i-0e").unwrap_err();
    assert_eq!(e.detail, InputFault::LeadingZero);
}

#[test]
fn integer_empty_rejected() {
    let e = decode_document(b"ie").unwrap_err();
    assert_eq!(e.detail, InputFault::EmptyInteger);
    let e = decode_document(b"i-e").unwrap_err();
    assert_eq!(e.detail, InputFault::EmptyInteger);
}

#[test]
fn integer_bounds() {
    let v = decode_document(b"i9223372036854775807e").unwrap();
    assert_eq!(v.as_integer().unwrap(), i64::MAX);
    let v = decode_document(b"i-9223372036854775808e").unwrap();
    assert_eq!(v.as_integer().unwrap(), i64::MIN);
}

#[test]
fn integer_overflow_rejected() {
    let e = decode_document(b"i9223372036854775808e").unwrap_err();
    assert_eq!(e.detail, InputFault::IntegerOverflow);
    let e = decode_document(b"i-9223372036854775809e").unwrap_err();
    assert_eq!(e.detail, InputFault::IntegerOverflow);
}

#[test]
fn integer_unterminated_rejected() {
    let e = decode_document(b"i42").unwrap_err();
    assert_eq!(e.detail, InputFault::EndOfInput);
}

#[test]
fn integer_junk_rejected() {
    let e = decode_document(b"i4x2e").unwrap_err();
    assert_eq!(e.detail, InputFault::UnexpectedByte(b'x'));
}

#[test]
fn list_two_strings() {
    let v = decode_document(b"l4:spam4:eggse").unwrap();
    let xs = v.as_list().unwrap();
    assert_eq!(xs.len(), 2);
    assert_eq!(xs[0].as_byte_string().unwrap().as_slice(), b"spam");
    assert_eq!(xs[1].as_byte_string().unwrap().as_slice(), b"eggs");
}

#[test]
fn list_empty() {
    let v = decode_document(b"le").unwrap();
    assert_eq!(v.as_list().unwrap().len(), 0);
}

#[test]
fn dictionary_two_entries() {
    let v = decode_document(b"d3:cow3:moo4:spam4:eggse").unwrap();
    let ps = v.as_dictionary().unwrap();
    assert_eq!(ps.len(), 2);
    assert_eq!(ps[0].0.as_slice(), b"cow");
    assert_eq!(ps[0].1.as_byte_string().unwrap().as_slice(), b"moo");
    assert_eq!(ps[1].0.as_slice(), b"spam");
    assert_eq!(ps[1].1.as_byte_string().unwrap().as_slice(), b"eggs");
}

#[test]
fn dictionary_unsorted_keys_accepted() {
    // Keys out of canonical order must still decode, in read order.
    let v = decode_document(b"d1:b1:x1:a1:ye").unwrap();
    let ps = v.as_dictionary().unwrap();
    assert_eq!(ps[0].0.as_slice(), b"b");
    assert_eq!(ps[1].0.as_slice(), b"a");
}

#[test]
fn dictionary_key_not_byte_string_rejected() {
    let e = decode_document(b"di1ei2ee").unwrap_err();
    assert_eq!(e.detail, InputFault::KeyNotByteString);
}

#[test]
fn truncated_string_rejected() {
    let e = decode_document(b"5:abc").unwrap_err();
    assert_eq!(e.detail, InputFault::Truncated);
}

#[test]
fn length_leading_zero_rejected() {
    let e = decode_document(b"01:a").unwrap_err();
    assert_eq!(e.detail, InputFault::LeadingZero);
}

#[test]
fn unterminated_list_rejected() {
    let e = decode_document(b"l4:spam").unwrap_err();
    assert_eq!(e.detail, InputFault::EndOfInput);
}

#[test]
fn empty_input_rejected() {
    let e = decode_document(b"").unwrap_err();
    assert_eq!(e.detail, InputFault::EndOfInput);
}

#[test]
fn unexpected_lead_byte_rejected() {
    let e = decode_document(b"x").unwrap_err();
    assert_eq!(e.detail, InputFault::UnexpectedByte(b'x'));
    assert_eq!(e.offset, 0);
}

#[test]
fn trailing_data_rejected() {
    let (_, used) = decode(b"i1ei2e").unwrap();
    assert_eq!(used, 3);
    let e = decode_document(b"i1ei2e").unwrap_err();
    assert_eq!(e.detail, InputFault::TrailingData);
    assert_eq!(e.offset, 3);
}

#[test]
fn round_trip_consumes_whole_document() {
    // One well-formed top-level term: the whole buffer is consumed.
    let doc = b"d8:announce21:http://example.org/at4:infod3:fooi-7eee";
    let (_, used) = decode(doc).unwrap();
    assert_eq!(used, doc.len());
}

#[test]
fn nesting_at_bound_accepted() {
    let depth = MAX_DEPTH as usize;
    let mut doc = Vec::new();
    doc.extend_from_slice(&vec![b'l'; depth]);
    doc.extend_from_slice(&vec![b'e'; depth]);
    let v = decode_document(&doc).unwrap();
    assert_eq!(v.as_list().unwrap().len(), 1);
}

#[test]
fn nesting_past_bound_rejected() {
    let depth = MAX_DEPTH as usize + 1;
    let mut doc = Vec::new();
    doc.extend_from_slice(&vec![b'l'; depth]);
    doc.extend_from_slice(&vec![b'e'; depth]);
    let e = decode_document(&doc).unwrap_err();
    assert_eq!(e.detail, InputFault::TooDeep);
}

#[test]
fn binary_payload_survives() {
    let payload: Vec<u8> = (0u8..=255).collect();
    let mut doc = enc_str(&payload);
    let v = decode_document(&doc).unwrap();
    assert_eq!(v.as_byte_string().unwrap().as_slice(), payload.as_slice());
    doc.pop();
    let e = decode_document(&doc).unwrap_err();
    assert_eq!(e.detail, InputFault::Truncated);
}

#[test]
fn accessors_report_mismatch() {
    let v = decode_document(b"i5e").unwrap();
    let e = v.as_byte_string().unwrap_err();
    assert_eq!(e.expected, ValueKind::ByteString);
    assert_eq!(e.found, ValueKind::Integer);
    assert!(v.as_list().is_err());
    assert!(v.as_dictionary().is_err());
    assert_eq!(v.kind(), ValueKind::Integer);
}

#[test]
fn builders_grow_containers() {
    let mut l = BencodeValue::empty_list();
    l.push_item(BencodeValue::Integer(7)).unwrap();
    l.push_item(BencodeValue::ByteString(b"spam".to_vec())).unwrap();
    let xs = l.as_list().unwrap();
    assert_eq!(xs.len(), 2);
    assert_eq!(xs[0].as_integer().unwrap(), 7);

    let mut d = BencodeValue::empty_dictionary();
    d.insert_entry(b"cow".to_vec(), BencodeValue::ByteString(b"moo".to_vec())).unwrap();
    let ps = d.as_dictionary().unwrap();
    assert_eq!(ps.len(), 1);
    assert_eq!(ps[0].0.as_slice(), b"cow");

    let mut n = BencodeValue::Integer(1);
    let e = n.push_item(BencodeValue::Integer(2)).unwrap_err();
    assert_eq!(e.expected, ValueKind::List);
    assert_eq!(e.found, ValueKind::Integer);
    assert!(n.insert_entry(b"k".to_vec(), BencodeValue::Integer(3)).is_err());
}
