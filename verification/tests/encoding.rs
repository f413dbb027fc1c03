use rlp::be::{read_be_u128, to_be_bytes_trimmed};
use rlp::encode::{encode, encode_list, list_length, Encodable};
use rlp::error::Error;
use rlp::header::{advance_unchecked, get_next_byte, length_of_length, Header};

#[test]
fn encode_integers() {
    assert_eq!(encode(0u8), vec![0x80]);
    assert_eq!(encode(1u8), vec![0x01]);
    assert_eq!(encode(0x7Fu8), vec![0x7F]);
    assert_eq!(encode(0x80u8), vec![0x81, 0x80]);
}

#[test]
fn encode_strings() {
    assert_eq!(encode(""), vec![0x80]);
    assert_eq!(encode("test"), vec![0x84, 0x74, 0x65, 0x73, 0x74]);
}

#[test]
fn encode_lists() {
    assert_eq!(encode(Vec::<u8>::new()), vec![0xc0]);
    assert_eq!(encode(vec![0xFFu8, 0xFFu8]), vec![0xc4, 0x81, 0xff, 0x81, 0xff]);
}

#[test]
fn encode_more_integers() {
    assert_eq!(encode(0u64), vec![0x80]);
    assert_eq!(encode(0x0400u16), vec![0x82, 0x04, 0x00]);
    assert_eq!(encode(0xFFCCB5_u32), vec![0x83, 0xff, 0xcc, 0xb5]);
    assert_eq!(
        encode(0xFFCCB5DDFFEE1483_u64),
        vec![0x88, 0xff, 0xcc, 0xb5, 0xdd, 0xff, 0xee, 0x14, 0x83]
    );
    assert_eq!(encode(0x0102u128), vec![0x82, 0x01, 0x02]);
    assert_eq!(encode(0x7Fusize), vec![0x7f]);
}

#[test]
fn encode_dog() {
    assert_eq!(encode("dog"), vec![0x83, 0x64, 0x6f, 0x67]);
    assert_eq!(encode(String::from("dog")), vec![0x83, 0x64, 0x6f, 0x67]);
}

#[test]
fn encode_byte_slices() {
    let empty: &[u8] = &[];
    assert_eq!(encode(empty), vec![0x80]);
    let single: &[u8] = &[0x7f];
    assert_eq!(encode(single), vec![0x7f]);
    let high: &[u8] = &[0x80];
    assert_eq!(encode(high), vec![0x81, 0x80]);
}

#[test]
fn long_string_payload_uses_long_form() {
    // A 56-byte payload takes the two-byte header `b8 38`.
    let payload: Vec<u8> = (0u8..56).collect();
    let encoded = encode(payload.as_slice());
    assert_eq!(encoded[0], 0xb8);
    assert_eq!(encoded[1], 0x38);
    assert_eq!(&encoded[2..], &payload[..]);
    assert_eq!(encoded.len(), 58);
}

#[test]
fn header_encode_and_length() {
    let mut out: Vec<u8> = Vec::new();
    let h = Header::new(false, 56);
    h.encode(&mut out);
    assert_eq!(out, vec![0xb8, 0x38]);
    assert_eq!(h.length(), 2);
    assert!(!h.list());
    assert_eq!(h.payload_length(), 56);

    let mut out2: Vec<u8> = Vec::new();
    Header::new(true, 3).encode(&mut out2);
    assert_eq!(out2, vec![0xc3]);

    let mut out3: Vec<u8> = Vec::new();
    Header::new(true, 0x0100).encode(&mut out3);
    assert_eq!(out3, vec![0xf9, 0x01, 0x00]);

    assert_eq!(length_of_length(0), 1);
    assert_eq!(length_of_length(55), 1);
    assert_eq!(length_of_length(56), 2);
    assert_eq!(length_of_length(0x0100), 3);
}

#[test]
fn length_matches_encoding() {
    assert_eq!(0u8.length(), encode(0u8).len());
    assert_eq!(0x80u8.length(), encode(0x80u8).len());
    assert_eq!("test".length(), encode("test").len());
    let list = vec![0xFFu8, 0xFFu8];
    assert_eq!(list.length(), encode(list.clone()).len());
    let long: Vec<u8> = (0u8..60).collect();
    assert_eq!(long.as_slice().length(), encode(long.as_slice()).len());
}

#[test]
fn encode_list_and_list_length() {
    let items: Vec<u64> = vec![1, 2, 3];
    let mut out: Vec<u8> = Vec::new();
    encode_list(items.as_slice(), &mut out);
    assert_eq!(out, vec![0xc3, 0x01, 0x02, 0x03]);
    assert_eq!(list_length(items.as_slice()), out.len());
}

#[test]
fn trimmed_bytes_and_read_back() {
    assert_eq!(to_be_bytes_trimmed(0), Vec::<u8>::new());
    assert_eq!(to_be_bytes_trimmed(0x1234), vec![0x12, 0x34]);
    assert_eq!(read_be_u128(&[0x12, 0x34]), 0x1234);
    assert_eq!(read_be_u128(&[]), 0);
}

#[test]
fn cursor_helpers() {
    assert_eq!(get_next_byte(&[0x05, 0x06]), Ok(0x05));
    assert_eq!(get_next_byte(&[]), Err(Error::InputTooShort));
    let mut buf: &[u8] = &[1, 2, 3, 4];
    let front = advance_unchecked(&mut buf, 3);
    assert_eq!(front, &[1, 2, 3]);
    assert_eq!(buf, &[4]);
}

#[test]
fn error_codes_and_messages() {
    assert_eq!(Error::Overflow.code(), 1);
    assert_eq!(Error::LeadingZero.code(), 2);
    assert_eq!(Error::InputTooShort.code(), 3);
    assert_eq!(Error::NonCanonicalSingleByte.code(), 4);
    assert_eq!(Error::NonCanonicalSize.code(), 5);
    assert_eq!(Error::UnexpectedLength.code(), 6);
    assert_eq!(Error::UnexpectedString.code(), 7);
    assert_eq!(Error::UnexpectedList.code(), 8);
    assert_eq!(Error::ListLengthMismatch(2, 3).code(), 9);
    assert_eq!(Error::Overflow.message(), "numeric overflow");
    assert_eq!(Error::ListLengthMismatch(2, 3).message(), "list length mismatch");
}
