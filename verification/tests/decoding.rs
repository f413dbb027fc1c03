use rlp::buf::{bytes_as_slice, bytes_copy_from_slice, bytes_mut_as_slice};
use rlp::decode::{
    decode_exact, decode_owned_bytes, decode_owned_bytes_mut, static_left_pad, Decodable, Rlp,
};
use rlp::encode::encode;
use rlp::error::Error;
use rlp::header::Header;

#[test]
fn round_trip_integers() {
    for v in [0u8, 1, 0x7f, 0x80, 0xff] {
        assert_eq!(decode_exact::<u8>(&encode(v)), Ok(v));
    }
    for v in [0u64, 1, 0x7f, 0x80, 0x100, 0xFFCCB5DDFFEE1483, u64::MAX] {
        assert_eq!(decode_exact::<u64>(&encode(v)), Ok(v));
    }
    assert_eq!(decode_exact::<u16>(&encode(0x0400u16)), Ok(0x0400));
    assert_eq!(decode_exact::<u32>(&encode(0xFFCCB5_u32)), Ok(0xFFCCB5));
    assert_eq!(decode_exact::<u128>(&encode(u128::MAX)), Ok(u128::MAX));
    assert_eq!(decode_exact::<usize>(&encode(usize::MAX)), Ok(usize::MAX));
}

#[test]
fn round_trip_strings_and_lists() {
    for s in ["", "a", "test", "dog", "Lorem ipsum dolor sit amet, consectetur adipisicing eli"] {
        assert_eq!(decode_exact::<String>(&encode(s)), Ok(String::from(s)));
    }
    let list = vec![0xFFu8, 0xFFu8];
    assert_eq!(decode_exact::<Vec<u8>>(&encode(list.clone())), Ok(list));
    assert_eq!(decode_exact::<Vec<u8>>(&[0xc0]), Ok(Vec::new()));
    let words: Vec<String> = vec![String::from("cat"), String::from("dog")];
    assert_eq!(decode_exact::<Vec<String>>(&encode(words.clone())), Ok(words));
}

#[test]
fn round_trip_nested_lists() {
    // A list of lists survives a round trip at every nesting depth up to 16.
    let d1: Vec<u8> = vec![1, 2, 3];
    let d2 = vec![d1.clone(), d1.clone()];
    let d3 = vec![d2.clone()];
    let d4 = vec![d3.clone(), d3.clone()];
    let d5 = vec![d4.clone()];
    let d6 = vec![d5.clone()];
    let d7 = vec![d6.clone()];
    let d8 = vec![d7.clone()];
    let d9 = vec![d8.clone()];
    let d10 = vec![d9.clone()];
    let d11 = vec![d10.clone()];
    let d12 = vec![d11.clone()];
    let d13 = vec![d12.clone()];
    let d14 = vec![d13.clone()];
    let d15 = vec![d14.clone()];
    let d16 = vec![d15.clone()];
    assert_eq!(decode_exact(&encode(d2.clone())), Ok(d2));
    assert_eq!(decode_exact(&encode(d8.clone())), Ok(d8));
    assert_eq!(decode_exact(&encode(d16.clone())), Ok(d16));
}

#[test]
fn round_trip_fixed_arrays() {
    let arr: [u8; 4] = [0xde, 0xad, 0xbe, 0xef];
    assert_eq!(encode(arr), vec![0x84, 0xde, 0xad, 0xbe, 0xef]);
    assert_eq!(decode_exact::<[u8; 4]>(&encode(arr)), Ok(arr));
    // The payload must have exactly the requested width.
    assert_eq!(decode_exact::<[u8; 3]>(&encode(arr)), Err(Error::UnexpectedLength));
    let one: [u8; 1] = [0x05];
    assert_eq!(encode(one), vec![0x05]);
    assert_eq!(decode_exact::<[u8; 1]>(&[0x05]), Ok(one));
}

#[test]
fn round_trip_bool() {
    assert_eq!(decode_exact::<bool>(&[0x80]), Ok(false));
    assert_eq!(decode_exact::<bool>(&[0x01]), Ok(true));
    assert_eq!(decode_exact::<bool>(&[0x02]), Err(Error::InputTooShort));
}

#[test]
fn round_trip_owned_bytes() {
    let b = bytes_copy_from_slice(b"dog");
    assert_eq!(encode(b.clone()), vec![0x83, 0x64, 0x6f, 0x67]);
    let mut buf: &[u8] = &[0x83, 0x64, 0x6f, 0x67];
    let back = decode_owned_bytes(&mut buf).unwrap();
    assert_eq!(bytes_as_slice(&back), b"dog");
    assert!(buf.is_empty());

    let mut buf2: &[u8] = &[0x81, 0xff, 0x99];
    let back2 = decode_owned_bytes_mut(&mut buf2).unwrap();
    assert_eq!(bytes_mut_as_slice(&back2), &[0xff]);
    assert_eq!(buf2, &[0x99]);
}

#[test]
fn leading_zero_integer_rejected() {
    // `82 00 01` carries a leading zero in a u16 payload.
    assert_eq!(decode_exact::<u16>(&[0x82, 0x00, 0x01]), Err(Error::LeadingZero));
}

#[test]
fn non_canonical_single_byte_rejected() {
    // `81 7f` should have been the bare byte `7f`.
    assert_eq!(decode_exact::<u8>(&[0x81, 0x7f]), Err(Error::NonCanonicalSingleByte));
    let mut buf: &[u8] = &[0x81, 0x7f];
    assert_eq!(Header::decode(&mut buf), Err(Error::NonCanonicalSingleByte));
    let mut buf2: &[u8] = &[0x81, 0x7f];
    assert_eq!(decode_owned_bytes(&mut buf2), Err(Error::NonCanonicalSingleByte));
}

#[test]
fn non_canonical_size_rejected() {
    // A 55-byte payload written with the long form `b8 37` should have used `b7`.
    let mut input: Vec<u8> = vec![0xb8, 0x37];
    input.extend(std::iter::repeat(0x61u8).take(55));
    let mut buf: &[u8] = input.as_slice();
    assert_eq!(Header::decode(&mut buf), Err(Error::NonCanonicalSize));
    assert_eq!(decode_exact::<String>(&input), Err(Error::NonCanonicalSize));
}

#[test]
fn leading_zero_length_rejected() {
    let mut input: Vec<u8> = vec![0xb9, 0x00, 0x38];
    input.extend(std::iter::repeat(0x61u8).take(56));
    let mut buf: &[u8] = input.as_slice();
    assert_eq!(Header::decode(&mut buf), Err(Error::LeadingZero));
}

#[test]
fn input_too_short_rejected() {
    assert_eq!(decode_exact::<u8>(&[]), Err(Error::InputTooShort));
    assert_eq!(decode_exact::<u8>(&[0x82, 0x01]), Err(Error::InputTooShort));
    assert_eq!(decode_exact::<String>(&[0xb8]), Err(Error::InputTooShort));
}

#[test]
fn overflow_rejected() {
    // A two-byte payload does not fit in a u8.
    assert_eq!(decode_exact::<u8>(&[0x82, 0x01, 0x02]), Err(Error::Overflow));
}

#[test]
fn shape_mismatch_rejected() {
    // A list where a string is expected, and the other way around.
    assert_eq!(decode_exact::<u8>(&[0xc0]), Err(Error::UnexpectedList));
    assert_eq!(decode_exact::<String>(&[0xc2, 0x01, 0x02]), Err(Error::UnexpectedList));
    assert_eq!(decode_exact::<Vec<u8>>(&[0x81, 0x80]), Err(Error::UnexpectedString));
    assert_eq!(decode_exact::<Vec<u8>>(&[0x05]), Err(Error::UnexpectedString));
}

#[test]
fn invalid_utf8_rejected() {
    assert_eq!(decode_exact::<String>(&[0x81, 0xff]), Err(Error::UnexpectedString));
}

#[test]
fn trailing_bytes_rejected_only_by_exact() {
    let mut input = encode(0x80u8);
    input.push(0x99);
    assert_eq!(decode_exact::<u8>(&input), Err(Error::UnexpectedLength));
    let mut buf: &[u8] = input.as_slice();
    assert_eq!(u8::decode(&mut buf), Ok(0x80));
    assert_eq!(buf, &[0x99]);
}

#[test]
fn walker_yields_elements_in_order() {
    let encoded = encode(vec![0xFFu8, 0xFFu8]);
    let mut rlp = Rlp::new(encoded.as_slice()).unwrap();
    assert_eq!(rlp.get_next::<u8>(), Ok(Some(0xFF)));
    assert_eq!(rlp.get_next::<u8>(), Ok(Some(0xFF)));
    assert_eq!(rlp.get_next::<u8>(), Ok(None));

    assert_eq!(
        Rlp::new(&[0x81, 0xff]).map(|_| ()),
        Err(Error::UnexpectedString)
    );
}

#[test]
fn left_pad_checks() {
    assert_eq!(static_left_pad(&[0x01], 2), Ok(vec![0x00, 0x01]));
    assert_eq!(static_left_pad(&[], 2), Ok(vec![0x00, 0x00]));
    assert_eq!(static_left_pad(&[0x01, 0x02, 0x03], 2), Err(Error::Overflow));
    assert_eq!(static_left_pad(&[0x00, 0x01], 2), Err(Error::LeadingZero));
}
