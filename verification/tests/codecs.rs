use pwasm_abstractions::collections::{Array, Serialize};
use pwasm_abstractions::contract::Request;
use pwasm_abstractions::uint256::U256;
use pwasm_abstractions::utils::SubAddress;

#[test]
fn u32_codec_is_little_endian_and_round_trips() {
    assert_eq!(4, <u32 as Serialize>::byte_len());
    let v: u32 = 0x0403_0201;
    let bytes = v.to_bytes();
    assert_eq!(vec![1, 2, 3, 4], bytes);
    assert_eq!(v, u32::from_bytes(&bytes));

    for v in [0u32, 1, 255, 256, 123, 456, u32::MAX] {
        assert_eq!(v, u32::from_bytes(&v.to_bytes()));
    }
}

#[test]
fn u256_codec_fills_one_word_and_round_trips() {
    assert_eq!(32, <U256 as Serialize>::byte_len());
    let v = U256::from_u32(456);
    let bytes = v.to_bytes();
    assert_eq!(32, bytes.len());
    assert_eq!(200, bytes[0]);
    assert_eq!(1, bytes[1]);
    assert!(bytes[2..].iter().all(|b| *b == 0));
    let back = U256::from_bytes(&bytes);
    assert_eq!(v, back);
    assert_eq!(456, back.as_u32());
}

#[test]
fn sequence_codec_stores_the_address_and_round_trips() {
    assert_eq!(33, <Array<u32> as Serialize>::byte_len());
    let base = SubAddress::new([7u8; 32], 0).get_sub_address(5);
    let array: Array<u32> = Array::new(base);
    let bytes = array.to_bytes();
    assert_eq!(33, bytes.len());
    assert_eq!(4, bytes[32]);
    let back: Array<u32> = Array::from_bytes(&bytes);
    assert_eq!(array.address.address(), back.address.address());
    assert_eq!(array.address.offset(), back.address.offset());
}

#[test]
fn request_codec_round_trips() {
    assert_eq!(42, <Request as Serialize>::byte_len());
    let request = Request {
        service_number: *b"123456789012345678901234567890",
        date: 0x1122_3344_5566_7788,
        declarant_type: 50,
    };
    let bytes = request.to_bytes();
    assert_eq!(42, bytes.len());
    assert_eq!(b'1', bytes[0]);
    assert_eq!(0x88, bytes[30]);
    assert_eq!(0x11, bytes[37]);
    assert_eq!(50, bytes[38]);
    let back = Request::from_bytes(&bytes);
    assert_eq!(request.service_number, back.service_number);
    assert_eq!(request.date, back.date);
    assert_eq!(request.declarant_type, back.declarant_type);
}

#[test]
fn decode_reads_only_the_declared_width() {
    let mut bytes = vec![1, 2, 3, 4];
    bytes.extend_from_slice(&[0xAA; 60]);
    assert_eq!(0x0403_0201, u32::from_bytes(&bytes));
}
