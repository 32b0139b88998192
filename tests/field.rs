use mcnet::error::McError;
use mcnet::field::{write_varint, PacketField};
use mcnet::input::{InputBuffer, OutputBuffer};
use mcnet::packet::Sized;
use mcnet::types::VarInt;

fn write_into_five(value: u32) -> [u8; 5] {
    let buffer_slice = [0u8; 5];
    let mut buffer = OutputBuffer::from_slice(&buffer_slice);
    VarInt::wrap(value).write_to(&mut buffer).unwrap();
    buffer.into_vec().try_into().unwrap()
}

fn encode(value: u64) -> Vec<u8> {
    let mut buffer = OutputBuffer::from_vector(vec![0u8; 10]);
    write_varint(&mut buffer, value).unwrap();
    let n = buffer.get_position();
    let mut out = buffer.into_vec();
    out.truncate(n);
    out
}

#[test]
fn test_write_varint_1() {
    let buffer_slice = write_into_five(1);
    assert_eq!([0x01, 0x00, 0x00, 0x00, 0x00], buffer_slice);
}

#[test]
fn test_write_varint_10() {
    let buffer_slice = write_into_five(10);
    assert_eq!([0x0A, 0x00, 0x00, 0x00, 0x00], buffer_slice);
}

#[test]
fn test_write_varint_100() {
    let buffer_slice = write_into_five(100);
    assert_eq!([100, 0x00, 0x00, 0x00, 0x00], buffer_slice);
}

#[test]
fn test_write_varint_300() {
    let buffer_slice = write_into_five(300);
    assert_eq!([0xac, 0x02, 0x00, 0x00, 0x00], buffer_slice);
}

#[test]
fn varint_encodes_known_values() {
    assert_eq!(encode(0), vec![0x00]);
    assert_eq!(encode(1), vec![0x01]);
    assert_eq!(encode(127), vec![0x7F]);
    assert_eq!(encode(128), vec![0x80, 0x01]);
    assert_eq!(encode(300), vec![0xAC, 0x02]);
}

#[test]
fn varint_round_trips_and_is_minimal() {
    for v in [0u64, 1, 127, 128, 300, 16383, 16384, 2097151, 2097152, u32::MAX as u64, u64::MAX] {
        let bytes = encode(v);
        assert_eq!(mcnet::utils::read_varint(&bytes), Ok(v));
        assert!(bytes.last().unwrap() & 0x80 == 0);
        assert!(bytes[..bytes.len() - 1].iter().all(|b| b & 0x80 != 0));
        assert!(bytes.len() == 1 || *bytes.last().unwrap() != 0);
        assert_eq!(bytes.len(), mcnet::utils::size_of_varint(v));
    }
    assert_eq!(encode(u64::MAX).len(), 10);
}

#[test]
fn varint_field_round_trips_wide_values() {
    for v in [16384u32, 2097152, 268435456, u32::MAX] {
        let mut out = OutputBuffer::from_vector(vec![0u8; 5]);
        VarInt::wrap(v).write_to(&mut out).unwrap();
        let n = out.get_position();
        assert_eq!(n, VarInt::wrap(v).byte_len());
        let bytes = out.into_vec();
        let mut input = InputBuffer::create(&bytes[..n]);
        assert_eq!(VarInt::read_from(&mut input), Ok(VarInt::wrap(v)));
        assert!(!input.has_next());
    }
}

#[test]
fn varint_read_rejects_runaway_and_truncated() {
    let runaway = [0x80u8, 0x80, 0x80, 0x80, 0x80, 0x01];
    let mut input = InputBuffer::create(&runaway);
    assert_eq!(VarInt::read_from(&mut input), Err(McError::MalformedVarInt));
    let truncated = [0x80u8, 0x80];
    let mut input = InputBuffer::create(&truncated);
    assert_eq!(VarInt::read_from(&mut input), Err(McError::MalformedVarInt));
    let too_large = [0xFFu8, 0xFF, 0xFF, 0xFF, 0x1F];
    let mut input = InputBuffer::create(&too_large);
    assert_eq!(VarInt::read_from(&mut input), Err(McError::MalformedVarInt));
    assert_eq!(mcnet::utils::read_varint(&[0xFF; 11]), Err(McError::MalformedVarInt));
}

#[test]
fn u16_is_big_endian_and_round_trips() {
    let mut out = OutputBuffer::from_vector(vec![0u8; 2]);
    12345u16.write_to(&mut out).unwrap();
    let bytes = out.into_vec();
    assert_eq!(bytes, vec![0x30, 0x39]);
    let mut input = InputBuffer::create(&bytes);
    assert_eq!(u16::read_from(&mut input), Ok(12345));
    let short = [0x30u8];
    let mut input = InputBuffer::create(&short);
    assert_eq!(u16::read_from(&mut input), Err(McError::BufferUnderrun));
}

#[test]
fn u8_round_trips() {
    let mut out = OutputBuffer::from_vector(vec![0u8; 1]);
    200u8.write_to(&mut out).unwrap();
    let bytes = out.into_vec();
    let mut input = InputBuffer::create(&bytes);
    assert_eq!(u8::read_from(&mut input), Ok(200));
    assert_eq!(u8::read_from(&mut input), Err(McError::BufferUnderrun));
}

#[test]
fn string_round_trips_through_utf8() {
    let s = String::from("h\u{e9}llo \u{1F600}");
    let size = s.get_size();
    assert_eq!(size, 1 + s.len());
    let mut out = OutputBuffer::from_vector(vec![0u8; size]);
    s.write_to(&mut out).unwrap();
    let bytes = out.into_vec();
    assert_eq!(bytes[0] as usize, s.len());
    assert_eq!(&bytes[1..], s.as_bytes());
    let mut input = InputBuffer::create(&bytes);
    let back = String::read_from(&mut input).unwrap();
    assert_eq!(back, "h\u{e9}llo \u{1F600}");
    assert!(!input.has_next());
}

#[test]
fn string_read_rejects_invalid_utf8_and_short_input() {
    let bad = [2u8, 0xFF, 0xFE];
    let mut input = InputBuffer::create(&bad);
    assert_eq!(String::read_from(&mut input), Err(McError::InvalidUtf8));
    let short = [5u8, b'a', b'b'];
    let mut input = InputBuffer::create(&short);
    assert_eq!(String::read_from(&mut input), Err(McError::BufferUnderrun));
}

#[test]
fn write_fails_without_room() {
    let mut out = OutputBuffer::from_vector(vec![0u8; 1]);
    assert_eq!(VarInt::wrap(300).write_to(&mut out), Err(McError::BufferOverrun));
    assert_eq!(out.get_position(), 0);
    assert_eq!(String::from("ab").write_to(&mut out), Err(McError::BufferOverrun));
    assert_eq!(1000u16.write_to(&mut out), Err(McError::BufferOverrun));
}

#[test]
fn sizes_match_wire_lengths() {
    assert_eq!(5u8.get_size(), 1);
    assert_eq!(5u16.get_size(), 2);
    assert_eq!(VarInt::wrap(0).get_size(), 1);
    assert_eq!(VarInt::wrap(300).get_size(), 2);
    assert_eq!(VarInt::wrap(u32::MAX).get_size(), 5);
    assert_eq!(mcnet::utils::size_of_string(&String::from("127.0.0.1")), 10);
}
