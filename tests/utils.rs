use mcnet::error::McError;
use mcnet::packet::PacketInformation;
use mcnet::utils::{read_packet_information, read_varint, size_of_string, size_of_varint};

#[test]
fn test_read_varint_300() {
    let input = [0xac, 0x02, 0x00, 0x00, 0x00];
    let number = read_varint(&input);
    assert_eq!(Ok(300), number);
}

#[test]
fn read_varint_three_bytes_uses_multiplicative_shift() {
    assert_eq!(read_varint(&[0x80, 0x80, 0x01]), Ok(16384));
    assert_eq!(read_varint(&[0xFF, 0xFF, 0x7F]), Ok(2097151));
    assert_eq!(read_varint(&[]), Err(McError::MalformedVarInt));
}

#[test]
fn size_of_varint_values() {
    assert_eq!(size_of_varint(0), 1);
    assert_eq!(size_of_varint(127), 1);
    assert_eq!(size_of_varint(128), 2);
    assert_eq!(size_of_varint(16384), 3);
    assert_eq!(size_of_varint(u64::MAX), 10);
}

#[test]
fn size_of_string_counts_prefix() {
    assert_eq!(size_of_string(&String::new()), 1);
    assert_eq!(size_of_string(&"a".repeat(200)), 202);
}

#[test]
fn packet_information_is_read() {
    assert_eq!(read_packet_information(&[15, 0, 27]), Ok(PacketInformation { length: 15, id: 0 }));
    assert_eq!(
        read_packet_information(&[0xAC, 0x02, 7]),
        Ok(PacketInformation { length: 300, id: 7 })
    );
    assert_eq!(read_packet_information(&[15]), Err(McError::BufferUnderrun));
    assert_eq!(read_packet_information(&[0x80]), Err(McError::MalformedVarInt));
}
