use mcnet::connection::{
    Connection, HandshakingPaketFactory, LoginPaketFactory, PacketFactory, Protocol,
};
use mcnet::error::McError;
use mcnet::frame::FrameReader;
use mcnet::packet::PacketInformation;
use mcnet::protocol::{ClientHandshake, ConnectionState, LoginStart, McPacket, Packet};
use mcnet::types::VarInt;

fn handshake(address: &str, port: u16, next_state: u32) -> ClientHandshake {
    ClientHandshake {
        protocol_version: VarInt::wrap(27),
        address: String::from(address),
        port,
        next_state: VarInt::wrap(next_state),
    }
}

fn handshake_packet(next_state: u32) -> McPacket {
    McPacket::ClientHandshake(handshake("127.0.0.1", 12345, next_state))
}

#[test]
fn handshake_packs_to_expected_frame() {
    let bytes = handshake("127.0.0.1", 12345, 2).pack();
    let mut expected = vec![15u8, 0x00, 27, 9];
    expected.extend_from_slice(b"127.0.0.1");
    expected.extend_from_slice(&[0x30, 0x39, 2]);
    assert_eq!(bytes, expected);
    let unpacked = ClientHandshake::unpack(&bytes[2..]);
    assert_eq!(unpacked, Ok(handshake_packet(2)));
}

#[test]
fn long_address_packs_to_expected_frame() {
    let bytes = handshake("minecraft.google.com", 80, 2).pack();
    assert_eq!(bytes[0], 26);
    assert_eq!(bytes.len(), 27);
    assert_eq!(&bytes[1..4], &[0, 27, 20]);
    assert_eq!(&bytes[4..24], b"minecraft.google.com");
    assert_eq!(&bytes[24..], &[0, 80, 2]);
}

#[test]
fn login_start_round_trips() {
    let packet = LoginStart { name: String::from("Notch") };
    let bytes = packet.pack();
    assert_eq!(bytes, vec![7, 0, 5, b'N', b'o', b't', b'c', b'h']);
    assert_eq!(LoginStart::unpack(&bytes[2..]), Ok(McPacket::LoginStart(packet)));
}

#[test]
fn unpack_reports_short_and_long_payloads() {
    let bytes = handshake("127.0.0.1", 12345, 2).pack();
    assert_eq!(ClientHandshake::unpack(&bytes[2..10]), Err(McError::UnknownPacket));
    let mut long = bytes[2..].to_vec();
    long.push(0);
    assert_eq!(ClientHandshake::unpack(&long), Err(McError::TrailingBytes));
    assert_eq!(LoginStart::unpack(&[3, b'a']), Err(McError::UnknownPacket));
    assert_eq!(LoginStart::unpack(&[]), Err(McError::UnknownPacket));
    assert_eq!(ClientHandshake::unpack(&[27]), Err(McError::UnknownPacket));
    assert_eq!(ClientHandshake::unpack(&[27, 0x89]), Err(McError::UnknownPacket));
    assert_eq!(
        ClientHandshake::unpack(&[0x80, 0x80, 0x80, 0x80, 0x80, 0x01]),
        Err(McError::MalformedVarInt)
    );
    assert_eq!(LoginStart::unpack(&[2, 0xFF, 0xFE]), Err(McError::InvalidUtf8));
}

#[test]
fn unregistered_id_is_unsupported() {
    let protocol = Protocol::new();
    assert_eq!(
        protocol.unpack(ConnectionState::Handshaking, 0x05, &[]),
        Err(McError::UnsupportedPacket)
    );
    assert!(!protocol.is_registered(ConnectionState::Handshaking, 0x05));
    assert!(protocol.is_registered(ConnectionState::Login, 0x00));
    assert_eq!(protocol.unpack(ConnectionState::Status, 0x00, &[]), Err(McError::UnsupportedPacket));
    let info = PacketInformation { length: 1, id: 0x05 };
    assert_eq!(HandshakingPaketFactory::unpack(info, &[]), Err(McError::UnsupportedPacket));
    assert_eq!(LoginPaketFactory::unpack(info, &[]), Err(McError::UnsupportedPacket));
    let connection = Connection::create();
    assert_eq!(connection.read_packet(info, &[]), Err(McError::UnsupportedPacket));
}

#[test]
fn login_factory_decodes_login_start() {
    let info = PacketInformation { length: 3, id: 0 };
    assert_eq!(
        LoginPaketFactory::unpack(info, &[1, b'x']),
        Ok(McPacket::LoginStart(LoginStart { name: String::from("x") }))
    );
}

#[test]
fn handshake_moves_to_status_or_login() {
    let mut connection = Connection::create();
    assert_eq!(connection.current_state(), ConnectionState::Handshaking);
    assert_eq!(connection.apply(&handshake_packet(1)), Ok(()));
    assert_eq!(connection.current_state(), ConnectionState::Status);

    let mut connection = Connection::create();
    assert_eq!(connection.handle_packet(Ok(handshake_packet(2))), Ok(()));
    assert_eq!(connection.current_state(), ConnectionState::Login);
    let login = McPacket::LoginStart(LoginStart { name: String::from("a") });
    assert_eq!(connection.apply(&login), Ok(()));
    assert_eq!(connection.current_state(), ConnectionState::Login);
}

#[test]
fn invalid_next_state_leaves_state_unchanged() {
    let mut connection = Connection::create();
    assert_eq!(connection.apply(&handshake_packet(3)), Err(McError::InvalidStateTransition));
    assert_eq!(connection.current_state(), ConnectionState::Handshaking);
}

#[test]
fn packet_of_another_state_is_rejected() {
    let mut connection = Connection::create();
    let login = McPacket::LoginStart(LoginStart { name: String::from("a") });
    assert_eq!(connection.apply(&login), Err(McError::UnsupportedPacket));
    assert_eq!(connection.handle_packet(Err(McError::InvalidUtf8)), Err(McError::InvalidUtf8));
    assert_eq!(connection.current_state(), ConnectionState::Handshaking);
}

#[test]
fn frame_split_across_chunks_decodes_once() {
    let bytes = handshake("127.0.0.1", 12345, 2).pack();

    let mut whole = FrameReader::new();
    whole.push(&bytes);
    let expected = whole.next_frame().unwrap().unwrap();
    assert_eq!(whole.next_frame(), Ok(None));
    assert_eq!(whole.finish(), Ok(()));

    for split in 0..bytes.len() {
        let mut reader = FrameReader::new();
        reader.push(&bytes[..split]);
        assert_eq!(reader.next_frame(), Ok(None));
        reader.push(&bytes[split..]);
        let frame = reader.next_frame().unwrap().unwrap();
        assert_eq!(frame, expected);
        assert_eq!(reader.next_frame(), Ok(None));
        assert_eq!(reader.pending_len(), 0);
    }
    assert_eq!(expected.info, PacketInformation { length: 15, id: 0 });
    assert_eq!(ClientHandshake::unpack(&expected.payload), Ok(handshake_packet(2)));
}

#[test]
fn frame_split_inside_a_long_length_prefix() {
    let name = "n".repeat(200);
    let bytes = LoginStart { name: name.clone() }.pack();
    assert_eq!(&bytes[..2], &[0xCB, 0x01]);
    let mut reader = FrameReader::new();
    reader.push(&bytes[..1]);
    assert_eq!(reader.next_frame(), Ok(None));
    reader.push(&bytes[1..]);
    let frame = reader.next_frame().unwrap().unwrap();
    assert_eq!(frame.info, PacketInformation { length: 203, id: 0 });
    assert_eq!(
        LoginStart::unpack(&frame.payload),
        Ok(McPacket::LoginStart(LoginStart { name }))
    );
}

#[test]
fn frame_reader_handles_back_to_back_frames_and_errors() {
    let mut reader = FrameReader::new();
    reader.push(&[2, 0, 9, 3, 4]);
    let first = reader.next_frame().unwrap().unwrap();
    assert_eq!(first.info, PacketInformation { length: 2, id: 0 });
    assert_eq!(first.payload, vec![9]);
    assert_eq!(reader.next_frame(), Ok(None));
    assert_eq!(reader.finish(), Err(McError::TruncatedFrame));

    let mut bad = FrameReader::new();
    bad.push(&[0x80, 0x80, 0x80, 0x80, 0x80]);
    assert_eq!(bad.next_frame(), Err(McError::MalformedVarInt));
    let mut empty_frame = FrameReader::new();
    empty_frame.push(&[0]);
    assert_eq!(empty_frame.next_frame(), Err(McError::UnknownPacket));
}
