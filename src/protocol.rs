use vstd::prelude::*;
use crate::error::McError;
use crate::field::{write_varint, PacketField};
use crate::input::{InputBuffer, OutputBuffer};
use crate::packet::{frame, Sized};
use crate::types::{
    all_continued, lemma_pow128_values, lemma_varint_size, lemma_varint_size_bound, varint_encoding, varint_size,
    VarInt,
};
use crate::utils::size_of_varint;

verus! {

/// The protocol phase of a connection; it decides which packets are valid.
#[derive(Debug, Clone, Copy, PartialEq, Eq, Structural)]
pub enum ConnectionState {
    Handshaking,
    Play,
    Status,
    Login,
}

/// The first packet of every connection; it names the state to go to next.
#[derive(Debug, PartialEq)]
pub struct ClientHandshake {
    pub protocol_version: VarInt,
    pub address: String,
    pub port: u16,
    pub next_state: VarInt,
}

/// The packet that opens a login.
#[derive(Debug, PartialEq)]
pub struct LoginStart {
    pub name: String,
}

/// Every packet the protocol decodes.
#[derive(Debug, PartialEq)]
pub enum McPacket {
    ClientHandshake(ClientHandshake),
    LoginStart(LoginStart),
}

/// The fields of a `ClientHandshake` as values.
pub struct HandshakeView {
    pub protocol_version: u32,
    pub address: Seq<char>,
    pub port: u16,
    pub next_state: u32,
}

/// A decoded packet as values.
pub enum PacketView {
    ClientHandshake(HandshakeView),
    LoginStart(Seq<char>),
}

impl View for ClientHandshake {
    type V = HandshakeView;

    open spec fn view(&self) -> HandshakeView {
        HandshakeView {
            protocol_version: self.protocol_version@,
            address: self.address@,
            port: self.port,
            next_state: self.next_state@,
        }
    }
}

impl View for LoginStart {
    type V = Seq<char>;

    open spec fn view(&self) -> Seq<char> {
        self.name@
    }
}

impl View for McPacket {
    type V = PacketView;

    open spec fn view(&self) -> PacketView {
        match self {
            McPacket::ClientHandshake(h) => PacketView::ClientHandshake(h@),
            McPacket::LoginStart(l) => PacketView::LoginStart(l@),
        }
    }
}

/// `r` is what `s` says: the packet with these values, or this error.
pub open spec fn packet_result_is(r: Result<McPacket, McError>, s: Result<PacketView, McError>) -> bool {
    match s {
        Ok(p) => r matches Ok(q) && q@ == p,
        Err(e) => r matches Err(f) && f == e,
    }
}

/// The payload `rest` ends inside the VarInt that starts it.
pub open spec fn cut_short(rest: Seq<u8>) -> bool {
    all_continued(rest, rest.len() as int) && rest.len() < 5
}

/// The error of a packet whose field starting at `rest` failed with `e`: a
/// payload that ends before the field does is too short for the packet.
pub open spec fn field_error(e: McError, rest: Seq<u8>) -> McError {
    if e == McError::BufferUnderrun || (e == McError::MalformedVarInt && cut_short(rest)) {
        McError::UnknownPacket
    } else {
        e
    }
}

pub open spec fn handshake_body(h: HandshakeView) -> Seq<u8> {
    <VarInt as PacketField>::wire(h.protocol_version) + <String as PacketField>::wire(h.address)
        + <u16 as PacketField>::wire(h.port) + <VarInt as PacketField>::wire(h.next_state)
}

pub open spec fn login_start_body(name: Seq<char>) -> Seq<u8> {
    <String as PacketField>::wire(name)
}

/// What unpacking `p` as a `ClientHandshake` gives: its fields in order, with
/// nothing left over.
pub open spec fn parse_handshake(p: Seq<u8>) -> Result<PacketView, McError> {
    match <VarInt as PacketField>::parse(p) {
        Err(e) => Err(field_error(e, p)),
        Ok((version, n1)) => match <String as PacketField>::parse(p.skip(n1 as int)) {
            Err(e) => Err(field_error(e, p.skip(n1 as int))),
            Ok((address, n2)) => match <u16 as PacketField>::parse(p.skip((n1 + n2) as int)) {
                Err(e) => Err(field_error(e, p.skip((n1 + n2) as int))),
                Ok((port, n3)) => match <VarInt as PacketField>::parse(
                    p.skip((n1 + n2 + n3) as int),
                ) {
                    Err(e) => Err(field_error(e, p.skip((n1 + n2 + n3) as int))),
                    Ok((next, n4)) => if n1 + n2 + n3 + n4 < p.len() {
                        Err(McError::TrailingBytes)
                    } else {
                        Ok(
                            PacketView::ClientHandshake(
                                HandshakeView {
                                    protocol_version: version,
                                    address,
                                    port,
                                    next_state: next,
                                },
                            ),
                        )
                    },
                },
            },
        },
    }
}

/// What unpacking `p` as a `LoginStart` gives.
pub open spec fn parse_login_start(p: Seq<u8>) -> Result<PacketView, McError> {
    match <String as PacketField>::parse(p) {
        Err(e) => Err(field_error(e, p)),
        Ok((name, n)) => if n < p.len() {
            Err(McError::TrailingBytes)
        } else {
            Ok(PacketView::LoginStart(name))
        },
    }
}

/// The packet registry: which packet, if any, an id stands for in a state,
/// and what its payload decodes to.
pub open spec fn dispatch(state: ConnectionState, id: u8, payload: Seq<u8>) -> Result<PacketView, McError> {
    match state {
        ConnectionState::Handshaking => if id == 0 {
            parse_handshake(payload)
        } else {
            Err(McError::UnsupportedPacket)
        },
        ConnectionState::Login => if id == 0 {
            parse_login_start(payload)
        } else {
            Err(McError::UnsupportedPacket)
        },
        _ => Err(McError::UnsupportedPacket),
    }
}

/// Unpacking the fields that `pack` writes for a handshake gives the handshake
/// back.
pub proof fn lemma_handshake_round_trip(h: HandshakeView)
    requires
        <String as PacketField>::representable(h.address),
    ensures
        parse_handshake(handshake_body(h)) == Ok::<PacketView, McError>(PacketView::ClientHandshake(h)),
{
    let w1 = <VarInt as PacketField>::wire(h.protocol_version);
    let w2 = <String as PacketField>::wire(h.address);
    let w3 = <u16 as PacketField>::wire(h.port);
    let w4 = <VarInt as PacketField>::wire(h.next_state);
    let p = handshake_body(h);
    let n1 = w1.len();
    let n2 = w2.len();
    let n3 = w3.len();
    let n4 = w4.len();
    assert(p == w1 + w2 + w3 + w4);
    assert(p =~= w1 + (w2 + w3 + w4));
    <VarInt as PacketField>::lemma_round_trip(h.protocol_version, w2 + w3 + w4);
    assert(<VarInt as PacketField>::parse(p) == Ok::<(u32, nat), McError>((h.protocol_version, n1)));
    assert(p.skip(n1 as int) =~= w2 + (w3 + w4));
    <String as PacketField>::lemma_round_trip(h.address, w3 + w4);
    assert(<String as PacketField>::parse(p.skip(n1 as int)) == Ok::<(Seq<char>, nat), McError>(
        (h.address, n2),
    ));
    assert(p.skip((n1 + n2) as int) =~= w3 + w4);
    <u16 as PacketField>::lemma_round_trip(h.port, w4);
    assert(<u16 as PacketField>::parse(p.skip((n1 + n2) as int)) == Ok::<(u16, nat), McError>(
        (h.port, n3),
    ));
    assert(p.skip((n1 + n2 + n3) as int) =~= w4 + Seq::<u8>::empty());
    <VarInt as PacketField>::lemma_round_trip(h.next_state, Seq::empty());
    assert(<VarInt as PacketField>::parse(p.skip((n1 + n2 + n3) as int)) == Ok::<(u32, nat), McError>(
        (h.next_state, n4),
    ));
    assert(n1 + n2 + n3 + n4 == p.len());
}

/// Unpacking the field that `pack` writes for a login start gives it back.
pub proof fn lemma_login_start_round_trip(name: Seq<char>)
    requires
        <String as PacketField>::representable(name),
    ensures
        parse_login_start(login_start_body(name)) == Ok::<PacketView, McError>(PacketView::LoginStart(name)),
{
    <String as PacketField>::lemma_round_trip(name, Seq::empty());
    assert(login_start_body(name) + Seq::<u8>::empty() =~= login_start_body(name));
}

/// Maps an error of a field read to the error of the packet read; `cut` says
/// whether the payload ended inside the VarInt the field starts with.
fn packet_error(e: McError, cut: bool, rest: Ghost<Seq<u8>>) -> (r: McError)
    requires
        cut == cut_short(rest@),
    ensures
        r == field_error(e, rest@),
{
    match e {
        McError::BufferUnderrun => McError::UnknownPacket,
        McError::MalformedVarInt => if cut {
            McError::UnknownPacket
        } else {
            e
        },
        _ => e,
    }
}

/// A vector of `n` zero bytes.
fn zeroed(n: usize) -> (r: Vec<u8>)
    ensures
        r@.len() == n,
{
    let mut v: Vec<u8> = Vec::with_capacity(n);
    let mut i: usize = 0;
    while i < n
        invariant
            i <= n,
            v@.len() == i,
        decreases n - i,
    {
        v.push(0);
        i = i + 1;
    }
    v
}

/// A packet that encodes to a frame and decodes from a payload.
pub trait Packet: View {
    /// The id of the packet within its state.
    spec fn packet_id() -> u8;

    /// The fields of `v` on the wire, in declared order.
    spec fn body(v: Self::V) -> Seq<u8>;

    /// The values whose frame can be built: strings short enough for their
    /// length prefix, and a frame whose length fits in 32 bits.
    spec fn packable(v: Self::V) -> bool;

    /// What unpacking a payload (the id already taken off) gives.
    spec fn unpack_spec(payload: Seq<u8>) -> Result<PacketView, McError>;

    fn unpack(data: &[u8]) -> (r: Result<McPacket, McError>)
        ensures
            packet_result_is(r, Self::unpack_spec(data@)),
    ;

    fn pack(&self) -> (r: Vec<u8>)
        requires
            Self::packable(self@),
        ensures
            r@ == frame(Self::packet_id(), Self::body(self@)),
    ;
}

/// Bounds of a frame whose body takes `len` bytes: its length fits in a 32-bit
/// VarInt, and the whole frame can be counted in a `usize`.
pub open spec fn frame_fits(len: nat) -> bool {
    &&& len + 1 <= u32::MAX
    &&& len + 1 + 5 <= usize::MAX
}

/// Writes the frame header for a body of `len` bytes into a buffer that has
/// room for exactly the frame, and says so.
fn start_frame(buffer: &mut OutputBuffer, len: usize, id: u8)
    requires
        old(buffer).wf(),
        old(buffer).pos() == 0,
        len + 1 <= u32::MAX,
        old(buffer).room() == varint_size((len + 1) as nat) + 1 + len,
    ensures
        OutputBuffer::wrote(*old(buffer), *final(buffer), varint_encoding((len + 1) as nat) + seq![id]),
        final(buffer).room() == len,
{
    let ghost start = *buffer;
    let _ = write_varint(buffer, (len + 1) as u64);
    let ghost mid = *buffer;
    proof {
        lemma_varint_size((len + 1) as nat);
    }
    let _ = buffer.put_byte(id);
    proof {
        OutputBuffer::lemma_wrote_trans(start, mid, *buffer, varint_encoding((len + 1) as nat), seq![id]);
    }
}

impl Packet for ClientHandshake {
    open spec fn packet_id() -> u8 {
        0
    }

    open spec fn body(v: HandshakeView) -> Seq<u8> {
        handshake_body(v)
    }

    open spec fn packable(v: HandshakeView) -> bool {
        &&& <String as PacketField>::representable(v.address)
        &&& frame_fits(handshake_body(v).len())
    }

    open spec fn unpack_spec(payload: Seq<u8>) -> Result<PacketView, McError> {
        parse_handshake(payload)
    }

    fn unpack(data: &[u8]) -> (r: Result<McPacket, McError>) {
        let mut buffer = InputBuffer::create(data);
        let ghost b0 = buffer;
        let cut = buffer.ends_inside_varint();
        let protocol_version = match VarInt::read_from(&mut buffer) {
            Ok(v) => v,
            Err(e) => return Err(packet_error(e, cut, Ghost(b0.remaining()))),
        };
        let ghost b1 = buffer;
        assert(b1.remaining() =~= data@.skip((b1.pos() - b0.pos()) as int));
        let cut = buffer.ends_inside_varint();
        let address = match String::read_from(&mut buffer) {
            Ok(v) => v,
            Err(e) => return Err(packet_error(e, cut, Ghost(b1.remaining()))),
        };
        let ghost b2 = buffer;
        assert(b2.remaining() =~= data@.skip((b2.pos() - b0.pos()) as int));
        let cut = buffer.ends_inside_varint();
        let port = match u16::read_from(&mut buffer) {
            Ok(v) => v,
            Err(e) => return Err(packet_error(e, cut, Ghost(b2.remaining()))),
        };
        let ghost b3 = buffer;
        assert(b3.remaining() =~= data@.skip((b3.pos() - b0.pos()) as int));
        let cut = buffer.ends_inside_varint();
        let next_state = match VarInt::read_from(&mut buffer) {
            Ok(v) => v,
            Err(e) => return Err(packet_error(e, cut, Ghost(b3.remaining()))),
        };
        if buffer.has_next() {
            return Err(McError::TrailingBytes);
        }
        Ok(McPacket::ClientHandshake(ClientHandshake { protocol_version, address, port, next_state }))
    }

    fn pack(&self) -> (r: Vec<u8>) {
        let ghost w1 = <VarInt as PacketField>::wire(self.protocol_version@);
        let ghost w2 = <String as PacketField>::wire(self.address@);
        let ghost w3 = <u16 as PacketField>::wire(self.port);
        let ghost w4 = <VarInt as PacketField>::wire(self.next_state@);
        let length = self.protocol_version.get_size() + self.address.get_size() + self.port.get_size()
            + self.next_state.get_size();
        proof {
            lemma_pow128_values();
            lemma_varint_size_bound((length + 1) as nat, 5);
        }
        let size = size_of_varint((length + 1) as u64) + 1 + length;
        let mut buffer = OutputBuffer::from_vector(zeroed(size));
        let ghost b0 = buffer;
        start_frame(&mut buffer, length, 0);
        let ghost b1 = buffer;
        let _ = self.protocol_version.write_to(&mut buffer);
        let ghost b2 = buffer;
        let _ = self.address.write_to(&mut buffer);
        let ghost b3 = buffer;
        let _ = self.port.write_to(&mut buffer);
        let ghost b4 = buffer;
        let _ = self.next_state.write_to(&mut buffer);
        proof {
            let h = varint_encoding((length + 1) as nat) + seq![0u8];
            OutputBuffer::lemma_wrote_trans(b0, b1, b2, h, w1);
            OutputBuffer::lemma_wrote_trans(b0, b2, b3, h + w1, w2);
            OutputBuffer::lemma_wrote_trans(b0, b3, b4, h + w1 + w2, w3);
            OutputBuffer::lemma_wrote_trans(b0, b4, buffer, h + w1 + w2 + w3, w4);
            assert(b0.written() =~= Seq::<u8>::empty());
            assert(buffer.written() =~= buffer.bytes());
            assert(h + w1 + w2 + w3 + w4 =~= frame(0, handshake_body(self@)));
        }
        buffer.into_vec()
    }
}

impl Packet for LoginStart {
    open spec fn packet_id() -> u8 {
        0
    }

    open spec fn body(v: Seq<char>) -> Seq<u8> {
        login_start_body(v)
    }

    open spec fn packable(v: Seq<char>) -> bool {
        &&& <String as PacketField>::representable(v)
        &&& frame_fits(login_start_body(v).len())
    }

    open spec fn unpack_spec(payload: Seq<u8>) -> Result<PacketView, McError> {
        parse_login_start(payload)
    }

    fn unpack(data: &[u8]) -> (r: Result<McPacket, McError>) {
        let mut buffer = InputBuffer::create(data);
        let ghost b0 = buffer;
        let cut = buffer.ends_inside_varint();
        let name = match String::read_from(&mut buffer) {
            Ok(v) => v,
            Err(e) => return Err(packet_error(e, cut, Ghost(b0.remaining()))),
        };
        if buffer.has_next() {
            return Err(McError::TrailingBytes);
        }
        Ok(McPacket::LoginStart(LoginStart { name }))
    }

    fn pack(&self) -> (r: Vec<u8>) {
        let length = self.name.get_size();
        proof {
            lemma_pow128_values();
            lemma_varint_size_bound((length + 1) as nat, 5);
        }
        let size = size_of_varint((length + 1) as u64) + 1 + length;
        let mut buffer = OutputBuffer::from_vector(zeroed(size));
        let ghost b0 = buffer;
        start_frame(&mut buffer, length, 0);
        let ghost b1 = buffer;
        let _ = self.name.write_to(&mut buffer);
        proof {
            let h = varint_encoding((length + 1) as nat) + seq![0u8];
            OutputBuffer::lemma_wrote_trans(b0, b1, buffer, h, login_start_body(self@));
            assert(b0.written() =~= Seq::<u8>::empty());
            assert(buffer.written() =~= buffer.bytes());
            assert(h + login_start_body(self@) =~= frame(0, login_start_body(self@)));
        }
        buffer.into_vec()
    }
}

} // verus!
