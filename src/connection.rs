use vstd::prelude::*;
use crate::error::McError;
use crate::packet::PacketInformation;
use crate::protocol::{
    dispatch, packet_result_is, ClientHandshake, ConnectionState, LoginStart, McPacket, Packet,
    PacketView,
};

verus! {

/// Decodes the packets of one connection state by their id.
pub trait PacketFactory {
    /// The state whose packets this factory decodes.
    spec fn state() -> ConnectionState;

    fn unpack(info: PacketInformation, data: &[u8]) -> (r: Result<McPacket, McError>)
        ensures
            packet_result_is(r, dispatch(Self::state(), info.id, data@)),
    ;
}

/// The packets of the `Handshaking` state.
pub struct HandshakingPaketFactory;

impl PacketFactory for HandshakingPaketFactory {
    open spec fn state() -> ConnectionState {
        ConnectionState::Handshaking
    }

    fn unpack(info: PacketInformation, data: &[u8]) -> (r: Result<McPacket, McError>) {
        match info.id {
            0 => ClientHandshake::unpack(data),
            _ => Err(McError::UnsupportedPacket),
        }
    }
}

/// The packets of the `Login` state.
pub struct LoginPaketFactory;

impl PacketFactory for LoginPaketFactory {
    open spec fn state() -> ConnectionState {
        ConnectionState::Login
    }

    fn unpack(info: PacketInformation, data: &[u8]) -> (r: Result<McPacket, McError>) {
        match info.id {
            0 => LoginStart::unpack(data),
            _ => Err(McError::UnsupportedPacket),
        }
    }
}

/// The registry of every state's packets.
pub struct Protocol;

impl Protocol {
    pub fn new() -> (r: Protocol) {
        Protocol
    }

    /// Whether a packet with id `id` is registered in `state`.
    pub fn is_registered(&self, state: ConnectionState, id: u8) -> (r: bool)
        ensures
            r == (id == 0 && (state == ConnectionState::Handshaking || state
                == ConnectionState::Login)),
    {
        id == 0 && match state {
            ConnectionState::Handshaking => true,
            ConnectionState::Login => true,
            _ => false,
        }
    }

    /// Decodes the payload `data` of a packet with id `id` received in `state`.
    pub fn unpack(&self, state: ConnectionState, id: u8, data: &[u8]) -> (r: Result<McPacket, McError>)
        ensures
            packet_result_is(r, dispatch(state, id, data@)),
    {
        let info = PacketInformation { length: 0, id };
        match state {
            ConnectionState::Handshaking => HandshakingPaketFactory::unpack(info, data),
            ConnectionState::Login => LoginPaketFactory::unpack(info, data),
            _ => Err(McError::UnsupportedPacket),
        }
    }
}

/// The state that applying packet `p` in `state` leads to, or why it is
/// refused: a handshake in `Handshaking` moves to `Status` (next state 1) or
/// `Login` (next state 2); a login start in `Login` stays there; any other
/// packet is not one of the state's packets.
pub open spec fn transition(state: ConnectionState, p: PacketView) -> Result<ConnectionState, McError> {
    match p {
        PacketView::ClientHandshake(h) => if state != ConnectionState::Handshaking {
            Err(McError::UnsupportedPacket)
        } else if h.next_state == 1 {
            Ok(ConnectionState::Status)
        } else if h.next_state == 2 {
            Ok(ConnectionState::Login)
        } else {
            Err(McError::InvalidStateTransition)
        },
        PacketView::LoginStart(_) => if state == ConnectionState::Login {
            Ok(ConnectionState::Login)
        } else {
            Err(McError::UnsupportedPacket)
        },
    }
}

/// The protocol state of one client session.
pub struct Connection {
    state: ConnectionState,
}

impl View for Connection {
    type V = ConnectionState;

    closed spec fn view(&self) -> ConnectionState {
        self.state
    }
}

impl Connection {
    /// A new session, in `Handshaking`.
    pub fn create() -> (r: Connection)
        ensures
            r@ == ConnectionState::Handshaking,
    {
        Connection { state: ConnectionState::Handshaking }
    }

    pub fn current_state(&self) -> (r: ConnectionState)
        ensures
            r == self@,
    {
        self.state
    }

    /// Decodes a packet under the current state.
    pub fn read_packet(&self, info: PacketInformation, data: &[u8]) -> (r: Result<McPacket, McError>)
        ensures
            packet_result_is(r, dispatch(self@, info.id, data@)),
    {
        let protocol = Protocol::new();
        protocol.unpack(self.state, info.id, data)
    }

    /// Applies a decoded packet: the only way the state changes. On an error
    /// the state stays as it was.
    pub fn apply(&mut self, packet: &McPacket) -> (r: Result<(), McError>)
        ensures
            match transition(old(self)@, packet@) {
                Ok(s) => r == Ok::<(), McError>(()) && final(self)@ == s,
                Err(e) => r == Err::<(), McError>(e) && final(self)@ == old(self)@,
            },
    {
        match packet {
            McPacket::ClientHandshake(handshake) => {
                match self.state {
                    ConnectionState::Handshaking => {},
                    _ => return Err(McError::UnsupportedPacket),
                }
                let next = handshake.next_state.get_value();
                if next == 1 {
                    self.state = ConnectionState::Status;
                    Ok(())
                } else if next == 2 {
                    self.state = ConnectionState::Login;
                    Ok(())
                } else {
                    Err(McError::InvalidStateTransition)
                }
            },
            McPacket::LoginStart(_) => {
                match self.state {
                    ConnectionState::Login => Ok(()),
                    _ => Err(McError::UnsupportedPacket),
                }
            },
        }
    }

    /// Applies the outcome of decoding a packet: a packet is applied, an error
    /// is passed on with the state unchanged.
    pub fn handle_packet(&mut self, packet: Result<McPacket, McError>) -> (r: Result<(), McError>)
        ensures
            match packet {
                Ok(p) => match transition(old(self)@, p@) {
                    Ok(s) => r == Ok::<(), McError>(()) && final(self)@ == s,
                    Err(e) => r == Err::<(), McError>(e) && final(self)@ == old(self)@,
                },
                Err(e) => r == Err::<(), McError>(e) && final(self)@ == old(self)@,
            },
    {
        match packet {
            Ok(p) => self.apply(&p),
            Err(e) => Err(e),
        }
    }
}

} // verus!
