use vstd::prelude::*;

use crate::error::ProtocolError;
use crate::framer::frame_of;
use crate::packet::{
    be_value, lemma_be_round_trip, lemma_bits_round_trip, packet_body, parse, parse_packet, pong_response, Packet, ServerboundPackets, State,
};
use crate::varint::{decode_varint, varint_encoding};

verus! {

/// What the connection's owner is to do after a frame was handled.
pub enum Action {
    /// Nothing to send; wait for the next frame.
    Nothing,
    /// Answer with the server's status.
    SendStatus,
    /// Send these bytes back to the client.
    Reply(Vec<u8>),
    /// Dial the backend, forward the handshake frame exactly as it came, and
    /// relay bytes both ways from then on.
    Tunnel,
}

/// The state that a packet moves a connection to, or why the connection may
/// not take it. Only a handshake changes the state, and only from `Listening`;
/// status requests and pings are taken in `Status` alone.
pub open spec fn transition(state: State, p: Packet) -> Result<State, ProtocolError> {
    match p {
        Packet::Handshake { next_state, .. } => if state == State::Listening {
            Ok(next_state)
        } else {
            Err(ProtocolError::WrongState)
        },
        Packet::StatusRequest | Packet::PingRequest { .. } => if state == State::Status {
            Ok(State::Status)
        } else {
            Err(ProtocolError::WrongState)
        },
    }
}

/// The action that a packet that was taken calls for.
pub open spec fn action_for(a: Action, p: Packet) -> bool {
    match p {
        Packet::Handshake { next_state, .. } => if next_state == State::Login {
            a is Tunnel
        } else {
            a is Nothing
        },
        Packet::StatusRequest => a is SendStatus,
        Packet::PingRequest { payload } => a is Reply && a->Reply_0@ == frame_of(
            packet_body(Packet::PingRequest { payload }),
        ),
    }
}

/// One client connection, from its first frame until it is tunneled or closed.
pub struct Connection {
    pub state: State,
}

impl Connection {
    pub fn new() -> (r: Connection)
        ensures
            r.state == State::Listening,
    {
        Connection { state: State::Listening }
    }

    /// Decodes the payload of one frame against the current state, moves to the
    /// next state and says what to do. On an error the state is kept, and the
    /// owner closes this connection.
    pub fn handle_frame(&mut self, payload: &[u8]) -> (r: Result<Action, ProtocolError>)
        ensures
            match parse_packet(payload@, old(self).state) {
                Err(e) => r == Err::<Action, ProtocolError>(e) && final(self).state == old(
                    self,
                ).state,
                Ok(p) => match transition(old(self).state, p) {
                    Err(e) => r == Err::<Action, ProtocolError>(e) && final(self).state == old(
                        self,
                    ).state,
                    Ok(next) => r is Ok && action_for(r->Ok_0, p) && final(self).state == next,
                },
            },
    {
        let packet = match parse(payload, self.state) {
            Ok(p) => p,
            Err(e) => return Err(e),
        };
        match packet {
            ServerboundPackets::Handshake { next_state, .. } => {
                if self.state != State::Listening {
                    return Err(ProtocolError::WrongState);
                }
                self.state = next_state;
                if next_state == State::Login {
                    Ok(Action::Tunnel)
                } else {
                    Ok(Action::Nothing)
                }
            },
            ServerboundPackets::StatusRequest => {
                if self.state != State::Status {
                    return Err(ProtocolError::WrongState);
                }
                Ok(Action::SendStatus)
            },
            ServerboundPackets::PingRequest { payload } => {
                if self.state != State::Status {
                    return Err(ProtocolError::WrongState);
                }
                Ok(Action::Reply(pong_response(payload)))
            },
        }
    }
}

/// A ping is answered only in the status phase: before the handshake, and once
/// the connection is tunneled, a frame with packet id 1 is `WrongState`,
/// whatever else it holds.
pub proof fn lemma_ping_needs_status(payload: Seq<u8>, state: State)
    requires
        state != State::Status,
        decode_varint(payload) is Ok,
        decode_varint(payload)->Ok_0.0 == 1,
    ensures
        parse_packet(payload, state) == Err::<Packet, ProtocolError>(ProtocolError::WrongState),
{
}

/// In the status phase a complete ping is taken, and the pong that answers it
/// carries the eight payload bytes of the ping unchanged.
pub proof fn lemma_pong_echoes_ping(payload: Seq<u8>, n: nat)
    requires
        decode_varint(payload) == Ok::<(int, nat), ProtocolError>((1, n)),
        payload.len() == n + 8,
    ensures
        parse_packet(payload, State::Status) is Ok,
        transition(State::Status, parse_packet(payload, State::Status)->Ok_0) == Ok::<
            State,
            ProtocolError,
        >(State::Status),
        packet_body(parse_packet(payload, State::Status)->Ok_0) == varint_encoding(1)
            + payload.skip(n as int),
{
    let b = payload.skip(n as int);
    lemma_be_round_trip(b);
    lemma_bits_round_trip(be_value(b));
}

} // verus!
