use vstd::prelude::*;
use vstd::string::StringSliceAdditionalSpecFns;
use vstd::utf8::{
    decode_utf8, encode_utf8, encode_utf8_decode_utf8, encode_utf8_valid_utf8, valid_utf8,
};

use crate::error::ProtocolError;
use crate::framer::{append_bytes, frame_of, write_frame};
use crate::varint::{
    decode_varint, lemma_varint_bits_round_trip, read_varint, varint_encoding, wrap_i32,
    write_varint,
};

verus! {

/// Where a connection stands in the protocol.
#[derive(Debug, Clone, Copy, PartialEq, Eq, Structural)]
pub enum State {
    /// Nothing answered yet: a handshake is expected.
    Listening,
    /// Status requests and pings are answered locally.
    Status,
    /// The connection is handed to the backend.
    Login,
}

/// The number that a handshake writes for the state it asks for.
pub open spec fn state_code(s: State) -> int {
    match s {
        State::Listening => 0,
        State::Status => 1,
        State::Login => 2,
    }
}

impl From<State> for u8 {
    fn from(value: State) -> (r: u8) {
        match value {
            State::Listening => 0,
            State::Status => 1,
            State::Login => 2,
        }
    }
}

impl vstd::std_specs::convert::FromSpecImpl<State> for u8 {
    open spec fn obeys_from_spec() -> bool {
        true
    }

    open spec fn from_spec(v: State) -> u8 {
        state_code(v) as u8
    }
}

/// A packet that a client sends before it logs in.
#[derive(Debug, Clone)]
pub enum ServerboundPackets {
    Handshake { protocol_ver: i32, address: String, port: u16, next_state: State },
    StatusRequest,
    PingRequest { payload: i64 },
}

/// A packet as values: what the bytes of a `ServerboundPackets` mean.
pub enum Packet {
    Handshake { protocol_ver: int, address: Seq<char>, port: int, next_state: State },
    StatusRequest,
    PingRequest { payload: int },
}

impl View for ServerboundPackets {
    type V = Packet;

    open spec fn view(&self) -> Packet {
        match self {
            ServerboundPackets::Handshake { protocol_ver, address, port, next_state } => {
                Packet::Handshake {
                    protocol_ver: *protocol_ver as int,
                    address: address@,
                    port: *port as int,
                    next_state: *next_state,
                }
            },
            ServerboundPackets::StatusRequest => Packet::StatusRequest,
            ServerboundPackets::PingRequest { payload } => Packet::PingRequest {
                payload: *payload as int,
            },
        }
    }
}

/// The unsigned number that big-endian bytes stand for.
pub open spec fn be_value(s: Seq<u8>) -> nat
    decreases s.len(),
{
    if s.len() == 0 {
        0
    } else {
        be_value(s.drop_last()) * 256 + s.last() as nat
    }
}

/// The low `n` bytes of `v`, most significant first.
pub open spec fn be_bytes(v: nat, n: nat) -> Seq<u8>
    decreases n,
{
    if n == 0 {
        Seq::<u8>::empty()
    } else {
        be_bytes(v / 256, (n - 1) as nat).push((v % 256) as u8)
    }
}

/// The `i64` whose two's complement bits are the low 64 bits of `v`.
pub open spec fn wrap_i64(v: nat) -> int {
    let low = v % 0x1_0000_0000_0000_0000;
    if low >= 0x8000_0000_0000_0000 {
        low - 0x1_0000_0000_0000_0000
    } else {
        low as int
    }
}

/// The two's complement bits of a signed number of `bits` bits.
pub open spec fn unsigned_bits(x: int, bits: nat) -> nat {
    if x < 0 {
        (x + vstd::arithmetic::power2::pow2(bits)) as nat
    } else {
        x as nat
    }
}

/// The body of a handshake that carries these fields; the address goes as its
/// UTF-8 bytes behind their length.
pub open spec fn handshake_body(
    protocol_ver: int,
    address: Seq<char>,
    port: int,
    next_state: State,
) -> Seq<u8> {
    let a = encode_utf8(address);
    varint_encoding(0) + varint_encoding(unsigned_bits(protocol_ver, 32)) + varint_encoding(a.len())
        + a + be_bytes(port as nat, 2) + varint_encoding(state_code(next_state) as nat)
}

/// The bytes of a packet inside its frame: the packet id, then its fields.
pub open spec fn packet_body(p: Packet) -> Seq<u8> {
    match p {
        Packet::Handshake { protocol_ver, address, port, next_state } => handshake_body(
            protocol_ver,
            address,
            port,
            next_state,
        ),
        Packet::StatusRequest => varint_encoding(0),
        Packet::PingRequest { payload } => varint_encoding(1) + be_bytes(
            unsigned_bits(payload, 64),
            8,
        ),
    }
}

/// What a handshake's body reads as, after its packet id: the protocol
/// version, the address behind its length, the port, then the next state, and
/// nothing more.
pub open spec fn parse_handshake(s: Seq<u8>) -> Result<Packet, ProtocolError> {
    match decode_varint(s) {
        Err(e) => Err(e),
        Ok((protocol_ver, a)) => {
            let s1 = s.skip(a as int);
            match decode_varint(s1) {
                Err(e) => Err(e),
                Ok((len, b)) => {
                    let s2 = s1.skip(b as int);
                    if len < 0 {
                        Err(ProtocolError::MalformedString)
                    } else if s2.len() < len {
                        Err(ProtocolError::TruncatedFrame)
                    } else if !valid_utf8(s2.take(len)) {
                        Err(ProtocolError::MalformedString)
                    } else if s2.len() < len + 2 {
                        Err(ProtocolError::TruncatedFrame)
                    } else {
                        let s4 = s2.skip(len + 2);
                        match decode_varint(s4) {
                            Err(e) => Err(e),
                            Ok((next, c)) => {
                                if next != 1 && next != 2 {
                                    Err(ProtocolError::InvalidState)
                                } else if s4.len() > c {
                                    Err(ProtocolError::TrailingBytes)
                                } else {
                                    Ok(
                                        Packet::Handshake {
                                            protocol_ver,
                                            address: decode_utf8(s2.take(len)),
                                            port: s2[len] * 256 + s2[len + 1],
                                            next_state: if next == 1 {
                                                State::Status
                                            } else {
                                                State::Login
                                            },
                                        },
                                    )
                                }
                            },
                        }
                    }
                },
            }
        },
    }
}

/// What the payload of a frame reads as, in a connection in state `state`.
pub open spec fn parse_packet(p: Seq<u8>, state: State) -> Result<Packet, ProtocolError> {
    match decode_varint(p) {
        Err(e) => Err(e),
        Ok((id, n)) => {
            let rest = p.skip(n as int);
            if id == 0 {
                if state == State::Login {
                    Err(ProtocolError::WrongState)
                } else if rest.len() == 0 {
                    Ok(Packet::StatusRequest)
                } else if state == State::Status {
                    Err(ProtocolError::TrailingBytes)
                } else {
                    parse_handshake(rest)
                }
            } else if id == 1 {
                if state != State::Status {
                    Err(ProtocolError::WrongState)
                } else if rest.len() < 8 {
                    Err(ProtocolError::TruncatedFrame)
                } else if rest.len() > 8 {
                    Err(ProtocolError::TrailingBytes)
                } else {
                    Ok(Packet::PingRequest { payload: wrap_i64(be_value(rest)) })
                }
            } else {
                Err(ProtocolError::UnsupportedPacket)
            }
        },
    }
}

/// Relies on `String::from_utf8`: it succeeds exactly on valid UTF-8, and the
/// string then holds the characters that the bytes encode.
#[verifier::external_body]
fn string_from_utf8(bytes: Vec<u8>) -> (r: Option<String>)
    ensures
        r is Some <==> valid_utf8(bytes@),
        r is Some ==> r->0@ == decode_utf8(bytes@),
{
    String::from_utf8(bytes).ok()
}

fn copy_range(buf: &[u8], start: usize, end: usize) -> (r: Vec<u8>)
    requires
        start <= end <= buf@.len(),
    ensures
        r@ == buf@.subrange(start as int, end as int),
{
    let mut r: Vec<u8> = Vec::new();
    let mut i: usize = start;
    while i < end
        invariant
            start <= i <= end,
            end <= buf@.len(),
            r@ == buf@.subrange(start as int, i as int),
        decreases end - i,
    {
        r.push(buf[i]);
        proof {
            assert(buf@.subrange(start as int, i + 1) =~= buf@.subrange(start as int, i as int).push(
                buf@[i as int],
            ));
        }
        i = i + 1;
    }
    r
}

fn read_be_i64(buf: &[u8], start: usize) -> (r: i64)
    requires
        start + 8 <= buf@.len(),
    ensures
        r as int == wrap_i64(be_value(buf@.subrange(start as int, start + 8))),
{
    let ghost s = buf@.subrange(start as int, start + 8);
    let total: usize = buf.len();
    let mut acc: u64 = 0;
    let mut i: usize = 0;
    proof {
        assert(s.take(0) =~= Seq::<u8>::empty());
        vstd::arithmetic::power2::lemma2_to64();
        vstd::arithmetic::power2::lemma2_to64_rest();
    }
    while i < 8
        invariant
            i <= 8,
            start + 8 <= buf@.len(),
            total == buf@.len(),
            s == buf@.subrange(start as int, start + 8),
            acc == be_value(s.take(i as int)),
            acc < vstd::arithmetic::power2::pow2(8 * i as nat),
        decreases 8 - i,
    {
        let b: u8 = buf[start + i];
        proof {
            assert(s.take(i + 1).drop_last() =~= s.take(i as int));
            vstd::arithmetic::power2::lemma_pow2_adds(8 * i as nat, 8);
            vstd::arithmetic::power2::lemma2_to64();
            vstd::arithmetic::power2::lemma2_to64_rest();
            if i < 7 {
                vstd::arithmetic::power2::lemma_pow2_strictly_increases(8 * i as nat + 8, 64);
            }
            assert(acc * 256 + b < vstd::arithmetic::power2::pow2(8 * i as nat) * 256) by (nonlinear_arith)
                requires
                    acc < vstd::arithmetic::power2::pow2(8 * i as nat),
                    b < 256,
            ;
        }
        acc = acc * 256 + b as u64;
        i = i + 1;
    }
    proof {
        assert(s.take(8) =~= s);
    }
    if acc >= 0x8000_0000_0000_0000 {
        (acc - 0x8000_0000_0000_0000) as i64 - 0x7FFF_FFFF_FFFF_FFFF - 1
    } else {
        acc as i64
    }
}

fn push_be(out: &mut Vec<u8>, v: u64, n: usize)
    ensures
        final(out)@ == old(out)@ + be_bytes(v as nat, n as nat),
    decreases n,
{
    if n > 0 {
        push_be(out, v / 256, n - 1);
        out.push((v % 256) as u8);
    }
}

/// Reads one packet from the payload of a frame, as the connection's state
/// allows it.
pub fn parse(payload: &[u8], state: State) -> (r: Result<ServerboundPackets, ProtocolError>)
    ensures
        match parse_packet(payload@, state) {
            Ok(p) => r is Ok && r->Ok_0@ == p,
            Err(e) => r == Err::<ServerboundPackets, ProtocolError>(e),
        },
{
    let (id, n) = match read_varint(payload, 0) {
        Ok(v) => v,
        Err(e) => {
            proof {
                assert(payload@.skip(0) =~= payload@);
            }
            return Err(e);
        },
    };
    proof {
        assert(payload@.skip(0) =~= payload@);
    }
    let rest_len: usize = payload.len() - n;
    if id == 0 {
        if state == State::Login {
            return Err(ProtocolError::WrongState);
        }
        if rest_len == 0 {
            return Ok(ServerboundPackets::StatusRequest);
        }
        if state == State::Status {
            return Err(ProtocolError::TrailingBytes);
        }
        parse_handshake_at(payload, n)
    } else if id == 1 {
        if state != State::Status {
            return Err(ProtocolError::WrongState);
        }
        if rest_len < 8 {
            return Err(ProtocolError::TruncatedFrame);
        }
        if rest_len > 8 {
            return Err(ProtocolError::TrailingBytes);
        }
        let payload_value = read_be_i64(payload, n);
        proof {
            assert(payload@.subrange(n as int, n + 8) =~= payload@.skip(n as int));
        }
        Ok(ServerboundPackets::PingRequest { payload: payload_value })
    } else {
        Err(ProtocolError::UnsupportedPacket)
    }
}

fn parse_handshake_at(buf: &[u8], start: usize) -> (r: Result<ServerboundPackets, ProtocolError>)
    requires
        start <= buf@.len(),
    ensures
        match parse_handshake(buf@.skip(start as int)) {
            Ok(p) => r is Ok && r->Ok_0@ == p,
            Err(e) => r == Err::<ServerboundPackets, ProtocolError>(e),
        },
{
    let ghost s = buf@.skip(start as int);
    let total: usize = buf.len();
    let scan = read_varint(buf, start);
    let (protocol_ver, a) = match scan {
        Ok(v) => v,
        Err(e) => return Err(e),
    };
    assert(a <= buf@.len() - start);
    let p1: usize = start + a;
    proof {
        assert(buf@.skip(p1 as int) =~= s.skip(a as int));
    }
    let scan = read_varint(buf, p1);
    let (len, b) = match scan {
        Ok(v) => v,
        Err(e) => return Err(e),
    };
    assert(b <= buf@.len() - p1);
    let p2: usize = p1 + b;
    let ghost s2 = s.skip(a as int).skip(b as int);
    proof {
        assert(buf@.skip(p2 as int) =~= s2);
    }
    if len < 0 {
        return Err(ProtocolError::MalformedString);
    }
    let len: usize = len as usize;
    if buf.len() - p2 < len {
        return Err(ProtocolError::TruncatedFrame);
    }
    let bytes = copy_range(buf, p2, p2 + len);
    proof {
        assert(bytes@ =~= s2.take(len as int));
    }
    let address = match string_from_utf8(bytes) {
        Some(text) => text,
        None => return Err(ProtocolError::MalformedString),
    };
    if buf.len() - p2 - len < 2 {
        return Err(ProtocolError::TruncatedFrame);
    }
    let port: u16 = buf[p2 + len] as u16 * 256 + buf[p2 + len + 1] as u16;
    let p4: usize = p2 + len + 2;
    proof {
        assert(buf@.skip(p4 as int) =~= s2.skip(len + 2));
    }
    let scan = read_varint(buf, p4);
    let (next, c) = match scan {
        Ok(v) => v,
        Err(e) => return Err(e),
    };
    assert(c <= buf@.len() - p4);
    if next != 1 && next != 2 {
        return Err(ProtocolError::InvalidState);
    }
    if buf.len() - p4 > c {
        return Err(ProtocolError::TrailingBytes);
    }
    let next_state = if next == 1 {
        State::Status
    } else {
        State::Login
    };
    Ok(ServerboundPackets::Handshake { protocol_ver, address, port, next_state })
}

/// Encodes a packet as one frame on the wire: its length, its id, its fields.
pub fn to_bytes(value: &ServerboundPackets) -> (r: Vec<u8>)
    requires
        packet_body(value@).len() <= i32::MAX,
    ensures
        r@ == frame_of(packet_body(value@)),
{
    let mut body: Vec<u8> = Vec::new();
    proof {
        vstd::arithmetic::power2::lemma2_to64();
        vstd::arithmetic::power2::lemma2_to64_rest();
    }
    match value {
        ServerboundPackets::Handshake { protocol_ver, address, port, next_state } => {
            write_varint(&mut body, 0);
            let bits: i64 = if *protocol_ver < 0 {
                *protocol_ver as i64 + 0x1_0000_0000
            } else {
                *protocol_ver as i64
            };
            write_varint(&mut body, bits);
            let a = address.as_str().as_bytes();
            write_varint(&mut body, a.len() as i64);
            append_bytes(&mut body, a);
            push_be(&mut body, *port as u64, 2);
            let code: i64 = match next_state {
                State::Listening => 0,
                State::Status => 1,
                State::Login => 2,
            };
            write_varint(&mut body, code);
            proof {
                assert(body@ =~= packet_body(value@));
            }
        },
        ServerboundPackets::StatusRequest => {
            write_varint(&mut body, 0);
            proof {
                assert(body@ =~= packet_body(value@));
            }
        },
        ServerboundPackets::PingRequest { payload } => {
            write_varint(&mut body, 1);
            let bits: u64 = if *payload < 0 {
                (*payload + 0x7FFF_FFFF_FFFF_FFFF + 1) as u64 + 0x8000_0000_0000_0000
            } else {
                *payload as u64
            };
            push_be(&mut body, bits, 8);
            proof {
                assert(body@ =~= packet_body(value@));
            }
        },
    }
    let mut out: Vec<u8> = Vec::new();
    write_frame(&mut out, body.as_slice());
    proof {
        assert(out@ =~= frame_of(packet_body(value@)));
    }
    out
}

/// The reply to a ping: a pong frame that carries the same payload.
pub fn pong_response(payload: i64) -> (r: Vec<u8>)
    ensures
        r@ == frame_of(packet_body(Packet::PingRequest { payload: payload as int })),
{
    proof {
        lemma_be_bytes_len(unsigned_bits(payload as int, 64), 8);
        assert(varint_encoding(1).len() == 1);
    }
    to_bytes(&ServerboundPackets::PingRequest { payload })
}

proof fn lemma_be_bytes_len(v: nat, n: nat)
    ensures
        be_bytes(v, n).len() == n,
    decreases n,
{
    if n > 0 {
        lemma_be_bytes_len(v / 256, (n - 1) as nat);
    }
}

/// The body of a status response that carries `json`: packet id 0, then the
/// JSON text's UTF-8 bytes behind their length.
pub open spec fn status_body(json: Seq<u8>) -> Seq<u8> {
    varint_encoding(0) + varint_encoding(json.len()) + json
}

/// The reply to a status request: one frame that carries the server's status
/// as JSON text.
pub fn status_response(json: &str) -> (r: Vec<u8>)
    requires
        json.spec_bytes().len() <= 0x7FFF_0000,
    ensures
        r@ == frame_of(status_body(json.spec_bytes())),
{
    let j = json.as_bytes();
    let mut body: Vec<u8> = Vec::new();
    write_varint(&mut body, 0);
    write_varint(&mut body, j.len() as i64);
    append_bytes(&mut body, j);
    proof {
        reveal_with_fuel(crate::varint::pow128, 6);
        crate::varint::lemma_encoding_len(j@.len() as nat, 5);
        assert(body@ =~= status_body(json.spec_bytes()));
    }
    let mut out: Vec<u8> = Vec::new();
    write_frame(&mut out, body.as_slice());
    proof {
        assert(out@ =~= frame_of(status_body(json.spec_bytes())));
    }
    out
}

/// Big-endian bytes read back: the low `b.len()` bytes of their value are
/// the bytes themselves, and eight of them stand for less than `2^64`.
pub proof fn lemma_be_round_trip(b: Seq<u8>)
    ensures
        be_bytes(be_value(b), b.len()) == b,
        b.len() <= 8 ==> be_value(b) < vstd::arithmetic::power2::pow2(8 * b.len()),
    decreases b.len(),
{
    if b.len() > 0 {
        let d = b.drop_last();
        lemma_be_round_trip(d);
        let x = be_value(d);
        let y = b.last() as nat;
        assert((x * 256 + y) / 256 == x && (x * 256 + y) % 256 == y) by (nonlinear_arith)
            requires
                y < 256,
        ;
        assert(b =~= d.push(b.last()));
        if b.len() <= 8 {
            vstd::arithmetic::power2::lemma_pow2_adds(8 * d.len(), 8);
            vstd::arithmetic::power2::lemma2_to64();
            assert(x * 256 + y < vstd::arithmetic::power2::pow2(8 * d.len()) * 256) by (nonlinear_arith)
                requires
                    x < vstd::arithmetic::power2::pow2(8 * d.len()),
                    y < 256,
            ;
        }
    } else {
        vstd::arithmetic::power2::lemma2_to64();
    }
}

/// The bits of the `i64` that 64 bits stand for are those bits.
pub proof fn lemma_bits_round_trip(v: nat)
    requires
        v < vstd::arithmetic::power2::pow2(64),
    ensures
        unsigned_bits(wrap_i64(v), 64) == v,
{
    vstd::arithmetic::power2::lemma2_to64_rest();
}

proof fn lemma_be_value_of_bytes(v: nat, n: nat)
    requires
        v < vstd::arithmetic::power2::pow2(8 * n),
    ensures
        be_value(be_bytes(v, n)) == v,
    decreases n,
{
    if n == 0 {
        vstd::arithmetic::power2::lemma2_to64();
    } else {
        vstd::arithmetic::power2::lemma_pow2_adds(8 * (n - 1) as nat, 8);
        vstd::arithmetic::power2::lemma2_to64();
        let p = vstd::arithmetic::power2::pow2(8 * (n - 1) as nat);
        assert(v / 256 < p) by (nonlinear_arith)
            requires
                v < p * 256,
        ;
        lemma_be_value_of_bytes(v / 256, (n - 1) as nat);
        let b = be_bytes(v, n);
        assert(b.drop_last() =~= be_bytes(v / 256, (n - 1) as nat));
        assert((v / 256) * 256 + v % 256 == v);
    }
}

/// The state in which a client sends this packet.
pub open spec fn sent_in(p: Packet) -> State {
    match p {
        Packet::Handshake { .. } => State::Listening,
        _ => State::Status,
    }
}

/// What a `ServerboundPackets` value can hold: fields in range, and a
/// handshake that asks for the status or the login phase.
pub open spec fn packet_wf(p: Packet) -> bool {
    match p {
        Packet::Handshake { protocol_ver, address, port, next_state } => i32::MIN <= protocol_ver
            <= i32::MAX && 0 <= port <= u16::MAX && next_state != State::Listening
            && encode_utf8(address).len() <= i32::MAX,
        Packet::StatusRequest => true,
        Packet::PingRequest { payload } => i64::MIN <= payload <= i64::MAX,
    }
}

proof fn lemma_port_bytes(port: int)
    requires
        0 <= port <= u16::MAX,
    ensures
        be_bytes(port as nat, 2).len() == 2,
        be_bytes(port as nat, 2)[0] * 256 + be_bytes(port as nat, 2)[1] == port,
{
    let hi = port as nat / 256;
    assert(be_bytes(hi, 1) =~= seq![(hi % 256) as u8]) by {
        assert(be_bytes(hi / 256, 0) =~= Seq::<u8>::empty());
    }
    assert(hi % 256 == hi);
}

proof fn lemma_handshake_layout(
    protocol_ver: int,
    address: Seq<char>,
    port: int,
    next_state: State,
)
    requires
        packet_wf(Packet::Handshake { protocol_ver, address, port, next_state }),
    ensures
        ({
            let rest = handshake_body(protocol_ver, address, port, next_state).skip(1);
            let a = encode_utf8(address);
            let n1 = varint_encoding(unsigned_bits(protocol_ver, 32)).len();
            let n2 = varint_encoding(a.len()).len();
            let s2 = rest.skip(n1 as int).skip(n2 as int);
            &&& decode_varint(rest) == Ok::<(int, nat), ProtocolError>((protocol_ver, n1))
            &&& decode_varint(rest.skip(n1 as int)) == Ok::<(int, nat), ProtocolError>(
                (a.len() as int, n2),
            )
            &&& s2 == a + be_bytes(port as nat, 2) + varint_encoding(state_code(next_state) as nat)
        }),
{
    vstd::arithmetic::power2::lemma2_to64();
    let a = encode_utf8(address);
    let bits = unsigned_bits(protocol_ver, 32);
    let e1 = varint_encoding(bits);
    let e2 = varint_encoding(a.len());
    let e3 = varint_encoding(state_code(next_state) as nat);
    let port_bytes = be_bytes(port as nat, 2);
    let rest = handshake_body(protocol_ver, address, port, next_state).skip(1);
    assert(varint_encoding(0) == seq![0u8]);
    assert(rest =~= e1 + (e2 + a + port_bytes + e3));
    lemma_varint_bits_round_trip(bits, e2 + a + port_bytes + e3);
    let s1 = rest.skip(e1.len() as int);
    assert(s1 =~= e2 + (a + port_bytes + e3));
    lemma_varint_bits_round_trip(a.len(), a + port_bytes + e3);
    assert(s1.skip(e2.len() as int) =~= a + port_bytes + e3);
}

proof fn lemma_handshake_round_trip(
    protocol_ver: int,
    address: Seq<char>,
    port: int,
    next_state: State,
)
    requires
        packet_wf(Packet::Handshake { protocol_ver, address, port, next_state }),
    ensures
        parse_handshake(handshake_body(protocol_ver, address, port, next_state).skip(1)) == Ok::<
            Packet,
            ProtocolError,
        >(Packet::Handshake { protocol_ver, address, port, next_state }),
{
    lemma_handshake_layout(protocol_ver, address, port, next_state);
    let a = encode_utf8(address);
    let code = state_code(next_state) as nat;
    let e3 = varint_encoding(code);
    let port_bytes = be_bytes(port as nat, 2);
    let rest = handshake_body(protocol_ver, address, port, next_state).skip(1);
    let n1 = varint_encoding(unsigned_bits(protocol_ver, 32)).len();
    let n2 = varint_encoding(a.len()).len();
    let s2 = rest.skip(n1 as int).skip(n2 as int);
    assert(s2.take(a.len() as int) =~= a);
    encode_utf8_valid_utf8(address);
    encode_utf8_decode_utf8(address);
    lemma_port_bytes(port);
    assert(s2[a.len() as int] == port_bytes[0]);
    assert(s2[a.len() as int + 1] == port_bytes[1]);
    let s4 = s2.skip(a.len() as int + 2);
    assert(s4 =~= e3 + Seq::<u8>::empty());
    lemma_varint_bits_round_trip(code, Seq::<u8>::empty());
    assert(e3 == seq![code as u8]);
}

/// Decoding reads back what encoding wrote: the body of every packet that a
/// client may send parses, in the state in which it is sent, to that packet.
pub proof fn lemma_packet_round_trip(p: Packet)
    requires
        packet_wf(p),
    ensures
        parse_packet(packet_body(p), sent_in(p)) == Ok::<Packet, ProtocolError>(p),
{
    vstd::arithmetic::power2::lemma2_to64();
    vstd::arithmetic::power2::lemma2_to64_rest();
    let body = packet_body(p);
    assert(varint_encoding(0) == seq![0u8]);
    assert(varint_encoding(1) == seq![1u8]);
    let rest = body.skip(1);
    assert(body =~= seq![body[0]] + rest);
    match p {
        Packet::Handshake { protocol_ver, address, port, next_state } => {
            lemma_varint_bits_round_trip(0, rest);
            lemma_handshake_round_trip(protocol_ver, address, port, next_state);
            let e1 = varint_encoding(unsigned_bits(protocol_ver, 32));
            crate::varint::lemma_encoding_shape(unsigned_bits(protocol_ver, 32));
            assert(rest.len() > 0);
        },
        Packet::StatusRequest => {
            assert(rest.len() == 0);
            lemma_varint_bits_round_trip(0, rest);
        },
        Packet::PingRequest { payload } => {
            let bits = unsigned_bits(payload, 64);
            lemma_varint_bits_round_trip(1, rest);
            assert(rest =~= be_bytes(bits, 8));
            lemma_be_bytes_len(bits, 8);
            lemma_be_value_of_bytes(bits, 8);
        },
    }
}

} // verus!
