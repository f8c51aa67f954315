use idle_proxy::error::ProtocolError;
use idle_proxy::packet::{parse, pong_response, status_response, to_bytes, ServerboundPackets, State};

fn handshake_payload(next_state: u8) -> Vec<u8> {
    let mut p = vec![0x00, 0xfa, 0x05, 0x09];
    p.extend_from_slice(b"localhost");
    p.extend_from_slice(&[0x63, 0xdd, next_state]);
    p
}

#[test]
fn parse_handshake_fields() {
    match parse(&handshake_payload(1), State::Listening) {
        Ok(ServerboundPackets::Handshake { protocol_ver, address, port, next_state }) => {
            assert_eq!(protocol_ver, 762);
            assert_eq!(address, "localhost");
            assert_eq!(port, 25565);
            assert_eq!(next_state, State::Status);
        }
        other => panic!("unexpected {:?}", other),
    }
    match parse(&handshake_payload(2), State::Listening) {
        Ok(ServerboundPackets::Handshake { next_state, .. }) => assert_eq!(next_state, State::Login),
        other => panic!("unexpected {:?}", other),
    }
}

#[test]
fn parse_handshake_long_address() {
    let address = "a".repeat(300);
    let packet = ServerboundPackets::Handshake {
        protocol_ver: 763,
        address: address.clone(),
        port: 25575,
        next_state: State::Login,
    };
    let framed = to_bytes(&packet);
    // length header of 2 bytes, then id, two bytes of version, two of address length
    assert_eq!(&framed[3..7], &[0xfb, 0x05, 0xac, 0x02]);
    match parse(&framed[2..], State::Listening) {
        Ok(ServerboundPackets::Handshake { protocol_ver, address: a, port, next_state }) => {
            assert_eq!(protocol_ver, 763);
            assert_eq!(a, address);
            assert_eq!(port, 25575);
            assert_eq!(next_state, State::Login);
        }
        other => panic!("unexpected {:?}", other),
    }
}

#[test]
fn to_bytes_handshake_exact() {
    let packet = ServerboundPackets::Handshake {
        protocol_ver: 762,
        address: "localhost".to_string(),
        port: 25565,
        next_state: State::Status,
    };
    let mut expected = vec![0x10];
    expected.extend_from_slice(&handshake_payload(1));
    assert_eq!(to_bytes(&packet), expected);
}

#[test]
fn to_bytes_status_request_and_ping() {
    assert_eq!(to_bytes(&ServerboundPackets::StatusRequest), vec![0x01, 0x00]);
    assert_eq!(
        to_bytes(&ServerboundPackets::PingRequest { payload: 42 }),
        vec![0x09, 0x01, 0, 0, 0, 0, 0, 0, 0, 42]
    );
    assert_eq!(
        to_bytes(&ServerboundPackets::PingRequest { payload: -2 }),
        vec![0x09, 0x01, 0xff, 0xff, 0xff, 0xff, 0xff, 0xff, 0xff, 0xfe]
    );
}

#[test]
fn parse_status_request() {
    assert!(matches!(parse(&[0x00], State::Listening), Ok(ServerboundPackets::StatusRequest)));
    assert!(matches!(parse(&[0x00], State::Status), Ok(ServerboundPackets::StatusRequest)));
}

#[test]
fn parse_ping_payload() {
    let p = [0x01, 0x12, 0x34, 0x56, 0x78, 0x9a, 0xbc, 0xde, 0xf0];
    match parse(&p, State::Status) {
        Ok(ServerboundPackets::PingRequest { payload }) => assert_eq!(payload, 0x123456789abcdef0),
        other => panic!("unexpected {:?}", other),
    }
    let n = [0x01, 0xff, 0xff, 0xff, 0xff, 0xff, 0xff, 0xff, 0xff];
    assert!(matches!(parse(&n, State::Status), Ok(ServerboundPackets::PingRequest { payload: -1 })));
}

#[test]
fn parse_errors() {
    assert_eq!(parse(&[], State::Listening).unwrap_err(), ProtocolError::MalformedVarint);
    assert_eq!(parse(&[0x01, 0, 0, 0, 42], State::Status).unwrap_err(), ProtocolError::TruncatedFrame);
    assert_eq!(
        parse(&[0x01, 0, 0, 0, 0, 0, 0, 0, 42, 7], State::Status).unwrap_err(),
        ProtocolError::TrailingBytes
    );
    assert_eq!(parse(&[0x00, 0x05], State::Status).unwrap_err(), ProtocolError::TrailingBytes);
    assert_eq!(parse(&[0x02], State::Status).unwrap_err(), ProtocolError::UnsupportedPacket);
    assert_eq!(parse(&[0x7f], State::Listening).unwrap_err(), ProtocolError::UnsupportedPacket);
    assert_eq!(parse(&handshake_payload(3), State::Listening).unwrap_err(), ProtocolError::InvalidState);
    let mut trailing = handshake_payload(1);
    trailing.push(0);
    assert_eq!(parse(&trailing, State::Listening).unwrap_err(), ProtocolError::TrailingBytes);
    assert_eq!(
        parse(&[0x00, 0xfa, 0x05, 0x09, b'l', b'o'], State::Listening).unwrap_err(),
        ProtocolError::TruncatedFrame
    );
    assert_eq!(
        parse(&[0x00, 0xfa, 0x05, 0x02, 0xff, 0xfe, 0x63, 0xdd, 0x01], State::Listening).unwrap_err(),
        ProtocolError::MalformedString
    );
    assert_eq!(
        parse(&[0x00, 0xfa, 0x05, 0x01, b'a', 0x63], State::Listening).unwrap_err(),
        ProtocolError::TruncatedFrame
    );
}

#[test]
fn parse_ping_outside_status_is_wrong_state() {
    let p = [0x01, 0, 0, 0, 0, 0, 0, 0, 42];
    assert_eq!(parse(&p, State::Listening).unwrap_err(), ProtocolError::WrongState);
    assert_eq!(parse(&p, State::Login).unwrap_err(), ProtocolError::WrongState);
    assert_eq!(parse(&[0x00], State::Login).unwrap_err(), ProtocolError::WrongState);
}

#[test]
fn pong_response_bytes() {
    assert_eq!(pong_response(42), vec![0x09, 0x01, 0, 0, 0, 0, 0, 0, 0, 42]);
    assert_eq!(pong_response(i64::MIN), vec![0x09, 0x01, 0x80, 0, 0, 0, 0, 0, 0, 0]);
}

#[test]
fn status_response_bytes() {
    let json = "{\"a\":1}";
    assert_eq!(
        status_response(json),
        vec![0x09, 0x00, 0x07, b'{', b'"', b'a', b'"', b':', b'1', b'}']
    );
}

#[test]
fn state_codes() {
    assert_eq!(u8::from(State::Listening), 0);
    assert_eq!(u8::from(State::Status), 1);
    assert_eq!(u8::from(State::Login), 2);
}
