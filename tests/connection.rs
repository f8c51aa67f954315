use idle_proxy::connection::{Action, Connection};
use idle_proxy::error::ProtocolError;
use idle_proxy::framer::Framer;
use idle_proxy::idle::IdleState;
use idle_proxy::packet::{status_response, to_bytes, ServerboundPackets, State};

fn handshake(next_state: State) -> Vec<u8> {
    to_bytes(&ServerboundPackets::Handshake {
        protocol_ver: 762,
        address: "localhost".to_string(),
        port: 25565,
        next_state,
    })
}

/// Feeds the wire bytes to a framer and hands each frame to the connection.
fn feed(conn: &mut Connection, framer: &mut Framer, wire: &[u8]) -> Vec<Result<Action, ProtocolError>> {
    framer.push(wire);
    let mut out = Vec::new();
    while let Ok(Some(frame)) = framer.next_frame() {
        out.push(conn.handle_frame(&frame.payload));
    }
    out
}

#[test]
fn status_scenario_replies_with_status_json() {
    let mut conn = Connection::new();
    let mut framer = Framer::new();
    let mut wire = handshake(State::Status);
    wire.extend(to_bytes(&ServerboundPackets::StatusRequest));
    let actions = feed(&mut conn, &mut framer, &wire);
    assert_eq!(actions.len(), 2);
    assert!(matches!(actions[0], Ok(Action::Nothing)));
    assert!(matches!(actions[1], Ok(Action::SendStatus)));
    assert_eq!(conn.state, State::Status);

    let mut version = serde_json::Map::new();
    version.insert("name".to_string(), serde_json::Value::from("1.19.4"));
    version.insert("protocol".to_string(), serde_json::Value::from(762));
    let mut root = serde_json::Map::new();
    root.insert("version".to_string(), serde_json::Value::Object(version));
    let json = serde_json::Value::Object(root).to_string();

    let reply = status_response(&json);
    let mut client = Framer::new();
    client.push(&reply);
    let frame = match client.next_frame() {
        Ok(Some(frame)) => frame,
        _ => panic!("the reply is one whole frame"),
    };
    assert_eq!(frame.payload[0], 0x00);
    let (len, used) = idle_proxy::varint::read_varint(&frame.payload, 1).unwrap();
    let text = &frame.payload[1 + used..];
    assert_eq!(len as usize, text.len());
    let parsed: serde_json::Value = serde_json::from_slice(text).unwrap();
    assert_eq!(parsed["version"]["protocol"], serde_json::Value::from(762));
}

#[test]
fn ping_scenario_echoes_payload() {
    let mut conn = Connection::new();
    let mut framer = Framer::new();
    let mut wire = handshake(State::Status);
    wire.extend(to_bytes(&ServerboundPackets::PingRequest { payload: 42 }));
    let actions = feed(&mut conn, &mut framer, &wire);
    assert_eq!(actions.len(), 2);
    match &actions[1] {
        Ok(Action::Reply(bytes)) => assert_eq!(bytes, &vec![0x09, 0x01, 0, 0, 0, 0, 0, 0, 0, 42]),
        _ => panic!("a ping is answered with a pong"),
    }
}

#[test]
fn login_scenario_tunnels_exact_handshake() {
    let mut conn = Connection::new();
    let mut framer = Framer::new();
    let wire = handshake(State::Login);
    framer.push(&wire);
    let frame = match framer.next_frame() {
        Ok(Some(frame)) => frame,
        _ => panic!("one whole frame"),
    };
    assert!(matches!(conn.handle_frame(&frame.payload), Ok(Action::Tunnel)));
    assert_eq!(conn.state, State::Login);
    let mut forwarded = frame.header.clone();
    forwarded.extend_from_slice(&frame.payload);
    assert_eq!(forwarded, wire);

    let mut idle = IdleState::new();
    idle.session_start();
    assert_eq!(idle.active_count(), 1);
    idle.session_end(1000, 600);
    assert_eq!(idle.active_count(), 0);
    assert_eq!(idle.pending_deadline(), Some(1600));

    // once tunneled, nothing more is decoded locally
    assert_eq!(conn.handle_frame(&[0x00]).err(), Some(ProtocolError::WrongState));
}

#[test]
fn ping_before_handshake_closes_only_that_connection() {
    let mut bad = Connection::new();
    let mut good = Connection::new();
    let mut good_framer = Framer::new();
    let ping = [0x01, 0, 0, 0, 0, 0, 0, 0, 42];
    assert_eq!(bad.handle_frame(&ping).err(), Some(ProtocolError::WrongState));
    assert_eq!(bad.state, State::Listening);

    let mut wire = handshake(State::Status);
    wire.extend(to_bytes(&ServerboundPackets::PingRequest { payload: 7 }));
    let actions = feed(&mut good, &mut good_framer, &wire);
    assert!(matches!(actions[1], Ok(Action::Reply(_))));
}

#[test]
fn ping_after_login_is_wrong_state() {
    let mut conn = Connection::new();
    let payload = handshake(State::Login);
    assert!(matches!(conn.handle_frame(&payload[1..]), Ok(Action::Tunnel)));
    let ping = [0x01, 0, 0, 0, 0, 0, 0, 0, 42];
    assert_eq!(conn.handle_frame(&ping).err(), Some(ProtocolError::WrongState));
    assert_eq!(conn.state, State::Login);
}

#[test]
fn status_request_before_handshake_is_wrong_state() {
    let mut conn = Connection::new();
    assert_eq!(conn.handle_frame(&[0x00]).err(), Some(ProtocolError::WrongState));
}

#[test]
fn second_handshake_is_rejected() {
    let mut conn = Connection::new();
    let payload = handshake(State::Status);
    assert!(matches!(conn.handle_frame(&payload[1..]), Ok(Action::Nothing)));
    assert_eq!(conn.handle_frame(&payload[1..]).err(), Some(ProtocolError::TrailingBytes));
    assert_eq!(conn.state, State::Status);
}
