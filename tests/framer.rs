use idle_proxy::error::ProtocolError;
use idle_proxy::framer::{write_frame, Framer};

#[test]
fn frame_split_across_reads_is_reassembled() {
    let payload: Vec<u8> = (0..200u32).map(|i| i as u8).collect();
    let mut wire = Vec::new();
    write_frame(&mut wire, &payload);
    assert_eq!(&wire[..2], &[0xc8, 0x01]);

    let mut framer = Framer::new();
    for piece in [&wire[..1], &wire[1..2], &wire[2..50], &wire[50..199]] {
        framer.push(piece);
        assert!(matches!(framer.next_frame(), Ok(None)));
    }
    framer.push(&wire[199..]);
    match framer.next_frame() {
        Ok(Some(frame)) => {
            assert_eq!(frame.header, vec![0xc8, 0x01]);
            assert_eq!(frame.payload, payload);
        }
        _ => panic!("expected a whole frame"),
    }
    assert!(matches!(framer.next_frame(), Ok(None)));
    assert_eq!(framer.end_of_stream(), ProtocolError::ConnectionClosed);
}

#[test]
fn two_frames_in_one_read() {
    let mut framer = Framer::new();
    framer.push(&[0x01, 0x00, 0x02, 0x07, 0x08, 0x03]);
    match framer.next_frame() {
        Ok(Some(frame)) => assert_eq!(frame.payload, vec![0x00]),
        _ => panic!("expected the first frame"),
    }
    match framer.next_frame() {
        Ok(Some(frame)) => assert_eq!(frame.payload, vec![0x07, 0x08]),
        _ => panic!("expected the second frame"),
    }
    assert!(matches!(framer.next_frame(), Ok(None)));
    assert_eq!(framer.end_of_stream(), ProtocolError::TruncatedFrame);
}

#[test]
fn truncated_frame_at_end_of_stream() {
    let mut framer = Framer::new();
    framer.push(&[0xc8, 0x01]);
    framer.push(&[0x11; 50]);
    assert!(matches!(framer.next_frame(), Ok(None)));
    assert_eq!(framer.end_of_stream(), ProtocolError::TruncatedFrame);
}

#[test]
fn header_cut_short_at_end_of_stream() {
    let mut framer = Framer::new();
    framer.push(&[0x80]);
    assert!(matches!(framer.next_frame(), Ok(None)));
    assert_eq!(framer.end_of_stream(), ProtocolError::MalformedVarint);
}

#[test]
fn zero_length_frame_closes() {
    let mut framer = Framer::new();
    framer.push(&[0x00, 0x01, 0x00]);
    assert!(matches!(framer.next_frame(), Err(ProtocolError::ConnectionClosed)));
    match framer.next_frame() {
        Ok(Some(frame)) => assert_eq!(frame.payload, vec![0x00]),
        _ => panic!("the bytes after the empty frame stay buffered"),
    }
}

#[test]
fn overlong_length_header_is_malformed() {
    let mut framer = Framer::new();
    framer.push(&[0x80, 0x80, 0x80, 0x80, 0x80, 0x01]);
    assert!(matches!(framer.next_frame(), Err(ProtocolError::MalformedVarint)));
}

#[test]
fn negative_length_header_is_malformed() {
    let mut framer = Framer::new();
    framer.push(&[0xff, 0xff, 0xff, 0xff, 0x0f]);
    assert!(matches!(framer.next_frame(), Err(ProtocolError::MalformedVarint)));
}

#[test]
fn buffered_bytes_are_handed_out_whole() {
    let mut framer = Framer::new();
    framer.push(&[0x02, 0x00, 0x01, 0x05, 0xaa]);
    match framer.next_frame() {
        Ok(Some(frame)) => assert_eq!(frame.payload, vec![0x00, 0x01]),
        _ => panic!("expected a whole frame"),
    }
    assert_eq!(framer.take_buffered(), vec![0x05, 0xaa]);
    assert_eq!(framer.end_of_stream(), ProtocolError::ConnectionClosed);
}
