use server::driver::{ConnectionError, Frame, FrameKind};
use server::wire::{encode_packet, DecodeError, Field, Packet, WireValue};
use server::Server;

fn sample_packet(v: u64) -> Packet {
    Packet { fields: vec![Field { number: 1, value: WireValue::Varint(v) }] }
}

#[test]
fn empty_close_returns_success() {
    let (dispatched, result) = Server::new().accept_connection(Ok(vec![]));
    assert_eq!(dispatched, Vec::<Packet>::new());
    assert_eq!(result, Ok(()));
}

#[test]
fn happy_path_dispatches_default_packet() {
    let bytes = encode_packet(&Packet::default());
    let (dispatched, result) = Server::new().accept_connection(Ok(vec![Frame::Binary(bytes)]));
    assert_eq!(dispatched, vec![Packet::default()]);
    assert_eq!(result, Ok(()));
}

#[test]
fn two_packets_arrive_in_order() {
    let p1 = sample_packet(1);
    let p2 = sample_packet(2);
    assert_ne!(p1, p2);
    let frames = vec![
        Frame::Binary(encode_packet(&p1)),
        Frame::Binary(encode_packet(&p2)),
    ];
    let (dispatched, result) = Server::new().accept_connection(Ok(frames));
    assert_eq!(dispatched, vec![p1, p2]);
    assert_eq!(result, Ok(()));
}

#[test]
fn unexpected_text_terminates() {
    let (dispatched, result) = Server::new().accept_connection(Ok(vec![Frame::Other(
        FrameKind::Text,
    )]));
    assert_eq!(dispatched, Vec::<Packet>::new());
    assert_eq!(result, Err(ConnectionError::UnexpectedMessage(FrameKind::Text)));
}

#[test]
fn corrupt_binary_terminates_with_decode_failed() {
    let frames = vec![Frame::Binary(vec![0xFF, 0xFF, 0xFF, 0xFF])];
    let (dispatched, result) = Server::new().accept_connection(Ok(frames));
    assert_eq!(dispatched, Vec::<Packet>::new());
    assert_eq!(result, Err(ConnectionError::DecodeFailed(DecodeError::Truncated)));
}

#[test]
fn bad_handshake_terminates() {
    let (dispatched, result) = Server::new().accept_connection(Err("invalid upgrade".to_string()));
    assert_eq!(dispatched, Vec::<Packet>::new());
    assert_eq!(
        result,
        Err(ConnectionError::HandshakeFailed("invalid upgrade".to_string()))
    );
}

#[test]
fn transport_drop_after_valid_frame() {
    let p = sample_packet(7);
    let frames = vec![
        Frame::Binary(encode_packet(&p)),
        Frame::TransportError("connection reset".to_string()),
    ];
    let (dispatched, result) = Server::new().accept_connection(Ok(frames));
    assert_eq!(dispatched, vec![p]);
    assert_eq!(
        result,
        Err(ConnectionError::TransportError("connection reset".to_string()))
    );
}

#[test]
fn frames_after_fatal_one_are_not_dispatched() {
    let p = sample_packet(7);
    let frames = vec![
        Frame::Other(FrameKind::Ping),
        Frame::Binary(encode_packet(&p)),
    ];
    let (dispatched, result) = Server::new().accept_connection(Ok(frames));
    assert_eq!(dispatched, Vec::<Packet>::new());
    assert_eq!(result, Err(ConnectionError::UnexpectedMessage(FrameKind::Ping)));
}

#[test]
fn handle_frame_decodes_binary() {
    let server = Server::new();
    let p = sample_packet(3);
    assert_eq!(server.handle_frame(&Frame::Binary(encode_packet(&p))), Ok(p));
}

#[test]
fn handle_frame_rejects_close() {
    let server = Server::new();
    assert_eq!(
        server.handle_frame(&Frame::Other(FrameKind::Close)),
        Err(ConnectionError::UnexpectedMessage(FrameKind::Close))
    );
}

#[test]
fn handle_frame_reports_transport_error() {
    let server = Server::new();
    assert_eq!(
        server.handle_frame(&Frame::TransportError("broken pipe".to_string())),
        Err(ConnectionError::TransportError("broken pipe".to_string()))
    );
}
