use web_rockets::message::{OPCODE_BINARY, OPCODE_TEXT};
use web_rockets::server::{ReadAction, WebSocketServer, SERVER_TOKEN};
use web_rockets::handshake::HandshakeError;
use web_rockets::user_message::Message;

const REQUEST: &str = "GET / HTTP/1.1\r\nUpgrade: websocket\r\nSec-WebSocket-Key: x3JJHMbDL1EzLkh9GBhXDw==\r\n\r\n";

fn active_server() -> (WebSocketServer, usize) {
    let mut server = WebSocketServer::new();
    let token = server.register_client().unwrap();
    match server.read_client_data(token, REQUEST.as_bytes()) {
        ReadAction::SendHandshake(resp) => {
            assert!(resp.ends_with("Sec-WebSocket-Accept: HSmrc0sMlYUkAGmm5OPpG2HaGWk=\r\n\r\n"))
        }
        _ => panic!("handshake expected"),
    }
    (server, token)
}

#[test]
fn tokens_are_fresh_and_increasing() {
    let mut server = WebSocketServer::new();
    let a = server.register_client().unwrap();
    let b = server.register_client().unwrap();
    assert_eq!((a, b), (2, 3));
    assert!(a != SERVER_TOKEN && b != SERVER_TOKEN);
    assert_eq!(server.client_state(a), Some(false));
    assert_eq!(server.client_state(b), Some(false));
    assert!(server.disconnect_client(a));
    assert_eq!(server.register_client(), Some(4));
}

#[test]
fn handshake_activates_connection() {
    let (server, token) = active_server();
    assert_eq!(server.client_state(token), Some(true));
}

#[test]
fn failed_handshake_removes_connection() {
    let mut server = WebSocketServer::new();
    let token = server.register_client().unwrap();
    match server.read_client_data(token, b"GET / HTTP/1.1\r\n\r\n") {
        ReadAction::HandshakeFailed(e) => assert_eq!(e, HandshakeError::InvalidUpgrade),
        _ => panic!("refusal expected"),
    }
    assert_eq!(server.client_state(token), None);
    assert!(!server.disconnect_client(token));
}

#[test]
fn unknown_token_is_ignored() {
    let mut server = WebSocketServer::new();
    assert!(matches!(server.read_client_data(9, b"abc"), ReadAction::Ignored));
}

#[test]
fn ping_is_answered_with_pong() {
    let (mut server, token) = active_server();
    match server.read_client_data(token, &[0x89, 0x80, 1, 2, 3, 4]) {
        ReadAction::SendPong(bytes) => assert_eq!(bytes, vec![0x8A, 0]),
        _ => panic!("pong expected"),
    }
    assert_eq!(server.client_state(token), Some(true));
}

#[test]
fn close_removes_connection_once() {
    let (mut server, token) = active_server();
    assert!(matches!(server.read_client_data(token, &[0x88, 0]), ReadAction::Close));
    assert_eq!(server.client_state(token), None);
    assert!(!server.disconnect_client(token));
    assert!(matches!(server.read_client_data(token, &[0x81, 0]), ReadAction::Ignored));
}

#[test]
fn teardown_twice_is_a_no_op() {
    let (mut server, token) = active_server();
    assert!(server.disconnect_client(token));
    assert!(!server.disconnect_client(token));
    assert_eq!(server.client_state(token), None);
}

#[test]
fn text_message_is_delivered() {
    let (mut server, token) = active_server();
    assert!(matches!(server.read_client_data(token, &[0x01, 0x82, 0, 0, 0, 0, b'H', b'e']), ReadAction::Pending));
    match server.read_client_data(token, &[0x80, 0x84, 0, 0, 0, 0, b'l', b'l', b'o', b'!']) {
        ReadAction::Deliver(m) => {
            assert!(m.is_text());
            assert!(!m.is_binary());
            assert_eq!(m.data, b"Hello!".to_vec());
        }
        _ => panic!("message expected"),
    }
}

#[test]
fn split_frame_is_pending_then_delivered() {
    let (mut server, token) = active_server();
    let bytes = [0x82, 0x8e, 1, 1, 1, 1, 0, 0, 0, 0, 0, 0, 0, 0, 0, 0, 0, 0, 0, 0];
    assert!(matches!(server.read_client_data(token, &bytes[..3]), ReadAction::Pending));
    match server.read_client_data(token, &bytes[3..]) {
        ReadAction::Deliver(m) => {
            assert_eq!(m.message_type(), OPCODE_BINARY);
            assert_eq!(m.data, vec![1u8; 14]);
        }
        _ => panic!("message expected"),
    }
}

#[test]
fn reply_is_a_text_frame() {
    let m = Message::new(b"hi".to_vec(), OPCODE_TEXT);
    assert_eq!(m.reply("Hello my friend!".to_string()), Ok({
        let mut v = vec![0x81, 16];
        v.extend_from_slice(b"Hello my friend!");
        v
    }));
}

#[test]
fn oversized_frame_fails_connection() {
    let mut server = WebSocketServer::with_max_frame_len(64);
    let token = server.register_client().unwrap();
    assert!(matches!(server.read_client_data(token, REQUEST.as_bytes()), ReadAction::SendHandshake(_)));
    assert!(matches!(server.read_client_data(token, &[0x82, 126, 1, 0]), ReadAction::FrameTooLarge));
    assert_eq!(server.client_state(token), None);
    assert!(!server.disconnect_client(token));
}

#[test]
fn second_frame_of_one_read_waits_in_buffer() {
    let (mut server, token) = active_server();
    match server.read_client_data(token, &[0x81, 1, b'a', 0x82, 1, b'b']) {
        ReadAction::Deliver(m) => assert_eq!(m.data, b"a".to_vec()),
        _ => panic!("message expected"),
    }
    match server.read_client_data(token, &[]) {
        ReadAction::Deliver(m) => {
            assert_eq!(m.message_type(), OPCODE_BINARY);
            assert_eq!(m.data, b"b".to_vec());
        }
        _ => panic!("message expected"),
    }
    assert!(matches!(server.read_client_data(token, &[]), ReadAction::Pending));
}
