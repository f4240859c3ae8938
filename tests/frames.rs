use web_rockets::message::{
    decode_frame, get_message_len, unmask_data, Message, MessageFactory,
    OPCODE_BINARY, OPCODE_CONTINUATION, OPCODE_PING, OPCODE_PONG, OPCODE_TEXT,
};

fn frame(opcode: u8, payload: Vec<u8>) -> Message {
    Message { opcode, is_final: true, was_masked: false, payload }
}

fn masked_frame(first: u8, payload: &[u8], key: [u8; 4]) -> Vec<u8> {
    assert!(payload.len() < 126);
    let mut out = vec![first, 128 | payload.len() as u8];
    out.extend_from_slice(&key);
    for (i, b) in payload.iter().enumerate() {
        out.push(b ^ key[i % 4]);
    }
    out
}

#[test]
fn unmask_exact_value() {
    assert_eq!(unmask_data(vec![1, 2, 3, 4, 5], [1, 1, 1, 1]), vec![0, 3, 2, 5, 4]);
    assert_eq!(unmask_data(vec![0, 0, 0, 0, 0, 0], [1, 2, 3, 4]), vec![1, 2, 3, 4, 1, 2]);
    assert_eq!(unmask_data(vec![], [9, 9, 9, 9]), Vec::<u8>::new());
}

#[test]
fn masking_twice_restores_payload() {
    let key = [0x37, 0xfa, 0x21, 0x3d];
    let payload: Vec<u8> = (0..=255u8).collect();
    let masked = unmask_data(payload.clone(), key);
    assert_ne!(masked, payload);
    assert_eq!(unmask_data(masked, key), payload);
}

#[test]
fn length_tiers_round_trip() {
    for (len, header) in [(10usize, 2usize), (200, 4), (70000, 10)] {
        let payload: Vec<u8> = (0..len).map(|i| (i % 251) as u8).collect();
        let bytes = frame(OPCODE_BINARY, payload.clone()).get_data().unwrap();
        assert_eq!(bytes.len(), header + len);
        assert_eq!(get_message_len(&bytes), Some((len as u64, header)));
        let (m, used) = decode_frame(&bytes).unwrap();
        assert_eq!(used, bytes.len());
        assert_eq!(m.opcode, OPCODE_BINARY);
        assert!(m.is_final());
        assert!(!m.was_masked());
        assert_eq!(m.payload(), &payload);
    }
}

#[test]
fn encode_exact_headers() {
    assert_eq!(frame(OPCODE_TEXT, b"Hi".to_vec()).get_data(), Ok(vec![0x81, 2, b'H', b'i']));
    let bytes = frame(OPCODE_BINARY, vec![7; 200]).get_data().unwrap();
    assert_eq!(&bytes[..4], &[0x82, 126, 0, 200]);
    let bytes = frame(OPCODE_BINARY, vec![7; 70000]).get_data().unwrap();
    assert_eq!(&bytes[..10], &[0x82, 127, 0, 0, 0, 0, 0, 1, 0x11, 0x70]);
    let bytes = frame(OPCODE_BINARY, vec![7; 125]).get_data().unwrap();
    assert_eq!(&bytes[..2], &[0x82, 125]);
    let bytes = frame(OPCODE_BINARY, vec![7; 65535]).get_data().unwrap();
    assert_eq!(&bytes[..4], &[0x82, 126, 0xff, 0xff]);
    let bytes = frame(OPCODE_BINARY, vec![7; 65536]).get_data().unwrap();
    assert_eq!(&bytes[..10], &[0x82, 127, 0, 0, 0, 0, 0, 1, 0, 0]);
}

#[test]
fn ping_and_pong_messages() {
    let fac = MessageFactory::new();
    assert_eq!(fac.create_ping_message().get_data(), Ok(vec![0x89, 0]));
    assert_eq!(fac.create_pong_message().get_data(), Ok(vec![0x8A, 0]));
    assert_eq!(fac.create_pong_message().opcode, OPCODE_PONG);
    assert_eq!(fac.create_ping_message().opcode, OPCODE_PING);
}

#[test]
fn short_headers_are_incomplete() {
    assert_eq!(get_message_len(&[]), None);
    assert_eq!(get_message_len(&[0x81]), None);
    assert_eq!(get_message_len(&[0x81, 126, 0]), None);
    assert_eq!(get_message_len(&[0x81, 127, 0, 0, 0, 0, 0, 0, 0]), None);
    assert_eq!(get_message_len(&[0x81, 0xfe, 1, 0]), Some((256, 4)));
    assert!(decode_frame(&[0x81, 5, b'a']).is_none());
}

#[test]
fn fragments_are_reassembled() {
    let mut fac = MessageFactory::new();
    let key = [1, 2, 3, 4];
    assert!(fac.parse(&masked_frame(OPCODE_TEXT, b"He", key), 5).is_none());
    assert!(fac.parse(&masked_frame(OPCODE_CONTINUATION, b"llo", key), 5).is_none());
    let m = fac.parse(&masked_frame(0x80 | OPCODE_CONTINUATION, b"!", key), 5).unwrap();
    assert_eq!(m.opcode, OPCODE_TEXT);
    assert!(m.is_final());
    assert_eq!(m.payload(), &b"Hello!".to_vec());
}

#[test]
fn fragments_of_two_connections_stay_apart() {
    let mut fac = MessageFactory::new();
    assert!(fac.parse(&[OPCODE_TEXT, 1, b'a'], 2).is_none());
    assert!(fac.parse(&[OPCODE_BINARY, 1, b'x'], 3).is_none());
    let m = fac.parse(&[0x80, 1, b'b'], 2).unwrap();
    assert_eq!((m.opcode, m.payload().clone()), (OPCODE_TEXT, b"ab".to_vec()));
    let m = fac.parse(&[0x80, 1, b'y'], 3).unwrap();
    assert_eq!((m.opcode, m.payload().clone()), (OPCODE_BINARY, b"xy".to_vec()));
}

#[test]
fn split_reads_are_buffered() {
    let mut fac = MessageFactory::new();
    let bytes = masked_frame(0x80 | OPCODE_BINARY, &[9u8; 14], [5, 6, 7, 8]);
    assert_eq!(bytes.len(), 20);
    assert!(fac.parse(&bytes[..3], 7).is_none());
    let m = fac.parse(&bytes[3..], 7).unwrap();
    assert_eq!(m.opcode, OPCODE_BINARY);
    assert!(m.was_masked());
    assert_eq!(m.payload(), &vec![9u8; 14]);
    assert!(fac.parse(&[], 7).is_none());
}

#[test]
fn bytes_after_a_frame_are_kept() {
    let mut fac = MessageFactory::new();
    let m = fac.parse(&[0x81, 1, b'a', 0x81, 1], 4).unwrap();
    assert_eq!(m.payload(), &b"a".to_vec());
    let m = fac.parse(&[b'b'], 4).unwrap();
    assert_eq!(m.payload(), &b"b".to_vec());
}

#[test]
fn dropped_client_loses_buffered_bytes() {
    let mut fac = MessageFactory::new();
    assert!(fac.parse(&[0x81, 3, b'a'], 4).is_none());
    fac.drop_client(4);
    let m = fac.parse(&[0x81, 1, b'z'], 4).unwrap();
    assert_eq!(m.payload(), &b"z".to_vec());
}

#[test]
fn merge_keeps_first_opcode() {
    let a = Message { opcode: OPCODE_TEXT, is_final: false, was_masked: true, payload: b"ab".to_vec() };
    let b = Message { opcode: OPCODE_CONTINUATION, is_final: true, was_masked: false, payload: b"c".to_vec() };
    let m = a.merge(b);
    assert_eq!(m.opcode, OPCODE_TEXT);
    assert!(m.is_final());
    assert!(m.was_masked());
    assert_eq!(m.payload(), &b"abc".to_vec());
}

#[test]
fn frame_over_cap_is_refused() {
    let mut fac = MessageFactory::new();
    assert_eq!(fac.parse_limited(&[0x81, 3, b'a'], 4, 100).map(|m| m.is_none()), Ok(true));
    assert_eq!(
        fac.parse_limited(&[0x82, 126, 0, 200], 5, 100).map(|m| m.is_some()),
        Err(web_rockets::message::FrameError::FrameTooLarge)
    );
    assert_eq!(
        fac.parse_limited(&[0x82, 0x80 | 96], 6, 100).map(|m| m.is_some()),
        Err(web_rockets::message::FrameError::FrameTooLarge)
    );
    let m = fac.parse_limited(&[b'b', b'c'], 4, 100).unwrap().unwrap();
    assert_eq!(m.payload(), &b"abc".to_vec());
    let m = fac.parse_limited(&[0x82, 0x80 | 94, 0, 0, 0, 0], 7, 100);
    assert!(matches!(m, Ok(None)));
}
