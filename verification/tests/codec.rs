use wsroom::frame::{Frame, FrameReadState, FrameReader, Opcode, ProtocolError};
use wsroom::message::{
    encode_message, FeedResult, Message, MessageAssembler, MessageType, should_publish,
};

fn fresh_frame() -> Frame {
    Frame::new()
}

fn masked_frame(fin: bool, opcode: Opcode, key: [u8; 4], payload: &[u8]) -> Frame {
    let mut f = Frame::new();
    f.fin = fin;
    f.opcode = opcode;
    f.mask = true;
    f.payload_len = payload.len() as u64;
    f.masking_key = key.to_vec();
    f.payload = payload.to_vec();
    f
}

fn parse_all(bytes: &[u8]) -> Result<Frame, ProtocolError> {
    let mut f = Frame::new();
    let (consumed, want) = f.read(bytes)?;
    assert_eq!(consumed, bytes.len());
    assert_eq!(want, 0);
    Ok(f)
}

#[test]
fn opcode_numbers_round_trip() {
    let ops = [
        (Opcode::Continuation, 0u8),
        (Opcode::Text, 1),
        (Opcode::Binary, 2),
        (Opcode::Close, 8),
        (Opcode::Ping, 9),
        (Opcode::Pong, 10),
    ];
    for (op, num) in ops {
        assert_eq!(op.as_num(), num);
        assert_eq!(Opcode::from_num(num), Ok(op));
    }
    assert_eq!(Opcode::from_num(3), Err(ProtocolError::BadOpcode));
    assert_eq!(Opcode::from_num(11), Err(ProtocolError::BadOpcode));
}

#[test]
fn masking_is_self_inverse_on_the_wire() {
    // The wire payload of a masked frame is the XOR of payload and key;
    // parsing XORs again, so the payload comes back unchanged.
    let payload = b"mask me twice".to_vec();
    let key = [0x37u8, 0xfa, 0x21, 0x3d];
    let f = masked_frame(true, Opcode::Binary, key, &payload);
    let bytes = f.to_bytes();
    // Check the wire form really is XORed, not the raw payload.
    let wire_payload = &bytes[bytes.len() - payload.len()..];
    assert_ne!(wire_payload, payload.as_slice());
    for (i, b) in wire_payload.iter().enumerate() {
        assert_eq!(*b, payload[i] ^ key[i % 4]);
    }
    let parsed = parse_all(&bytes).unwrap();
    assert_eq!(parsed.payload, payload);
}

#[test]
fn single_frame_round_trip() {
    let f = masked_frame(true, Opcode::Text, [1, 2, 3, 4], b"hello websocket");
    let bytes = f.to_bytes();
    let parsed = parse_all(&bytes).unwrap();
    assert!(matches!(parsed.state, FrameReadState::Done));
    assert!(parsed.fin);
    assert_eq!(parsed.opcode, Opcode::Text);
    assert!(parsed.mask);
    assert_eq!(parsed.payload_len, 15);
    assert_eq!(parsed.masking_key, vec![1, 2, 3, 4]);
    assert_eq!(parsed.payload, b"hello websocket".to_vec());
}

#[test]
fn round_trip_survives_single_byte_chunks() {
    let f = masked_frame(true, Opcode::Binary, [9, 8, 7, 6], b"dripped one byte at a time");
    let bytes = f.to_bytes();
    let mut parser = fresh_frame();
    let mut buffered: Vec<u8> = Vec::new();
    for b in &bytes {
        buffered.push(*b);
        let (consumed, _want) = parser.read(&buffered).unwrap();
        buffered.drain(..consumed);
    }
    assert!(buffered.is_empty());
    assert!(matches!(parser.state, FrameReadState::Done));
    assert_eq!(parser.payload, b"dripped one byte at a time".to_vec());
}

#[test]
fn length_regime_boundaries_round_trip() {
    // (length, second header byte's low 7 bits, header length before key)
    let cases = [
        (125usize, 125u8, 2usize),
        (126, 126, 4),
        (65535, 126, 4),
        (65536, 127, 10),
    ];
    for (len, code, header) in cases {
        let payload = vec![0xABu8; len];
        let f = masked_frame(true, Opcode::Binary, [5, 6, 7, 8], &payload);
        assert_eq!(f.write_len(), header + 4 + len);
        let bytes = f.to_bytes();
        assert_eq!(bytes.len(), header + 4 + len);
        assert_eq!(bytes[1] & 0x7F, code);
        let parsed = parse_all(&bytes).unwrap();
        assert_eq!(parsed.payload_len, len as u64);
        assert_eq!(parsed.payload.len(), len);
        assert_eq!(parsed.payload, payload);
    }
}

#[test]
fn payload_size_picks_the_regime() {
    assert_eq!(Frame::payload_size(0), 0);
    assert_eq!(Frame::payload_size(125), 0);
    assert_eq!(Frame::payload_size(126), 2);
    assert_eq!(Frame::payload_size(65535), 2);
    assert_eq!(Frame::payload_size(65536), 8);
    assert_eq!(Frame::payload_size(u64::MAX), 8);
}

#[test]
fn write_into_buffer_leaves_tail_untouched() {
    let f = masked_frame(true, Opcode::Text, [1, 1, 1, 1], b"abc");
    let need = f.write_len();
    let mut buf = vec![0xEEu8; need + 3];
    let n = f.write(&mut buf);
    assert_eq!(n, need);
    assert_eq!(&buf[..n], f.to_bytes().as_slice());
    assert_eq!(&buf[n..], &[0xEE, 0xEE, 0xEE]);
}

#[test]
fn reserved_bits_are_rejected() {
    let f = masked_frame(true, Opcode::Text, [0, 0, 0, 0], b"x");
    let mut bytes = f.to_bytes();
    bytes[0] |= 0x40;
    let mut parser = fresh_frame();
    assert_eq!(parser.read(&bytes), Err(ProtocolError::ReservedBits));
}

#[test]
fn unmasked_inbound_frame_is_rejected() {
    let mut f = masked_frame(true, Opcode::Text, [0, 0, 0, 0], b"x");
    f.mask = false;
    let bytes = f.to_bytes();
    let mut parser = fresh_frame();
    assert_eq!(parser.read(&bytes), Err(ProtocolError::Unmasked));
}

#[test]
fn unknown_opcode_is_rejected() {
    let f = masked_frame(true, Opcode::Text, [0, 0, 0, 0], b"x");
    let mut bytes = f.to_bytes();
    bytes[0] = (bytes[0] & 0xF0) | 0x05;
    let mut parser = fresh_frame();
    assert_eq!(parser.read(&bytes), Err(ProtocolError::BadOpcode));
}

#[test]
fn parser_reports_bytes_still_wanted() {
    let f = masked_frame(true, Opcode::Binary, [1, 2, 3, 4], &[0x55u8; 300]);
    let bytes = f.to_bytes();
    let mut parser = fresh_frame();
    // Header byte pair alone: the 16-bit extension is wanted next.
    let (consumed, want) = parser.read(&bytes[..2]).unwrap();
    assert_eq!(consumed, 2);
    assert_eq!(want, 2);
    // Extension and key: the payload is wanted next.
    let (consumed, want) = parser.read(&bytes[2..8]).unwrap();
    assert_eq!(consumed, 6);
    assert_eq!(want, 300);
    let (consumed, want) = parser.read(&bytes[8..]).unwrap();
    assert_eq!(consumed, 300);
    assert_eq!(want, 0);
    assert_eq!(parser.payload, vec![0x55u8; 300]);
}

#[test]
fn fragmented_message_reassembles_like_a_single_frame() {
    let mut assembler = MessageAssembler::new();
    assert!(matches!(assembler.feed(false, Opcode::Text, b"one "), Ok(FeedResult::More)));
    assert!(matches!(assembler.feed(false, Opcode::Continuation, b"two "), Ok(FeedResult::More)));
    let done = assembler.feed(true, Opcode::Continuation, b"three").unwrap();
    let fragmented = match done {
        FeedResult::Complete(m) => m,
        _ => panic!("expected a complete message"),
    };
    let mut single = MessageAssembler::new();
    let whole = match single.feed(true, Opcode::Text, b"one two three").unwrap() {
        FeedResult::Complete(m) => m,
        _ => panic!("expected a complete message"),
    };
    assert_eq!(fragmented.data, whole.data);
    assert_eq!(fragmented.kind, whole.kind);
    assert_eq!(fragmented.data, b"one two three".to_vec());
    assert!(matches!(fragmented.kind, MessageType::Text));
}

#[test]
fn inconsistent_continuation_is_rejected() {
    let mut assembler = MessageAssembler::new();
    assert!(matches!(assembler.feed(false, Opcode::Text, b"first"), Ok(FeedResult::More)));
    assert!(matches!(
        assembler.feed(false, Opcode::Binary, b"second"),
        Err(ProtocolError::InconsistentOpcode)
    ));
}

#[test]
fn message_without_opcode_is_rejected() {
    let mut assembler = MessageAssembler::new();
    assert!(matches!(
        assembler.feed(true, Opcode::Continuation, b"orphan"),
        Err(ProtocolError::MissingOpcode)
    ));
}

#[test]
fn close_frame_yields_no_message() {
    let mut assembler = MessageAssembler::new();
    assert!(matches!(assembler.feed(true, Opcode::Close, b""), Ok(FeedResult::Closed)));
}

#[test]
fn assembler_resets_after_each_message() {
    let mut assembler = MessageAssembler::new();
    let first = match assembler.feed(true, Opcode::Ping, b"a").unwrap() {
        FeedResult::Complete(m) => m,
        _ => panic!("expected a complete message"),
    };
    assert_eq!(first.data, b"a".to_vec());
    let second = match assembler.feed(true, Opcode::Binary, b"b").unwrap() {
        FeedResult::Complete(m) => m,
        _ => panic!("expected a complete message"),
    };
    assert_eq!(second.data, b"b".to_vec());
    assert!(matches!(second.kind, MessageType::Binary));
}

#[test]
fn server_encoding_is_unmasked_single_frame() {
    let msg = Message { data: b"reply".to_vec(), kind: MessageType::Text };
    let bytes = encode_message(&msg);
    assert_eq!(bytes[0], 0x80 | 1); // fin set, Text opcode
    assert_eq!(bytes[1], 5); // mask clear, literal length
    assert_eq!(&bytes[2..], b"reply");
}

#[test]
fn only_data_messages_are_republished() {
    assert!(should_publish(&MessageType::Text));
    assert!(should_publish(&MessageType::Binary));
    assert!(!should_publish(&MessageType::Ping));
    assert!(!should_publish(&MessageType::Pong));
}

#[test]
fn frame_reader_hands_out_back_to_back_frames() {
    let first = masked_frame(true, Opcode::Text, [1, 2, 3, 4], b"first");
    let second = masked_frame(true, Opcode::Binary, [4, 3, 2, 1], b"second");
    let mut wire = first.to_bytes();
    wire.extend_from_slice(&second.to_bytes());

    let mut reader = FrameReader::new();
    // Nothing buffered yet.
    assert!(reader.next_frame().unwrap().is_none());
    // Both frames arrive in one chunk, split at an arbitrary point.
    reader.push_bytes(&wire[..3]);
    assert!(reader.next_frame().unwrap().is_none());
    reader.push_bytes(&wire[3..]);
    let a = reader.next_frame().unwrap().unwrap();
    assert_eq!(a.payload, b"first".to_vec());
    let b = reader.next_frame().unwrap().unwrap();
    assert_eq!(b.payload, b"second".to_vec());
    assert!(reader.next_frame().unwrap().is_none());
}

#[test]
fn empty_payload_frame_round_trips() {
    let f = masked_frame(true, Opcode::Ping, [7, 7, 7, 7], b"");
    let bytes = f.to_bytes();
    assert_eq!(bytes.len(), 6); // two header bytes and the key, nothing else
    let parsed = parse_all(&bytes).unwrap();
    assert_eq!(parsed.payload_len, 0);
    assert!(parsed.payload.is_empty());
    assert_eq!(parsed.opcode, Opcode::Ping);
}
