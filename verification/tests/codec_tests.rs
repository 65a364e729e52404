use logmux::codec::{
    encode_log_event_batch_slices, encode_stream_register, FrameHeader, PreparedEvent, WireEvent,
    FRAME_LOG_EVENT_BATCH, FRAME_STREAM_REGISTER,
};

#[test]
fn test_frame_header_big_endian() {
    let header = FrameHeader::new(42, FRAME_LOG_EVENT_BATCH);
    assert_eq!(header.as_slice(), &[0, 0, 0, 42, FRAME_LOG_EVENT_BATCH]);
}

#[test]
fn test_prepared_event_header_layout() {
    let event = PreparedEvent::from_wire(WireEvent {
        timestamp_ns: 1_000_000_001,
        is_stderr: true,
        payload: b"error",
    });

    assert_eq!(&event.header[0..8], &1_000_000_001i64.to_be_bytes());
    assert_eq!(event.header[8], 1);
    assert_eq!(&event.header[9..13], &5u32.to_be_bytes());
    assert_eq!(event.payload, b"error");
}

#[test]
fn test_stream_register_payload_length() {
    let (header, body) = encode_stream_register(7, "default", "nginx", "uid-123", "web");
    let expected = 4 + 2 + 7 + 2 + 5 + 2 + 7 + 2 + 3;
    assert_eq!(
        u32::from_be_bytes(header.as_slice()[0..4].try_into().unwrap()),
        expected as u32
    );
    assert_eq!(body.len(), expected);
}

#[test]
fn frame_header_large_length_and_type() {
    let header = FrameHeader::new(0x0102_0304, FRAME_STREAM_REGISTER);
    assert_eq!(header.as_slice(), &[1, 2, 3, 4, 1]);
}

#[test]
fn stream_register_body_bytes() {
    let (header, body) = encode_stream_register(0x0a0b0c0d, "ns", "p", "", "c");
    assert_eq!(header.as_slice(), &[0, 0, 0, 16, FRAME_STREAM_REGISTER]);
    assert_eq!(
        body,
        vec![0x0a, 0x0b, 0x0c, 0x0d, 0, 2, b'n', b's', 0, 1, b'p', 0, 0, 0, 1, b'c']
    );
}

#[test]
fn stream_register_utf8_lengths_are_bytes() {
    let (_, body) = encode_stream_register(1, "é", "", "", "");
    assert_eq!(&body[4..8], &[0, 2, 0xc3, 0xa9]);
}

#[test]
fn negative_timestamp_and_stdout_flag() {
    let event = PreparedEvent::from_wire(WireEvent { timestamp_ns: -1, is_stderr: false, payload: b"" });
    assert_eq!(&event.header[0..8], &[0xff; 8]);
    assert_eq!(event.header[8], 0);
    assert_eq!(&event.header[9..13], &[0, 0, 0, 0]);
}

#[test]
fn log_event_batch_slices_layout() {
    let events = [
        PreparedEvent::from_wire(WireEvent { timestamp_ns: 42, is_stderr: false, payload: b"hello tcp" }),
        PreparedEvent::from_wire(WireEvent { timestamp_ns: 7, is_stderr: true, payload: b"x" }),
    ];
    let (header, prefix, slices) = encode_log_event_batch_slices(11, &events);
    let payload_len = 8 + (13 + 9) + (13 + 1);
    assert_eq!(header.as_slice(), &[0, 0, 0, payload_len as u8, FRAME_LOG_EVENT_BATCH]);
    assert_eq!(prefix, [0, 0, 0, 11, 0, 0, 0, 2]);
    assert_eq!(slices.len(), 4);
    assert_eq!(slices[0], &events[0].header[..]);
    assert_eq!(slices[1], b"hello tcp");
    assert_eq!(slices[2], &events[1].header[..]);
    assert_eq!(slices[3], b"x");
    let total: usize = slices.iter().map(|s| s.len()).sum();
    assert_eq!(8 + total, payload_len);
}

#[test]
fn single_event_batch_matches_wire_example() {
    // One event of "hello tcp" in stream 11 is a 30-byte payload.
    let events = [PreparedEvent::from_wire(WireEvent { timestamp_ns: 42, is_stderr: false, payload: b"hello tcp" })];
    let (header, prefix, _) = encode_log_event_batch_slices(11, &events);
    assert_eq!(&header.as_slice()[0..4], &30u32.to_be_bytes());
    assert_eq!(&prefix[0..4], &11u32.to_be_bytes());
    assert_eq!(&prefix[4..8], &1u32.to_be_bytes());
}

#[test]
fn empty_batch() {
    let (header, prefix, slices) = encode_log_event_batch_slices(3, &[]);
    assert_eq!(header.as_slice(), &[0, 0, 0, 8, FRAME_LOG_EVENT_BATCH]);
    assert_eq!(prefix, [0, 0, 0, 3, 0, 0, 0, 0]);
    assert!(slices.is_empty());
}

#[test]
fn batch_bytes_read_back() {
    let wire = [
        WireEvent { timestamp_ns: -3, is_stderr: true, payload: b"first" },
        WireEvent { timestamp_ns: 1_700_000_000_000_000_000, is_stderr: false, payload: b"" },
        WireEvent { timestamp_ns: 5, is_stderr: false, payload: b"third line" },
    ];
    let events: Vec<PreparedEvent<'_>> = wire.iter().copied().map(PreparedEvent::from_wire).collect();
    let (header, prefix, slices) = encode_log_event_batch_slices(77, &events);
    let mut p: Vec<u8> = prefix.to_vec();
    for s in &slices {
        p.extend_from_slice(s);
    }
    let h = header.as_slice();
    assert_eq!(u32::from_be_bytes([h[0], h[1], h[2], h[3]]) as usize, p.len());
    assert_eq!(h[4], FRAME_LOG_EVENT_BATCH);
    assert_eq!(u32::from_be_bytes([p[0], p[1], p[2], p[3]]), 77);
    let count = u32::from_be_bytes([p[4], p[5], p[6], p[7]]) as usize;
    assert_eq!(count, wire.len());
    let mut at = 8;
    for w in &wire {
        let mut ts = [0u8; 8];
        ts.copy_from_slice(&p[at..at + 8]);
        assert_eq!(i64::from_be_bytes(ts), w.timestamp_ns);
        assert_eq!(p[at + 8], if w.is_stderr { 1 } else { 0 });
        let n = u32::from_be_bytes([p[at + 9], p[at + 10], p[at + 11], p[at + 12]]) as usize;
        assert_eq!(&p[at + 13..at + 13 + n], w.payload);
        at += 13 + n;
    }
    assert_eq!(at, p.len());
}
