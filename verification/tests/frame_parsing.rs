use matching_engine::parse_frames;

fn frame(tag: u8, price: u64, qty: u32) -> Vec<u8> {
    let mut f = Vec::new();
    f.push(tag);
    f.extend_from_slice(&price.to_be_bytes());
    f.extend_from_slice(&qty.to_be_bytes());
    f
}

#[test]
fn parses_single_buy_frame() {
    let buf = frame(b'B', 100, 10);
    let (intents, rem) = parse_frames(&buf);
    assert_eq!(intents, vec![(true, 10, 100)]);
    assert!(rem.is_empty());
}

#[test]
fn parses_big_endian_fields_exactly() {
    let buf = frame(b'S', 0x0102030405060708, 0x0A0B0C0D);
    let (intents, rem) = parse_frames(&buf);
    assert_eq!(intents, vec![(false, 0x0A0B0C0D, 0x0102030405060708)]);
    assert!(rem.is_empty());

    let buf = frame(b'B', u64::MAX, u32::MAX);
    let (intents, _) = parse_frames(&buf);
    assert_eq!(intents, vec![(true, u32::MAX, u64::MAX)]);
}

#[test]
fn parses_batched_frames_in_order() {
    let mut buf = frame(b'B', 100, 10);
    buf.extend_from_slice(&frame(b'S', 99, 5));
    buf.extend_from_slice(&frame(b'B', 101, 7));
    let (intents, rem) = parse_frames(&buf);
    assert_eq!(intents, vec![(true, 10, 100), (false, 5, 99), (true, 7, 101)]);
    assert!(rem.is_empty());
}

#[test]
fn keeps_trailing_incomplete_frame() {
    let mut buf = frame(b'B', 100, 10);
    let tail = frame(b'S', 99, 5);
    buf.extend_from_slice(&tail[0..6]);
    let (intents, rem) = parse_frames(&buf);
    assert_eq!(intents, vec![(true, 10, 100)]);
    assert_eq!(rem, tail[0..6].to_vec());

    // Combining the remainder with the next read completes the frame.
    let mut next = rem.clone();
    next.extend_from_slice(&tail[6..]);
    let (intents2, rem2) = parse_frames(&next);
    assert_eq!(intents2, vec![(false, 5, 99)]);
    assert!(rem2.is_empty());
}

#[test]
fn resynchronizes_past_invalid_tag_bytes() {
    let mut buf = vec![0u8, 7u8, 42u8];
    buf.extend_from_slice(&frame(b'S', 55, 3));
    let (intents, rem) = parse_frames(&buf);
    assert_eq!(intents, vec![(false, 3, 55)]);
    assert!(rem.is_empty());

    // An invalid byte in between is skipped one byte at a time.
    let mut buf = frame(b'B', 1, 1);
    buf.push(b'X');
    buf.extend_from_slice(&frame(b'B', 2, 2));
    let (intents, rem) = parse_frames(&buf);
    assert_eq!(intents, vec![(true, 1, 1), (true, 2, 2)]);
    assert!(rem.is_empty());
}

#[test]
fn short_input_is_all_remainder() {
    let buf = vec![b'B', 1, 2, 3];
    let (intents, rem) = parse_frames(&buf);
    assert!(intents.is_empty());
    assert_eq!(rem, buf);

    let (intents, rem) = parse_frames(&Vec::new());
    assert!(intents.is_empty());
    assert!(rem.is_empty());
}
