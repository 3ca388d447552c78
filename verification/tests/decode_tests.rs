use pty_core::decode::StreamDecoder;

#[test]
fn ascii_passes_through() {
    let mut d = StreamDecoder::new();
    let out = d.feed(b"hello");
    assert_eq!(out, b"hello".to_vec());
    let out = d.feed(b"");
    assert!(out.is_empty());
}

#[test]
fn split_three_byte_char_two_then_one() {
    // "€" is 0xE2 0x82 0xAC; split as two bytes then one across two reads.
    let mut d = StreamDecoder::new();
    let first = d.feed(&[0xE2, 0x82]);
    assert!(first.is_empty());
    let second = d.feed(&[0xAC]);
    assert_eq!(second, "€".as_bytes().to_vec());
    assert_eq!(String::from_utf8(second).unwrap(), "€");
}

#[test]
fn split_four_byte_char_one_then_three() {
    // "𝄞" is 0xF0 0x9D 0x84 0x9E.
    let mut d = StreamDecoder::new();
    let first = d.feed(&[0xF0]);
    assert!(first.is_empty());
    let second = d.feed(&[0x9D, 0x84, 0x9E]);
    assert_eq!(String::from_utf8(second).unwrap(), "𝄞");
}

#[test]
fn invalid_byte_then_ascii_one_chunk() {
    let mut d = StreamDecoder::new();
    let out = d.feed(&[0xFF, b'h', b'i']);
    let mut expected = vec![0xEF, 0xBF, 0xBD];
    expected.extend_from_slice(b"hi");
    assert_eq!(out, expected);
    assert_eq!(String::from_utf8(out).unwrap(), "\u{FFFD}hi");
}

#[test]
fn truncated_lead_rejected_once_next_byte_shows() {
    // 0xE2 could still start a character; a following ASCII byte proves it
    // never will, so the lead becomes one replacement marker.
    let mut d = StreamDecoder::new();
    assert!(d.feed(&[0xE2]).is_empty());
    let out = d.feed(b"x");
    assert_eq!(String::from_utf8(out).unwrap(), "\u{FFFD}x");
}

#[test]
fn overlong_and_surrogate_encodings_rejected() {
    // 0xE0 0x80 would begin an overlong encoding; 0xED 0xA0 a surrogate.
    let mut d = StreamDecoder::new();
    let out = d.feed(&[0xE0, 0x80, b'a']);
    assert_eq!(String::from_utf8(out).unwrap(), "\u{FFFD}\u{FFFD}a");
    let mut d = StreamDecoder::new();
    let out = d.feed(&[0xED, 0xA0, 0x80, b'b']);
    assert_eq!(String::from_utf8(out).unwrap(), "\u{FFFD}\u{FFFD}\u{FFFD}b");
}

#[test]
fn flush_reports_dangling_tail() {
    let mut d = StreamDecoder::new();
    assert!(d.feed(&[0xE2, 0x82]).is_empty());
    let out = d.flush();
    assert_eq!(out, vec![0xEF, 0xBF, 0xBD]);
    // After a flush nothing is left.
    assert!(d.flush().is_empty());
}

#[test]
fn mixed_text_kept_in_byte_order() {
    let mut d = StreamDecoder::new();
    let out = d.feed("aé€".as_bytes());
    assert_eq!(String::from_utf8(out).unwrap(), "aé€");
}
