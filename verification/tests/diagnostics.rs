//! Boundary decoding of native diagnostic buffers.

use kafka_consumer::diag::decode_diagnostic;

#[test]
fn decode_stops_at_the_first_nul() {
    let buf = b"broker down\0leftover junk";
    assert_eq!(decode_diagnostic(buf), "broker down");
}

#[test]
fn decode_without_nul_takes_the_whole_buffer() {
    assert_eq!(decode_diagnostic(b"plain text"), "plain text");
}

#[test]
fn decode_of_empty_buffer_is_empty() {
    assert_eq!(decode_diagnostic(b""), "");
    assert_eq!(decode_diagnostic(b"\0"), "");
}

#[test]
fn decode_replaces_invalid_utf8_instead_of_failing() {
    let buf = [0x62u8, 0x61, 0x64, 0xff, 0xfe, 0x00, 0x41];
    let text = decode_diagnostic(&buf);
    assert_eq!(text, "bad\u{fffd}\u{fffd}");
}

#[test]
fn decode_keeps_multibyte_utf8() {
    let mut buf = "tempéré".as_bytes().to_vec();
    buf.push(0);
    buf.push(0xff);
    assert_eq!(decode_diagnostic(&buf), "tempéré");
}
