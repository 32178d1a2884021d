//! Length-prefixed frames.

use temporal::frame::{
    frame_length, length_prefix, payload_text, read_frame, write_frame, write_text, FrameError,
    MAX_FRAME_BYTES,
};

#[test]
fn frame_round_trips_and_then_clean_eof() {
    let payload = br#"{"type":"ping"}"#.to_vec();
    let buf = write_frame(&payload).unwrap();
    let frame = read_frame(&buf).unwrap();
    assert_eq!(frame.as_deref(), Some(&payload[..]));
    // Nothing after a whole frame is a clean EOF, not an error.
    let rest = buf[4 + payload.len()..].to_vec();
    assert!(read_frame(&rest).unwrap().is_none());
}

#[test]
fn empty_reader_is_clean_eof() {
    assert!(read_frame(&Vec::new()).unwrap().is_none());
}

#[test]
fn oversize_length_prefix_is_rejected_before_allocating() {
    // Length prefix one byte over the cap; no payload follows on purpose: a
    // correct reader must reject on the prefix without trying to read it.
    let mut framed = (MAX_FRAME_BYTES + 1).to_be_bytes().to_vec();
    framed.extend_from_slice(b"anything");
    assert_eq!(
        read_frame(&framed).unwrap_err(),
        FrameError::Oversize { len: MAX_FRAME_BYTES + 1 }
    );
}

#[test]
fn truncated_payload_is_an_error() {
    // Prefix claims 8 bytes but only 3 are present.
    let mut framed = 8u32.to_be_bytes().to_vec();
    framed.extend_from_slice(b"abc");
    assert_eq!(read_frame(&framed).unwrap_err(), FrameError::Truncated);
}

#[test]
fn partial_length_prefix_closes_cleanly() {
    // Only 2 of the 4 prefix bytes, which is indistinguishable from an end at a
    // frame boundary.
    assert!(read_frame(&vec![0u8, 0u8]).unwrap().is_none());
}

#[test]
fn prefix_is_big_endian() {
    assert_eq!(length_prefix(0x0102_0304), vec![1, 2, 3, 4]);
    assert_eq!(length_prefix(u32::MAX), u32::MAX.to_be_bytes().to_vec());
    assert_eq!(frame_length(&vec![0, 0, 1, 2]), Ok(258));
    assert_eq!(frame_length(&vec![1, 0, 0, 0]), Ok(MAX_FRAME_BYTES));
    assert_eq!(MAX_FRAME_BYTES, 16 * 1024 * 1024);
}

#[test]
fn rejects_oversized_frame_length() {
    let prefix = u32::MAX.to_be_bytes().to_vec();
    let err = frame_length(&prefix).unwrap_err();
    assert_eq!(err, FrameError::Oversize { len: u32::MAX });
    assert_eq!(err.message(), "frame of 4294967295 bytes exceeds limit of 16777216");
}

#[test]
fn payload_over_the_limit_is_not_written() {
    let err = write_frame(&vec![0u8; MAX_FRAME_BYTES as usize + 1]).unwrap_err();
    assert_eq!(err, FrameError::TooLarge);
    assert_eq!(err.message(), "frame too large");
    assert_eq!(FrameError::Truncated.message(), "early eof");
}

#[test]
fn texts_round_trip_as_utf8() {
    let text = "日本語 — \"Fable\"";
    let bytes = write_text(text).unwrap();
    assert_eq!(bytes.len(), 4 + text.len());
    let payload = read_frame(&bytes).unwrap().unwrap();
    assert_eq!(payload_text(payload).as_deref(), Some(text));
}

#[test]
fn payloads_that_are_not_utf8_are_dropped() {
    assert_eq!(payload_text(vec![0xff, 0xfe]), None);
}
