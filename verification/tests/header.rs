use truv_compression::error::DecodeError;
use truv_compression::header::{FileHeader, HEADER_SIZE, MAGIC_BYTES};

#[test]
fn header_layout() {
    let h = FileHeader { version: 1, original_size: 0x0102_0304_0506_0708, checksum: 0xDEAD_BEEF };
    let b = h.to_bytes();
    assert_eq!(b.len(), HEADER_SIZE);
    assert_eq!(&b[0..4], b"TRUV");
    assert_eq!(&b[4..6], &[0, 1]);
    assert_eq!(&b[6..14], &[1, 2, 3, 4, 5, 6, 7, 8]);
    assert_eq!(&b[14..18], &[0xDE, 0xAD, 0xBE, 0xEF]);
    assert_eq!(MAGIC_BYTES, *b"TRUV");
}

#[test]
fn header_roundtrip() {
    let h = FileHeader { version: 7, original_size: 123_456_789, checksum: 42 };
    let mut b = h.to_bytes();
    b.extend_from_slice(&[9, 9, 9]);
    assert_eq!(FileHeader::from_reader(&b), Ok(h));
}

#[test]
fn header_too_short_for_magic() {
    assert_eq!(FileHeader::from_reader(b"TR"), Err(DecodeError::UnexpectedEof));
}

#[test]
fn header_bad_magic() {
    assert_eq!(FileHeader::from_reader(b"ZIPX0000000000000000"), Err(DecodeError::InvalidMagic));
}

#[test]
fn header_truncated_after_magic() {
    assert_eq!(FileHeader::from_reader(b"TRUV\x00\x01\x00"), Err(DecodeError::UnexpectedEof));
}
