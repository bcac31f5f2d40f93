use knot::error::KnotError;

#[test]
fn messages_name_each_failure() {
    assert_eq!(
        KnotError::BadMagic.message(),
        "this doesn't look like a .knot file (bad magic bytes)"
    );
    assert_eq!(
        KnotError::UnsupportedVersion(7).message(),
        "unsupported .knot version 7; this build understands version 1"
    );
    assert_eq!(
        KnotError::UnsupportedVersion(255).message(),
        "unsupported .knot version 255; this build understands version 1"
    );
    assert_eq!(
        KnotError::Truncated.message(),
        "this knot is frayed: the file is truncated or incomplete"
    );
    assert_eq!(KnotError::BadFilename.message(), "the stored filename is not valid UTF-8");
    assert_eq!(
        KnotError::Corrupt("invalid Huffman code in stream").message(),
        "this knot is frayed: invalid Huffman code in stream"
    );
}

#[test]
fn checksum_message_shows_padded_hex() {
    assert_eq!(
        KnotError::ChecksumMismatch { expected: 0xDEAD_BEEF, actual: 0x1A }.message(),
        "this knot is frayed: checksum mismatch (expected 0xdeadbeef, got 0x0000001a)"
    );
    assert_eq!(
        KnotError::ChecksumMismatch { expected: 0, actual: u32::MAX }.message(),
        "this knot is frayed: checksum mismatch (expected 0x00000000, got 0xffffffff)"
    );
}

#[test]
fn size_message_shows_decimal() {
    assert_eq!(
        KnotError::SizeMismatch { expected: 1000, actual: 0 }.message(),
        "this knot is frayed: size mismatch (expected 1000 bytes, got 0)"
    );
    assert_eq!(
        KnotError::SizeMismatch { expected: u64::MAX, actual: 10 }.message(),
        "this knot is frayed: size mismatch (expected 18446744073709551615 bytes, got 10)"
    );
}

#[test]
fn io_message_is_the_io_error_text() {
    let err = KnotError::from(std::io::Error::new(std::io::ErrorKind::Other, "disk on fire"));
    assert_eq!(err.message(), "disk on fire");
}
