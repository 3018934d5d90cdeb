//! Frames and their checksum.

use dsline::checksum::checksum32;
use dsline::error::{ChannelError, DslineError, ProtocolError, TransportError};
use dsline::frame::{
    decode_frame, encode_frame, FrameKind, Metadata, FRAME_HEADER_LEN, FRAME_MAGIC,
};

#[test]
fn checksum_is_stable() {
    assert_eq!(checksum32(b""), 0x811c_9dc5);
    assert_eq!(checksum32(b"hello"), checksum32(b"hello"));
    assert_ne!(checksum32(b"hello"), checksum32(b"hellO"));
}

#[test]
fn round_trips_bytes_frame_with_metadata() {
    let metadata = vec![
        Metadata::new(1, b"uint8".to_vec()),
        Metadata::new(7, b"tag".to_vec()),
    ];
    let encoded =
        encode_frame(FrameKind::Bytes, 3, 42, 1000, 99, &metadata, b"hello").expect("encode");

    let decoded = decode_frame(&encoded).expect("decode");

    assert_eq!(decoded.header.flags, 3);
    assert_eq!(decoded.header.kind, FrameKind::Bytes);
    assert_eq!(decoded.header.seq, 42);
    assert_eq!(decoded.header.timestamp_ns, 1000);
    assert_eq!(decoded.header.schema_hash, 99);
    assert_eq!(decoded.header.checksum, checksum32(b"hello"));
    assert_eq!(decoded.metadata, metadata);
    assert_eq!(decoded.payload, b"hello");
}

#[test]
fn rejects_short_frame() {
    assert_eq!(
        decode_frame(&[0; 4]).expect_err("short"),
        DslineError::Protocol(ProtocolError::FrameTooShort {
            len: 4,
            minimum: FRAME_HEADER_LEN
        })
    );
}

#[test]
fn rejects_invalid_magic() {
    let mut encoded =
        encode_frame(FrameKind::Bytes, 0, 0, 0, 0, &[], b"payload").expect("encode");
    encoded[0..4].copy_from_slice(&0u32.to_le_bytes());

    assert_eq!(
        decode_frame(&encoded).expect_err("bad magic"),
        DslineError::Protocol(ProtocolError::InvalidMagic(0))
    );
}

#[test]
fn rejects_invalid_payload_length() {
    let mut encoded =
        encode_frame(FrameKind::Bytes, 0, 0, 0, 0, &[], b"payload").expect("encode");
    encoded.truncate(encoded.len() - 1);

    assert_eq!(
        decode_frame(&encoded).expect_err("bad payload length"),
        DslineError::Protocol(ProtocolError::InvalidPayloadLength {
            declared: 7,
            available: 6
        })
    );
}

#[test]
fn rejects_truncated_metadata() {
    let metadata = vec![Metadata::new(1, b"abc".to_vec())];
    let mut encoded =
        encode_frame(FrameKind::Bytes, 0, 0, 0, 0, &metadata, b"payload").expect("encode");
    let shorter_header_len = (FRAME_HEADER_LEN + 2) as u32;
    encoded[10..14].copy_from_slice(&shorter_header_len.to_le_bytes());

    assert_eq!(
        decode_frame(&encoded).expect_err("bad metadata length"),
        DslineError::Protocol(ProtocolError::InvalidMetadataLength {
            offset: FRAME_HEADER_LEN,
            declared: 2
        })
    );
}

#[test]
fn uses_documented_magic_constant() {
    assert_eq!(FRAME_MAGIC.to_be_bytes(), *b"DSLN");
}

#[test]
fn checksum_has_known_values() {
    assert_eq!(checksum32(b"a"), 0xe40c_292c);
    assert_eq!(checksum32(b"foobar"), 0xbf9c_f968);
}

#[test]
fn frame_layout_is_fixed() {
    let metadata = vec![Metadata::new(0x0102, vec![0xaa, 0xbb])];
    let bytes = encode_frame(FrameKind::Control, 0x0304, 5, 6, 7, &metadata, b"xy").expect("encode");
    let mut expected = vec![0x4e, 0x4c, 0x53, 0x44, 1, 0, 4, 3, 4, 0, 58, 0, 0, 0];
    expected.extend_from_slice(&[2, 0, 0, 0, 0, 0, 0, 0]);
    expected.extend_from_slice(&[5, 0, 0, 0, 0, 0, 0, 0]);
    expected.extend_from_slice(&[6, 0, 0, 0, 0, 0, 0, 0]);
    expected.extend_from_slice(&[7, 0, 0, 0, 0, 0, 0, 0]);
    expected.extend_from_slice(&checksum32(b"xy").to_le_bytes());
    expected.extend_from_slice(&[2, 1, 2, 0, 0, 0, 0xaa, 0xbb]);
    expected.extend_from_slice(b"xy");
    assert_eq!(bytes, expected);
}

#[test]
fn bytes_behind_a_frame_are_ignored() {
    let mut bytes = encode_frame(FrameKind::Arrow, 1, 2, 3, 4, &[], b"abc").expect("encode");
    let frame = decode_frame(&bytes).expect("decode");
    bytes.extend_from_slice(b"tail");
    assert_eq!(decode_frame(&bytes).expect("decode"), frame);
    assert_eq!(frame.header.header_len, 50);
    assert_eq!(frame.header.payload_len, 3);
    assert_eq!(frame.header.kind, FrameKind::Arrow);
}

#[test]
fn rejects_other_versions_kinds_and_header_lengths() {
    let good = encode_frame(FrameKind::Ndarray, 0, 0, 0, 0, &[], b"abc").expect("encode");

    let mut bytes = good.clone();
    bytes[4] = 2;
    assert_eq!(
        decode_frame(&bytes).expect_err("version"),
        DslineError::Protocol(ProtocolError::UnsupportedVersion(2))
    );

    let mut bytes = good.clone();
    bytes[8] = 9;
    assert_eq!(
        decode_frame(&bytes).expect_err("kind"),
        DslineError::Protocol(ProtocolError::InvalidFrameKind(9))
    );

    let mut bytes = good.clone();
    bytes[10] = 49;
    assert_eq!(
        decode_frame(&bytes).expect_err("header length"),
        DslineError::Protocol(ProtocolError::InvalidHeaderLength {
            header_len: 49,
            minimum: 50
        })
    );

    let mut bytes = good.clone();
    bytes[10] = 54;
    assert_eq!(
        decode_frame(&bytes).expect_err("header beyond the end"),
        DslineError::Protocol(ProtocolError::FrameTooShort {
            len: 53,
            minimum: 54
        })
    );

    let metadata = vec![Metadata::new(1, vec![1, 2])];
    let mut bytes = encode_frame(FrameKind::Bytes, 0, 0, 0, 0, &metadata, b"abc").expect("encode");
    bytes[52] = 3;
    assert_eq!(
        decode_frame(&bytes).expect_err("item beyond the header"),
        DslineError::Protocol(ProtocolError::InvalidMetadataLength {
            offset: 50,
            declared: 3
        })
    );
}

#[test]
fn frame_kinds_have_codes() {
    for (code, kind) in [
        (1, FrameKind::Bytes),
        (2, FrameKind::Ndarray),
        (3, FrameKind::Arrow),
        (4, FrameKind::Control),
    ] {
        assert_eq!(kind.code(), code);
        assert_eq!(FrameKind::try_from(code), Ok(kind));
    }
    assert_eq!(
        FrameKind::try_from(0),
        Err(ProtocolError::InvalidFrameKind(0))
    );
}

#[test]
fn errors_are_told_in_words() {
    let cases = [
        (
            DslineError::Protocol(ProtocolError::FrameTooShort { len: 4, minimum: 50 }),
            "frame length 4 is shorter than minimum 50",
        ),
        (
            DslineError::Protocol(ProtocolError::InvalidMagic(0xbeef)),
            "invalid frame magic 0x0000beef",
        ),
        (
            DslineError::Protocol(ProtocolError::UnsupportedVersion(65535)),
            "unsupported frame protocol version 65535",
        ),
        (
            DslineError::Protocol(ProtocolError::InvalidFrameKind(10)),
            "invalid frame kind 10",
        ),
        (
            DslineError::Protocol(ProtocolError::InvalidHeaderLength {
                header_len: 0,
                minimum: 50,
            }),
            "invalid frame header length 0; minimum is 50",
        ),
        (
            DslineError::Protocol(ProtocolError::InvalidPayloadLength {
                declared: u64::MAX,
                available: 6,
            }),
            "invalid frame payload length 18446744073709551615; only 6 bytes available",
        ),
        (
            DslineError::Protocol(ProtocolError::InvalidMetadataLength {
                offset: 50,
                declared: 2,
            }),
            "invalid metadata length 2 at frame header offset 50",
        ),
        (
            DslineError::Protocol(ProtocolError::HeaderLengthOverflow),
            "frame header length overflow",
        ),
        (
            DslineError::Channel(ChannelError::Closed),
            "channel is closed",
        ),
        (
            DslineError::Channel(ChannelError::BufferFull),
            "channel buffer is full",
        ),
        (
            DslineError::Channel(ChannelError::BufferEmpty),
            "channel buffer is empty",
        ),
        (
            DslineError::Channel(ChannelError::MessageTooLarge {
                len: 100,
                slot_size: 16,
            }),
            "message length 100 exceeds slot size 16",
        ),
        (
            DslineError::Channel(ChannelError::CorruptedMessage),
            "message checksum validation failed",
        ),
        (
            DslineError::Channel(ChannelError::SequenceMismatch {
                expected: 1,
                actual: 2,
            }),
            "expected message sequence 1, found 2",
        ),
        (
            DslineError::Channel(ChannelError::InvalidConfig("bad")),
            "invalid channel config: bad",
        ),
        (
            DslineError::Channel(ChannelError::StorageIo("seek")),
            "storage I/O error: seek",
        ),
        (
            DslineError::Transport(TransportError::EmptyUrl),
            "transport url is empty",
        ),
        (
            DslineError::Transport(TransportError::MissingScheme),
            "transport url has no scheme",
        ),
        (
            DslineError::Transport(TransportError::UnsupportedScheme("kafka".into())),
            "unsupported transport scheme: kafka",
        ),
        (
            DslineError::Transport(TransportError::MissingTarget("topic")),
            "transport url is missing its topic",
        ),
        (
            DslineError::Transport(TransportError::InvalidPort("x".into())),
            "invalid transport port: x",
        ),
        (
            DslineError::Transport(TransportError::InvalidQuery("q".into())),
            "invalid transport query: q",
        ),
    ];
    for (error, text) in cases {
        assert_eq!(error.message(), text);
    }
}

#[test]
fn errors_convert() {
    assert_eq!(
        DslineError::from(ChannelError::Closed),
        DslineError::Channel(ChannelError::Closed)
    );
    assert_eq!(
        DslineError::from(ProtocolError::HeaderLengthOverflow),
        DslineError::Protocol(ProtocolError::HeaderLengthOverflow)
    );
    assert_eq!(
        DslineError::from(TransportError::EmptyUrl),
        DslineError::Transport(TransportError::EmptyUrl)
    );
}

#[test]
fn every_changed_byte_changes_the_checksum() {
    let bytes = b"dataflow".to_vec();
    for index in 0..bytes.len() {
        for byte in 0..=255u8 {
            let mut changed = bytes.clone();
            changed[index] = byte;
            assert_eq!(
                checksum32(&changed) == checksum32(&bytes),
                byte == bytes[index]
            );
        }
    }
}
