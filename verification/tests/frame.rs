use mc_ping::error::CodecError;
use mc_ping::frame::{parse_envelope, serialize_envelope, FrameReader};
use mc_ping::varint::VarInt;

fn envelope(id: i32, payload: &[u8]) -> Vec<u8> {
    serialize_envelope(&VarInt::from(id), payload)
}

#[test]
fn envelope_is_length_id_payload() {
    assert_eq!(envelope(0, &[]), vec![0x01, 0x00]);
    assert_eq!(envelope(0, &[0xaa, 0xbb]), vec![0x03, 0x00, 0xaa, 0xbb]);
    assert_eq!(envelope(300, &[0x01]), vec![0x03, 0xac, 0x02, 0x01]);
    assert_eq!(
        envelope(-1, &[]),
        vec![0x05, 0xff, 0xff, 0xff, 0xff, 0x0f]
    );
}

#[test]
fn envelope_length_grows_to_two_bytes() {
    let payload = vec![0x55u8; 127];
    let bytes = envelope(0, &payload);
    assert_eq!(&bytes[..3], &[0x80, 0x01, 0x00]);
    assert_eq!(bytes.len(), 2 + 1 + 127);
}

#[test]
fn envelope_round_trip() {
    let payloads: Vec<Vec<u8>> = vec![
        vec![],
        vec![0x00],
        vec![0x80],
        vec![0xff; 5],
        (0..=255u8).collect(),
        vec![0x7f; 20000],
    ];
    for id in [0, 1, 127, 128, 300, i32::MAX, -1, i32::MIN] {
        for payload in &payloads {
            let bytes = envelope(id, payload);
            let parsed = parse_envelope(&bytes).unwrap();
            assert_eq!(parsed.packet_id.value(), id);
            assert_eq!(&parsed.payload, payload);
            assert_eq!(
                parsed.len.value() as usize,
                VarInt::from(id).size() + payload.len()
            );
        }
    }
}

#[test]
fn envelope_leaves_what_follows() {
    let mut bytes = envelope(7, &[1, 2, 3]);
    bytes.extend_from_slice(&[9, 9, 9]);
    let parsed = parse_envelope(&bytes).unwrap();
    assert_eq!(parsed.packet_id.value(), 7);
    assert_eq!(parsed.payload, vec![1, 2, 3]);
}

#[test]
fn envelope_one_byte_short_is_incomplete() {
    for payload_len in [0usize, 1, 2, 126, 127, 128, 1000] {
        let payload = vec![0x42u8; payload_len];
        let bytes = envelope(0, &payload);
        assert_eq!(
            parse_envelope(&bytes[..bytes.len() - 1]).err(),
            Some(CodecError::IncompletePacket)
        );
    }
}

#[test]
fn every_proper_prefix_of_an_envelope_is_incomplete() {
    let bytes = envelope(300, &[0x10; 200]);
    for k in 0..bytes.len() {
        assert_eq!(
            parse_envelope(&bytes[..k]).err(),
            Some(CodecError::IncompletePacket)
        );
    }
    assert!(parse_envelope(&bytes).is_ok());
}

#[test]
fn envelope_with_a_length_that_never_ends_is_malformed() {
    assert_eq!(
        parse_envelope(&[0x80, 0x80, 0x80, 0x80, 0x80]).err(),
        Some(CodecError::MalformedVarInt)
    );
    assert_eq!(
        parse_envelope(&[0xff, 0xff, 0xff, 0xff, 0xff, 0x00, 0x00]).err(),
        Some(CodecError::MalformedVarInt)
    );
}

#[test]
fn envelope_with_a_packet_id_cut_by_the_frame_is_malformed() {
    // The frame is empty: no room for a packet id.
    assert_eq!(parse_envelope(&[0x00]).err(), Some(CodecError::MalformedVarInt));
    // The frame holds one byte, which asks for another.
    assert_eq!(
        parse_envelope(&[0x01, 0x80, 0x00]).err(),
        Some(CodecError::MalformedVarInt)
    );
    // The packet id never ends.
    assert_eq!(
        parse_envelope(&[0x06, 0x80, 0x80, 0x80, 0x80, 0x80, 0x00]).err(),
        Some(CodecError::MalformedVarInt)
    );
}

#[test]
fn envelope_with_a_negative_length_is_never_complete() {
    let mut bytes = vec![0xff, 0xff, 0xff, 0xff, 0x0f];
    bytes.extend_from_slice(&[0u8; 64]);
    assert_eq!(
        parse_envelope(&bytes).err(),
        Some(CodecError::IncompletePacket)
    );
}

fn run_reader(chunks: &[&[u8]]) -> (FrameReader, usize) {
    let mut reader = FrameReader::new();
    let mut taken = 0;
    for chunk in chunks {
        taken += reader.feed(chunk);
    }
    (reader, taken)
}

#[test]
fn reader_wants_one_byte_then_the_rest_of_the_frame() {
    let bytes = envelope(0, &[0xaa; 300]);
    let mut reader = FrameReader::new();
    assert_eq!(reader.missing(), 1);
    assert!(reader.finish().is_none());
    assert_eq!(reader.feed(&bytes[..1]), 1);
    assert_eq!(reader.missing(), 1);
    assert_eq!(reader.feed(&bytes[1..2]), 1);
    assert_eq!(reader.missing(), 301);
    assert_eq!(reader.feed(&bytes[2..100]), 98);
    assert_eq!(reader.missing(), 203);
    assert!(reader.finish().is_none());
    assert_eq!(reader.feed(&bytes[100..]), 203);
    assert_eq!(reader.missing(), 0);
    let parsed = reader.finish().unwrap().unwrap();
    assert_eq!(parsed.packet_id.value(), 0);
    assert_eq!(parsed.payload, vec![0xaa; 300]);
}

#[test]
fn reader_fed_byte_by_byte_agrees_with_one_read() {
    let payloads: Vec<Vec<u8>> = vec![vec![], vec![1], vec![0x80; 130], (0..=255u8).collect()];
    for id in [0, 5, 300, -1] {
        for payload in &payloads {
            let bytes = envelope(id, payload);

            let mut whole = FrameReader::new();
            assert_eq!(whole.feed(&bytes), bytes.len());
            let at_once = whole.finish().unwrap().unwrap();

            let mut single = FrameReader::new();
            for (i, b) in bytes.iter().enumerate() {
                assert!(single.finish().is_none(), "complete after {} bytes", i);
                assert_eq!(single.feed(&[*b]), 1);
            }
            let by_bytes = single.finish().unwrap().unwrap();

            assert_eq!(by_bytes.packet_id.value(), at_once.packet_id.value());
            assert_eq!(by_bytes.payload, at_once.payload);
            assert_eq!(by_bytes.len.value(), at_once.len.value());
            assert_eq!(by_bytes.packet_id.value(), id);
            assert_eq!(&by_bytes.payload, payload);
        }
    }
}

#[test]
fn reader_agrees_however_the_stream_is_cut() {
    let bytes = envelope(1, &(0..200u8).collect::<Vec<u8>>());
    for first in 0..bytes.len() {
        for second in [first, (first + 1).min(bytes.len()), (first + 7).min(bytes.len())] {
            let (reader, taken) =
                run_reader(&[&bytes[..first], &bytes[first..second], &bytes[second..]]);
            assert_eq!(taken, bytes.len());
            let parsed = reader.finish().unwrap().unwrap();
            assert_eq!(parsed.packet_id.value(), 1);
            assert_eq!(parsed.payload, (0..200u8).collect::<Vec<u8>>());
        }
    }
}

#[test]
fn reader_takes_no_more_than_the_frame() {
    let mut bytes = envelope(0, &[7, 8, 9]);
    let frame_len = bytes.len();
    bytes.extend_from_slice(&[0xee; 10]);
    let mut reader = FrameReader::new();
    assert_eq!(reader.feed(&bytes), frame_len);
    assert_eq!(reader.missing(), 0);
    assert_eq!(reader.feed(&[1, 2, 3]), 0);
    let parsed = reader.finish().unwrap().unwrap();
    assert_eq!(parsed.payload, vec![7, 8, 9]);
}

#[test]
fn reader_on_a_stream_that_ends_early_is_incomplete() {
    let bytes = envelope(0, &[0x33; 50]);
    let mut reader = FrameReader::new();
    reader.feed(&bytes[..bytes.len() - 1]);
    assert!(reader.finish().is_none());
    assert_eq!(reader.missing(), 1);
    reader.close();
    assert_eq!(reader.missing(), 0);
    assert_eq!(
        reader.finish().unwrap().err(),
        Some(CodecError::IncompletePacket)
    );
    // What comes after the end is not taken.
    assert_eq!(reader.feed(&bytes[bytes.len() - 1..]), 0);
    assert_eq!(
        reader.finish().unwrap().err(),
        Some(CodecError::IncompletePacket)
    );
}

#[test]
fn reader_on_an_empty_stream_is_incomplete() {
    let mut reader = FrameReader::new();
    reader.close();
    assert_eq!(
        reader.finish().unwrap().err(),
        Some(CodecError::IncompletePacket)
    );
}

#[test]
fn reader_stops_at_a_malformed_length() {
    let mut reader = FrameReader::new();
    assert_eq!(reader.feed(&[0x80, 0x80, 0x80, 0x80, 0x80, 0x80, 0x80]), 5);
    assert_eq!(reader.missing(), 0);
    assert_eq!(
        reader.finish().unwrap().err(),
        Some(CodecError::MalformedVarInt)
    );
}

#[test]
fn reader_of_a_complete_frame_stays_complete_after_the_end() {
    let bytes = envelope(0, &[1, 2]);
    let mut reader = FrameReader::new();
    reader.feed(&bytes);
    reader.close();
    let parsed = reader.finish().unwrap().unwrap();
    assert_eq!(parsed.payload, vec![1, 2]);
}
