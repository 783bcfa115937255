//! Golden log-format test: the on-disk record format is frozen.

use sod::{decode_record, zero_hash, Frame, ReplicaId};

fn golden_frames() -> Vec<Frame> {
    let f1 = Frame {
        prev_hash: zero_hash(),
        origin: ReplicaId([0xAB; 16]),
        seq: 1,
        event_time: 1_755_216_000_000,
        payload: vec![(b"golden datum one".to_vec(), 1), (b"two".to_vec(), -3)],
    };
    let f2 = Frame {
        prev_hash: f1.hash(),
        origin: ReplicaId([0xAB; 16]),
        seq: 2,
        event_time: 1_755_216_000_001,
        payload: vec![(b"three".to_vec(), 2)],
    };
    vec![f1, f2]
}

fn encode_all(frames: &[Frame]) -> Vec<u8> {
    let mut out = Vec::new();
    for f in frames {
        f.encode_record(&mut out);
    }
    out
}

fn push_golden_record(body: &[u8], out: &mut Vec<u8>) {
    let len = (body.len() as u32).to_le_bytes();
    out.extend_from_slice(&len);
    out.extend_from_slice(&blake3::hash(&len).as_bytes()[..4]);
    out.extend_from_slice(body);
    out.extend_from_slice(blake3::hash(body).as_bytes());
}

/// The golden log, written out field by field.
fn golden_bytes() -> Vec<u8> {
    let mut body1 = vec![0u8; 32]; // prev_hash
    body1.extend_from_slice(&[0xAB; 16]); // origin
    body1.push(1); // seq
    body1.extend_from_slice(&[0x80, 0xe8, 0x9a, 0xd8, 0x8a, 0x33]); // event_time
    body1.push(2); // deltas
    body1.push(16);
    body1.extend_from_slice(b"golden datum one");
    body1.push(2); // 1, zig-zag
    body1.push(3);
    body1.extend_from_slice(b"two");
    body1.push(5); // -3, zig-zag

    let mut body2 = blake3::hash(&body1).as_bytes().to_vec();
    body2.extend_from_slice(&[0xAB; 16]);
    body2.push(2);
    body2.extend_from_slice(&[0x81, 0xe8, 0x9a, 0xd8, 0x8a, 0x33]);
    body2.push(1);
    body2.push(5);
    body2.extend_from_slice(b"three");
    body2.push(4); // 2, zig-zag

    let mut out = Vec::new();
    push_golden_record(&body1, &mut out);
    push_golden_record(&body2, &mut out);
    out
}

#[test]
fn golden_log_parses_byte_identically() {
    let bytes = golden_bytes();
    let expected = golden_frames();

    // The golden bytes decode to exactly the expected frames...
    let mut rest = &bytes[..];
    let mut decoded = Vec::new();
    while !rest.is_empty() {
        let (frame, hash, consumed) = decode_record(rest)
            .expect("golden fixture must decode")
            .expect("golden fixture must not end in a partial record");
        assert_eq!(hash, frame.hash());
        decoded.push(frame);
        rest = &rest[consumed..];
    }
    assert_eq!(decoded, expected);

    // ...and the encoder reproduces the golden bytes exactly.
    assert_eq!(encode_all(&expected), bytes, "record encoding drifted");
}
