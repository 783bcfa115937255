use sod::frame::{
    assemble_record, delimit, length_prefix, read_record, stores_hash, Extent, RecordRead,
    CORRUPT_LEN,
};
use sod::{decode_record, zero_hash, Frame, FrameHash, ReplicaId, SodError};

fn test_frame(origin_byte: u8, seq: u64, prev: FrameHash) -> Frame {
    Frame {
        prev_hash: prev,
        origin: ReplicaId([origin_byte; 16]),
        seq,
        event_time: 1_000 + seq,
        payload: vec![(vec![1, 2, 3], 1), (vec![4, 5], -2)],
    }
}

#[test]
fn frame_roundtrip() {
    let f = test_frame(7, 1, zero_hash());
    let mut rec = Vec::new();
    f.encode_record(&mut rec);
    let (decoded, hash, consumed) = decode_record(&rec).unwrap().unwrap();
    assert_eq!(decoded, f);
    assert_eq!(hash, f.hash());
    assert_eq!(consumed, rec.len());
}

#[test]
fn decode_partial_tail_is_none() {
    let f = test_frame(7, 1, zero_hash());
    let mut rec = Vec::new();
    f.encode_record(&mut rec);
    for cut in 0..rec.len() {
        assert_eq!(decode_record(&rec[..cut]).unwrap(), None, "cut={cut}");
    }
}

#[test]
fn decode_flipped_byte_is_corrupt() {
    // Every byte of the record is tamper-evident: the length prefix via the
    // length-check, the body and hash via BLAKE3.
    let f = test_frame(7, 1, zero_hash());
    let mut rec = Vec::new();
    f.encode_record(&mut rec);
    for i in 0..rec.len() {
        let mut bad = rec.clone();
        bad[i] ^= 0xff;
        assert!(
            matches!(decode_record(&bad), Err(SodError::Corrupt(_))),
            "flip at {i}"
        );
    }
}

#[test]
fn hash_chains() {
    let f1 = test_frame(7, 1, zero_hash());
    let f2 = test_frame(7, 2, f1.hash());
    assert_eq!(f2.prev_hash, f1.hash());
    assert_ne!(f1.hash(), f2.hash());
}

#[test]
fn the_body_is_the_fields_in_order() {
    let f = test_frame(7, 1, zero_hash());
    let mut body = vec![0u8; 32];
    body.extend_from_slice(&[7u8; 16]);
    body.push(1); // seq
    body.extend_from_slice(&[0xe9, 0x07]); // event time 1001, seven bits at a time
    body.push(2); // two deltas
    body.extend_from_slice(&[3, 1, 2, 3, 2]); // [1, 2, 3] at 1, zig-zag 2
    body.extend_from_slice(&[2, 4, 5, 3]); // [4, 5] at -2, zig-zag 3
    assert_eq!(f.encode(), body);
}

#[test]
fn the_hash_is_blake3_of_the_body() {
    let f = test_frame(3, 1, zero_hash());
    assert_eq!(f.hash(), FrameHash(*blake3::hash(&f.encode()).as_bytes()));
    assert_ne!(f.hash().0.to_vec(), f.encode()[..32].to_vec());
}

#[test]
fn the_record_is_length_check_body_hash() {
    let f = test_frame(3, 1, zero_hash());
    let body = f.encode();
    let mut rec = vec![0xaa];
    f.encode_record(&mut rec);
    let len = (body.len() as u32).to_le_bytes();
    let mut expected = vec![0xaa];
    expected.extend_from_slice(&len);
    expected.extend_from_slice(&blake3::hash(&len).as_bytes()[..4]);
    expected.extend_from_slice(&body);
    expected.extend_from_slice(blake3::hash(&body).as_bytes());
    assert_eq!(rec, expected);
}

#[test]
fn decoding_ignores_what_follows_the_record() {
    let f = test_frame(7, 1, zero_hash());
    let mut rec = Vec::new();
    f.encode_record(&mut rec);
    let n = rec.len();
    rec.extend_from_slice(&[9, 9, 9]);
    let (decoded, _, consumed) = decode_record(&rec).unwrap().unwrap();
    assert_eq!(decoded, f);
    assert_eq!(consumed, n);
}

#[test]
fn each_kind_of_corruption_has_its_message() {
    let f = test_frame(7, 1, zero_hash());
    let mut rec = Vec::new();
    f.encode_record(&mut rec);

    let mut bad = rec.clone();
    bad[0] ^= 1;
    assert_eq!(decode_record(&bad), Err(SodError::Corrupt(CORRUPT_LEN)));
    assert_eq!(CORRUPT_LEN, "record length untrustworthy");

    let mut bad = rec.clone();
    bad[20] ^= 1;
    assert_eq!(
        decode_record(&bad),
        Err(SodError::Corrupt("record hash mismatch"))
    );

    // a record whose hash is right and whose body is no frame
    let body = [0xffu8; 5];
    let len = (body.len() as u32).to_le_bytes();
    let mut bad = len.to_vec();
    bad.extend_from_slice(&blake3::hash(&len).as_bytes()[..4]);
    bad.extend_from_slice(&body);
    bad.extend_from_slice(blake3::hash(&body).as_bytes());
    assert_eq!(
        decode_record(&bad),
        Err(SodError::Corrupt("frame decode failed"))
    );
    assert!(matches!(read_record(&bad), RecordRead::BadBody { end: 45 }));
}

#[test]
fn ids_and_hashes_print_as_hex() {
    let mut b = [0u8; 16];
    b[0] = 0xab;
    b[15] = 0x0f;
    assert_eq!(
        ReplicaId::from_bytes(b).to_string(),
        "ab00000000000000000000000000000f"
    );
    assert_eq!(zero_hash().to_string(), "0".repeat(64));
    assert_eq!(
        format!("{:?}", ReplicaId::from_bytes(b)),
        "ab00000000000000000000000000000f"
    );
    assert_eq!(format!("{:?}", FrameHash([0x1c; 32])), "1c".repeat(32));
    assert_eq!(
        format!("{:?}", SodError::Poisoned(ReplicaId([0xee; 16]))),
        format!("Poisoned({})", "ee".repeat(16))
    );
}

#[test]
fn generated_ids_differ() {
    let a = ReplicaId::generate().unwrap();
    let b = ReplicaId::generate().unwrap();
    assert_ne!(a, b);
}

#[test]
fn errors_say_what_happened() {
    let origin = ReplicaId([0x11; 16]);
    let hex = "11".repeat(16);
    assert_eq!(SodError::Corrupt("x").to_string(), "corrupt record: x");
    assert_eq!(
        SodError::Gap { origin, have: 0, got: 12 }.to_string(),
        format!("gap in feed {hex}: have 0, got 12")
    );
    assert_eq!(
        SodError::Equivocation { origin, seq: 305 }.to_string(),
        format!("equivocation in feed {hex} at seq 305")
    );
    assert_eq!(
        SodError::Poisoned(origin).to_string(),
        format!("feed {hex} is poisoned")
    );
    assert_eq!(
        SodError::VersionMismatch { ours: (1, 2), theirs: (1, 10) }.to_string(),
        "version mismatch: ours protocol 1/schema 2, theirs protocol 1/schema 10"
    );
    assert_eq!(SodError::Io("disk".to_string()).to_string(), "io: disk");
    assert_eq!(SodError::Poisoned(origin).clone(), SodError::Poisoned(origin));
}

#[test]
fn the_length_prefix_is_little_endian() {
    assert_eq!(length_prefix(0), [0, 0, 0, 0]);
    assert_eq!(length_prefix(0x0102_0304), [4, 3, 2, 1]);
    assert_eq!(length_prefix(u32::MAX as usize), [255, 255, 255, 255]);
}

#[test]
fn a_record_is_assembled_from_its_parts() {
    let mut out = vec![7];
    assemble_record(&[1, 2, 3], &[5; 32], &[6; 32], &mut out);
    let mut expected = vec![7, 3, 0, 0, 0, 5, 5, 5, 5, 1, 2, 3];
    expected.extend_from_slice(&[6; 32]);
    assert_eq!(out, expected);
    assert!(matches!(delimit(&out[1..], &[5; 32]), Extent::Complete { end: 43 }));
    assert!(matches!(delimit(&out[1..43], &[5; 32]), Extent::Partial));
    assert!(matches!(delimit(&out[1..8], &[5; 32]), Extent::Partial));
    assert!(matches!(delimit(&out[1..], &[4; 32]), Extent::BadLength));
    assert!(stores_hash(&out[1..], 43, &[6; 32]));
    assert!(!stores_hash(&out[1..], 43, &[5; 32]));
}

#[test]
fn different_frames_have_different_bodies() {
    let f = test_frame(7, 1, zero_hash());
    let mut others = vec![f.clone(), f.clone(), f.clone(), f.clone(), f.clone()];
    others[0].prev_hash = FrameHash([1; 32]);
    others[1].origin = ReplicaId([8; 16]);
    others[2].seq = 2;
    others[3].event_time = 7;
    others[4].payload.pop();
    for g in &others {
        assert_ne!(f.encode(), g.encode());
        assert_ne!(f.hash(), g.hash());
    }
}

#[test]
fn a_head_hash_vouches_for_the_whole_feed() {
    let head = |first_time: u64| {
        let mut prev = zero_hash();
        for seq in 1..=4 {
            let mut f = test_frame(7, seq, prev);
            if seq == 1 {
                f.event_time = first_time;
            }
            prev = f.hash();
        }
        prev
    };
    assert_eq!(head(1), head(1));
    assert_ne!(head(1), head(2));
}

#[test]
fn an_id_is_the_bytes_that_the_source_gave() {
    assert_eq!(ReplicaId::from_source(Ok([5; 16])), Ok(ReplicaId([5; 16])));
    assert_eq!(
        ReplicaId::from_source(Err(getrandom::Error::UNSUPPORTED)),
        Err(SodError::Io("OS RNG unavailable".to_string()))
    );
}
