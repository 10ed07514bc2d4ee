use kassigner::qr::multiframe::{
    decode_frame, encode_frame, payload_kind, payload_metadata, verify_payload, FrameError,
    HEADER_LEN, MAX_FRAGMENT_LEN, VERSION,
};

/// The first byte of raw payloads in these tests.
const RAW_TAG: u8 = 0x7E;

#[test]
fn frames_round_trip_and_share_payload_metadata() {
    let payload = [b"KSPT".as_slice(), &[0x5au8; 180]].concat();
    let mut first_bytes = [0u8; 160];
    let mut second_bytes = [0u8; 160];
    let first_len = encode_frame(&payload, 0, 2, &mut first_bytes, RAW_TAG).unwrap();
    let second_len = encode_frame(&payload, 1, 2, &mut second_bytes, RAW_TAG).unwrap();
    let first = decode_frame(&first_bytes[..first_len]).ok().unwrap();
    let second = decode_frame(&second_bytes[..second_len]).ok().unwrap();
    assert_eq!(first.session, second.session);
    assert_eq!(first.digest, second.digest);
    assert_eq!(first.payload_len as usize, payload.len());
    let mut rebuilt = Vec::new();
    rebuilt.extend_from_slice(first.fragment);
    rebuilt.extend_from_slice(second.fragment);
    assert_eq!(rebuilt, payload);
    assert!(verify_payload(&rebuilt, first.kind, &first.digest, RAW_TAG));
}

#[test]
fn rejects_invalid_headers_and_detects_tampering() {
    let payload = [b"KSPT".as_slice(), &[0x33u8; 180]].concat();
    let mut encoded = [0u8; 160];
    let len = encode_frame(&payload, 0, 2, &mut encoded, RAW_TAG).unwrap();
    encoded[2] = VERSION + 1;
    assert_eq!(
        decode_frame(&encoded[..len]).err().unwrap(),
        FrameError::InvalidFrame
    );
    let (_, _, digest) = payload_metadata(&payload, RAW_TAG).unwrap();
    let mut tampered = payload.clone();
    tampered[10] ^= 1;
    assert!(!verify_payload(
        &tampered,
        payload_kind(&payload, RAW_TAG),
        &digest,
        RAW_TAG
    ));
}

#[test]
fn kinds_of_payload() {
    assert_eq!(payload_kind(b"KSPT", RAW_TAG), 1);
    assert_eq!(payload_kind(b"KSP", RAW_TAG), 0);
    let mut raw = [0u8; 79];
    assert_eq!(payload_kind(&raw, RAW_TAG), 0);
    raw[0] = RAW_TAG;
    assert_eq!(payload_kind(&raw, RAW_TAG), 2);
    assert_eq!(payload_kind(&raw[..78], RAW_TAG), 0);
    assert_eq!(payload_kind(&[], RAW_TAG), 0);
}

#[test]
fn metadata_is_cut_from_the_hash() {
    // SHA-256 of "abc":
    // ba7816bf 8f01cfea 414140de 5dae2223 b00361a3 96177a9c b410ff61 f20015ad
    let (kind, session, digest) = payload_metadata(b"abc", RAW_TAG).unwrap();
    assert_eq!(kind, 0);
    assert_eq!(session, [0xb0, 0x03, 0x61, 0xa3, 0x96, 0x17, 0x7a, 0x9c]);
    assert_eq!(
        digest,
        [
            0xba, 0x78, 0x16, 0xbf, 0x8f, 0x01, 0xcf, 0xea, 0x41, 0x41, 0x40, 0xde, 0x5d, 0xae,
            0x22, 0x23
        ]
    );
    assert!(verify_payload(b"abc", 0, &digest, RAW_TAG));
    assert!(!verify_payload(b"abc", 1, &digest, RAW_TAG));
    assert_eq!(
        payload_metadata(&[], RAW_TAG),
        Err(FrameError::InvalidPayload)
    );
    let long = vec![0u8; 65536];
    assert_eq!(
        payload_metadata(&long, RAW_TAG),
        Err(FrameError::InvalidPayload)
    );
    assert!(payload_metadata(&long[..65535], RAW_TAG).is_ok());
}

#[test]
fn frame_layout() {
    let payload = [1u8, 2, 3];
    let mut out = [0xEEu8; 60];
    let n = encode_frame(&payload, 1, 2, &mut out, RAW_TAG).unwrap();
    assert_eq!(n, HEADER_LEN + 20);
    assert_eq!(&out[..4], &[b'K', b'Q', 2, 0]);
    assert_eq!(&out[12..14], &[0, 3]);
    assert_eq!(&out[30..34], &[1, 2, 1, 3]);
    assert!(out[34..53].iter().all(|b| *b == 0));
    assert!(out[53..].iter().all(|b| *b == 0xEE));
    let frame = decode_frame(&out).ok().unwrap();
    assert_eq!(frame.fragment, &[3]);
    assert_eq!((frame.index, frame.total, frame.payload_len), (1, 2, 3));
}

#[test]
fn encoding_errors() {
    let payload = [7u8; 200];
    let mut out = [0xEEu8; 200];
    let mut small = [0xEEu8; 40];
    assert_eq!(
        encode_frame(&payload, 0, 1, &mut out, RAW_TAG),
        Err(FrameError::InvalidFrame)
    );
    assert_eq!(
        encode_frame(&payload, 3, 3, &mut out, RAW_TAG),
        Err(FrameError::InvalidFrame)
    );
    assert_eq!(
        encode_frame(&payload, 0, 2, &mut out, RAW_TAG),
        Err(FrameError::InvalidPayload)
    );
    assert_eq!(
        encode_frame(&[], 0, 2, &mut out, RAW_TAG),
        Err(FrameError::InvalidPayload)
    );
    // Five bytes over four frames: two each, and nothing for the last.
    assert_eq!(
        encode_frame(&payload[..5], 3, 4, &mut out, RAW_TAG),
        Err(FrameError::InvalidFrame)
    );
    assert_eq!(
        encode_frame(&payload, 0, 3, &mut small, RAW_TAG),
        Err(FrameError::OutputTooSmall)
    );
    assert!(out.iter().all(|b| *b == 0xEE));
    assert!(small.iter().all(|b| *b == 0xEE));
    assert_eq!(
        encode_frame(&[7u8; 2 * MAX_FRAGMENT_LEN], 0, 2, &mut out, RAW_TAG),
        Ok(HEADER_LEN + MAX_FRAGMENT_LEN)
    );
}

#[test]
fn decoding_errors() {
    let mut good = [0u8; 60];
    let n = encode_frame(&[9u8; 50], 0, 2, &mut good, RAW_TAG).unwrap();
    assert!(decode_frame(&good[..n]).is_ok());
    for (at, value) in [(0, 0), (1, 0), (31, 1), (30, 2), (32, 0), (32, 97)] {
        let mut bad = good;
        bad[at] = value;
        assert_eq!(
            decode_frame(&bad[..n]).err(),
            Some(FrameError::InvalidFrame)
        );
    }
    let mut empty = good;
    empty[13] = 0;
    assert!(decode_frame(&empty[..n]).is_err());
    assert!(decode_frame(&good[..n - 1]).is_err());
    assert!(decode_frame(&good[..HEADER_LEN - 1]).is_err());
}

#[test]
fn all_fragments_rebuild_the_payload() {
    let payload: Vec<u8> = (0..250u8).collect();
    for total in 3..=9u8 {
        let mut rebuilt = Vec::new();
        for index in 0..total {
            let mut out = [0u8; 160];
            let n = encode_frame(&payload, index, total, &mut out, RAW_TAG).unwrap();
            let frame = decode_frame(&out[..n]).ok().unwrap();
            rebuilt.extend_from_slice(frame.fragment);
        }
        assert_eq!(rebuilt, payload);
    }
}
