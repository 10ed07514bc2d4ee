use kassigner::release::{
    artifact_hash, check_manifest, check_public_key, check_signature, check_signing_key,
    decode_hex, encode_hex, expected_manifest, is_private_mode, merged_image_error, new_keypair,
    parse_identity, read_exact, sign_manifest, verify_release, ReleaseError, APP_OFFSET,
    PARTITION_TABLE_OFFSET,
};

fn manifest(commit: &str, version: &str, size: u64, hash: &[u8; 32]) -> String {
    expected_manifest(commit, version, size, hash).ok().unwrap()
}

#[test]
fn merged_image_requires_bootloader_partition_table_and_application() {
    let mut image = vec![0xff; APP_OFFSET + 1];
    assert!(merged_image_error(&image).is_some());

    image[0] = 0xe9;
    assert!(merged_image_error(&image).is_some());

    image[PARTITION_TABLE_OFFSET..PARTITION_TABLE_OFFSET + 2].copy_from_slice(&[0xaa, 0x50]);
    assert!(merged_image_error(&image).is_some());

    image[APP_OFFSET] = 0xe9;
    assert_eq!(merged_image_error(&image), None);

    let application_only = vec![0xe9; APP_OFFSET];
    assert!(merged_image_error(&application_only).is_some());
}

#[test]
fn canonical_manifest_binds_every_release_property() {
    let hash = [0xabu8; 32];
    let manifest = manifest("commit-id", "4.1.0", 12345, &hash);
    assert_eq!(
        manifest,
        [
            "format=kassigner-release-v1\n",
            "repository=kas-builder/KasSigner-M5Stack-fork-brt\n",
            "board=m5stack-cores3\n",
            "profile=production\n",
            "commit=commit-id\n",
            "version=4.1.0\n",
            "artifact=kassigner-m5stack.bin\n",
            "image_layout=merged-full-flash\n",
            "flash_size=16mb\n",
            "size=12345\n",
            "sha256=abababababababababababababababababababababababababababababababab\n",
            "flash_offset=0x0\n",
        ]
        .concat()
    );
}

#[test]
fn signature_rejects_a_changed_manifest_digest() {
    let private = [0u8; 31].into_iter().chain([3u8]).collect::<Vec<_>>();
    let private: [u8; 32] = private.try_into().unwrap();
    let signature = sign_manifest("original manifest", &private).ok().unwrap();
    // Three times the generator.
    let public: [u8; 32] = decode_hex(
        "f9308a019258c31049344f85f89d5229b531c845836f99b08601f113bce036f9",
        "key",
    )
    .unwrap();
    assert!(check_signature("original manifest", &public, &signature).is_ok());
    assert!(matches!(
        check_signature("changed manifest", &public, &signature),
        Err(ReleaseError::SignatureRejected)
    ));
}

#[test]
fn manifest_rejects_changed_identity_fields_and_noncanonical_structure() {
    let valid = manifest("commit-id", "4.1.0", 12345, &[0xabu8; 32]);
    assert_eq!(
        parse_identity(&valid).unwrap(),
        ("commit-id".into(), "4.1.0".into())
    );

    let mutations = [
        valid.replace(
            "repository=kas-builder/KasSigner-M5Stack-fork-brt",
            "repository=attacker/fork",
        ),
        valid.replace("board=m5stack-cores3", "board=waveshare"),
        valid.replace("profile=production", "profile=development"),
        valid.replace("artifact=kassigner-m5stack.bin", "artifact=other.bin"),
        valid.replace(
            "image_layout=merged-full-flash",
            "image_layout=application-only",
        ),
        valid.replace("flash_size=16mb", "flash_size=4mb"),
        valid.replace("flash_offset=0x0", "flash_offset=0x10000"),
        valid.replacen(
            "commit=commit-id\n",
            "commit=commit-id\ncommit=duplicate\n",
            1,
        ),
        format!("unknown=value\n{valid}"),
        valid.replace(
            "commit=commit-id\nversion=4.1.0",
            "version=4.1.0\ncommit=commit-id",
        ),
    ];
    for mutation in mutations {
        assert!(
            parse_identity(&mutation).is_err(),
            "accepted mutation:\n{mutation}"
        );
    }
}

#[test]
fn manifest_content_changes_when_artifact_metadata_changes() {
    let baseline = manifest("commit-id", "4.1.0", 12345, &[0xabu8; 32]);
    assert_ne!(
        baseline,
        manifest("commit-id", "4.1.0", 12346, &[0xabu8; 32])
    );
    assert_ne!(
        baseline,
        manifest("commit-id", "4.1.0", 12345, &[0xacu8; 32])
    );
    assert_ne!(
        baseline,
        manifest("other-commit", "4.1.0", 12345, &[0xabu8; 32])
    );
    assert_ne!(
        baseline,
        manifest("commit-id", "4.1.1", 12345, &[0xabu8; 32])
    );
}

#[test]
fn identity_messages() {
    let valid = manifest("c", "v", 1, &[0u8; 32]);
    assert_eq!(
        parse_identity(&format!("{valid}more=1\n")).unwrap_err(),
        "manifest must contain exactly twelve ordered fields"
    );
    assert_eq!(
        parse_identity("").unwrap_err(),
        "manifest must contain exactly twelve ordered fields"
    );
    assert_eq!(
        parse_identity(&valid.replace("board=", "bord=")).unwrap_err(),
        "manifest is missing board"
    );
    assert_eq!(
        parse_identity(&valid.replace("flash_size=16mb", "flash_size=4mb")).unwrap_err(),
        "manifest flash_size is not 16mb"
    );
    assert_eq!(
        parse_identity(&valid.replace("commit=c", "commit=")).unwrap_err(),
        "manifest field commit is missing, empty, duplicated, or out of order"
    );
    // Lines may end with a carriage return and a line feed, and the last with neither.
    let loose = valid.replace('\n', "\r\n");
    assert_eq!(parse_identity(&loose).unwrap(), ("c".into(), "v".into()));
    assert!(parse_identity(loose.trim_end()).is_ok());
}

#[test]
fn manifest_names_must_be_single_lines() {
    for (commit, version) in [("", "v"), ("c", ""), ("c\nd", "v"), ("c", "v\n")] {
        assert!(matches!(
            expected_manifest(commit, version, 1, &[0u8; 32]),
            Err(ReleaseError::NotSingleLine)
        ));
    }
}

#[test]
fn manifest_is_checked_against_the_image() {
    let image = b"abc";
    let (hash, size) = artifact_hash(image);
    assert_eq!(size, 3);
    assert_eq!(
        encode_hex(&hash),
        "ba7816bf8f01cfea414140de5dae2223b00361a396177a9cb410ff61f20015ad"
    );
    let text = manifest("c0ffee", "1.0.4", size, &hash);
    assert_eq!(
        check_manifest(&text, image).ok().unwrap(),
        (hash, size)
    );
    assert!(matches!(
        check_manifest(&text, b"abd"),
        Err(ReleaseError::ManifestMismatch)
    ));
    assert!(matches!(
        check_manifest(text.trim_end(), image),
        Err(ReleaseError::NotCanonical)
    ));
    assert!(matches!(
        check_manifest(&text.replace('\n', "\r\n"), image),
        Err(ReleaseError::NotCanonical)
    ));
    match check_manifest(&text.replace("board=", "bord="), image) {
        Err(ReleaseError::Identity(m)) => assert_eq!(m, "manifest is missing board"),
        _ => panic!("accepted"),
    }
}

#[test]
fn hex_round_trip() {
    let bytes: Vec<u8> = (0..=255).collect();
    let text = encode_hex(&bytes);
    assert_eq!(&text[..12], "000102030405");
    assert_eq!(&text[500..], "fafbfcfdfeff");
    let back: [u8; 256] = decode_hex(&format!("\u{3000} \t{text}\n"), "bytes").unwrap();
    assert_eq!(back.to_vec(), bytes);
    assert_eq!(decode_hex::<2>("aBcD", "two").unwrap(), [0xab, 0xcd]);
    for bad in ["", "abc", "abcde", "abcg", "ab cd", "\u{e4}b1"] {
        assert_eq!(
            decode_hex::<2>(bad, "two").unwrap_err(),
            "two must be exactly 4 hexadecimal characters"
        );
    }
}

#[test]
fn exact_lengths() {
    assert_eq!(read_exact::<3>(&[1, 2, 3], "three").unwrap(), [1, 2, 3]);
    assert_eq!(
        read_exact::<64>(&[0u8; 63], "manifest signature").unwrap_err(),
        "manifest signature must be exactly 64 bytes; got 63"
    );
}

#[test]
fn key_file_modes() {
    assert!(is_private_mode(0o100600));
    assert!(is_private_mode(0o700));
    assert!(!is_private_mode(0o640));
    assert!(!is_private_mode(0o604));
    assert!(!is_private_mode(0o100601));
}

#[test]
fn generated_keys_sign_and_verify() {
    let (secret, public) = new_keypair();
    let text = format!("{}\n", encode_hex(&public));
    assert!(check_signing_key(&secret, &text).is_ok());
    let key = check_public_key(&text, &text).ok().unwrap();
    assert_eq!(key, public);
    let signature = sign_manifest("m", &secret).ok().unwrap();
    assert!(check_signature("m", &key, &signature).is_ok());
    let (other, _) = new_keypair();
    assert_ne!(secret, other);
    assert!(matches!(
        check_signing_key(&other, &text),
        Err(ReleaseError::KeyMismatch)
    ));
}

#[test]
fn signing_is_deterministic() {
    let secret = [5u8; 32];
    assert_eq!(
        sign_manifest("m", &secret).ok().unwrap(),
        sign_manifest("m", &secret).ok().unwrap()
    );
    assert_ne!(
        sign_manifest("m", &secret).ok().unwrap(),
        sign_manifest("n", &secret).ok().unwrap()
    );
}

#[test]
fn invalid_private_keys() {
    for key in [[0u8; 32], [0xFFu8; 32]] {
        assert!(matches!(
            check_signing_key(&key, "00"),
            Err(ReleaseError::InvalidPrivateKey)
        ));
        assert!(matches!(
            sign_manifest("m", &key),
            Err(ReleaseError::InvalidPrivateKey)
        ));
    }
    match check_signing_key(&[1u8; 32], "00") {
        Err(ReleaseError::NotHex(m)) => assert_eq!(
            m,
            "release public key must be exactly 64 hexadecimal characters"
        ),
        _ => panic!("accepted"),
    }
}

#[test]
fn public_key_errors() {
    let zero = "00".repeat(32);
    let one = "01".repeat(32);
    assert!(matches!(
        check_public_key(&zero, &zero),
        Err(ReleaseError::ZeroPublicKey)
    ));
    assert!(matches!(
        check_public_key(&one, &zero),
        Err(ReleaseError::AnchorMismatch)
    ));
    match check_public_key("x", &one) {
        Err(ReleaseError::NotHex(m)) => assert!(m.starts_with("release public key must")),
        _ => panic!("accepted"),
    }
    match check_public_key(&one, "x") {
        Err(ReleaseError::NotHex(m)) => assert!(m.starts_with("compiled release public key must")),
        _ => panic!("accepted"),
    }
    assert_eq!(check_public_key(&one, &one).ok().unwrap(), [1u8; 32]);
}

#[test]
fn signature_errors() {
    let secret = [9u8; 32];
    let signature = sign_manifest("m", &secret).ok().unwrap();
    assert!(matches!(
        check_signature("m", &[0xFFu8; 32], &signature),
        Err(ReleaseError::InvalidPublicKey)
    ));
    assert!(matches!(
        check_signature("m", &[1u8; 32], &[0u8; 64]),
        Err(ReleaseError::InvalidSignature)
    ));
    assert!(matches!(
        check_signature("m", &[1u8; 32], &[0xFFu8; 64]),
        Err(ReleaseError::InvalidSignature)
    ));
}

/// The public key of a private key, in hexadecimal.
fn public_text(secret: &[u8; 32]) -> String {
    let key = k256::schnorr::SigningKey::from_bytes(secret).unwrap();
    encode_hex(&key.verifying_key().to_bytes())
}

#[test]
fn whole_releases_are_verified() {
    let secret = [7u8; 32];
    let other = [8u8; 32];
    let mut image = vec![0u8; APP_OFFSET + 1];
    image[0] = 0xE9;
    image[PARTITION_TABLE_OFFSET] = 0xAA;
    image[PARTITION_TABLE_OFFSET + 1] = 0x50;
    image[APP_OFFSET] = 0xE9;
    let (hash, size) = artifact_hash(&image);
    let text = manifest("commit-id", "4.1.0", size, &hash);
    let signature = sign_manifest(&text, &secret).ok().unwrap();
    let public = public_text(&secret);
    assert_eq!(
        verify_release(&image, &text, &signature, &public, &public).ok(),
        Some((hash, size))
    );
    assert!(matches!(
        verify_release(&image[1..], &text, &signature, &public, &public),
        Err(ReleaseError::Image(_))
    ));
    assert!(matches!(
        verify_release(&image, &text[..text.len() - 1], &signature, &public, &public),
        Err(ReleaseError::NotCanonical)
    ));
    assert!(matches!(
        verify_release(&image, "format=x\n", &signature, &public, &public),
        Err(ReleaseError::Identity(_))
    ));
    let mut changed = image.clone();
    changed[1] = 1;
    assert!(matches!(
        verify_release(&changed, &text, &signature, &public, &public),
        Err(ReleaseError::ManifestMismatch)
    ));
    assert!(matches!(
        verify_release(&image, &text, &signature, "x", &public),
        Err(ReleaseError::NotHex(_))
    ));
    assert!(matches!(
        verify_release(&image, &text, &signature, &public_text(&other), &public),
        Err(ReleaseError::AnchorMismatch)
    ));
    let zero = "00".repeat(32);
    assert!(matches!(
        verify_release(&image, &text, &signature, &zero, &zero),
        Err(ReleaseError::ZeroPublicKey)
    ));
    match verify_release(&image, &text, &signature[..63], &public, &public) {
        Err(ReleaseError::SignatureLength(m)) => {
            assert_eq!(m, "manifest signature must be exactly 64 bytes; got 63")
        }
        _ => panic!("accepted"),
    }
    assert!(matches!(
        verify_release(&image, &text, &[0u8; 64], &public, &public),
        Err(ReleaseError::InvalidSignature)
    ));
    let wrong = sign_manifest(&text, &other).ok().unwrap();
    assert!(matches!(
        verify_release(&image, &text, &wrong, &public, &public),
        Err(ReleaseError::SignatureRejected)
    ));
}

#[test]
fn public_keys_are_coordinates_of_points() {
    let signature = sign_manifest("m", &[9u8; 32]).ok().unwrap();
    // One cubed plus seven is a square modulo the field prime; seven and five
    // cubed plus seven are not.
    for (x, on_curve) in [(0u8, false), (1, true), (5, false)] {
        let mut key = [0u8; 32];
        key[31] = x;
        assert_eq!(
            matches!(
                check_signature("m", &key, &signature),
                Err(ReleaseError::SignatureRejected)
            ),
            on_curve
        );
    }
}
