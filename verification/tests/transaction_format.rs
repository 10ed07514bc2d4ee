use kassigner::wallet::pskt::{
    parse_pskt, parse_signed_pskt_v2, serialize_pskt, serialize_signed_pskt,
    serialize_signed_pskt_v2, PsktError,
};
use kassigner::wallet::response::{SignedResponse, MAX_SIGNATURES};
use kassigner::wallet::status::{is_fully_signed, signature_status};
use kassigner::wallet::transaction::{SigHashType, Transaction};

/// One input, one output, no payload; every field different.
fn unsigned_bytes() -> Vec<u8> {
    let mut b = b"KSPT".to_vec();
    b.extend([1, 0]);
    b.extend([0x02, 0x01]); // version 258
    b.extend([1, 1]);
    b.extend([8, 7, 6, 5, 4, 3, 2, 1]); // locktime
    b.extend([0x31; 20]);
    b.extend([9, 0, 0, 0, 0, 0, 0, 0]); // gas
    b.extend([0, 0]);
    b.extend([0xDE; 32]);
    b.extend([4, 3, 2, 1]); // index
    b.extend([0, 0xCA, 0x9A, 0x3B, 0, 0, 0, 0]); // 1_000_000_000
    b.extend([0xFF; 8]); // sequence
    b.push(5);
    b.extend([7, 0]); // script version
    b.push(3);
    b.extend([0xA1, 0xA2, 0xA3]);
    b.extend([0x10, 0x27, 0, 0, 0, 0, 0, 0]); // 10_000
    b.extend([0, 1]);
    b.push(2);
    b.extend([0xB1, 0xB2]);
    b
}

fn parsed(data: &[u8]) -> Result<Transaction, PsktError> {
    let mut tx = Transaction::new();
    parse_pskt(data, &mut tx).map(|_| tx)
}

fn parsed_signed(data: &[u8]) -> Result<Transaction, PsktError> {
    let mut tx = Transaction::new();
    parse_signed_pskt_v2(data, &mut tx).map(|_| tx)
}

/// A one-input, one-output transaction that pays to single keys.
fn simple() -> Transaction {
    let mut tx = Transaction::new();
    tx.num_inputs = 1;
    tx.num_outputs = 1;
    tx.inputs[0].utxo_entry.amount = 1000;
    tx.inputs[0].utxo_entry.script_public_key.script[0] = 0x20;
    tx.inputs[0].utxo_entry.script_public_key.script[33] = 0xAC;
    tx.inputs[0].utxo_entry.script_public_key.script_len = 34;
    tx.outputs[0].value = 900;
    tx
}

#[test]
fn unsigned_fields_are_read() {
    let tx = parsed(&unsigned_bytes()).unwrap();
    assert_eq!(tx.version, 258);
    assert_eq!((tx.num_inputs, tx.num_outputs), (1, 1));
    assert_eq!(tx.locktime, 0x0102_0304_0506_0708);
    assert_eq!(tx.subnetwork_id, [0x31; 20]);
    assert!(!tx.is_native());
    assert_eq!(tx.gas, 9);
    assert_eq!(tx.payload_len, 0);
    let input = &tx.inputs()[0];
    assert_eq!(input.previous_outpoint.transaction_id, [0xDE; 32]);
    assert_eq!(input.previous_outpoint.index, 0x0102_0304);
    assert_eq!(input.utxo_entry.amount, 1_000_000_000);
    assert_eq!(input.sequence, u64::MAX);
    assert_eq!(input.sig_op_count, 5);
    assert_eq!(input.utxo_entry.script_public_key.version, 7);
    assert_eq!(
        input.utxo_entry.script_public_key.script_bytes(),
        &[0xA1, 0xA2, 0xA3]
    );
    let output = &tx.outputs()[0];
    assert_eq!(output.value, 10_000);
    assert_eq!(output.script_public_key.version, 256);
    assert_eq!(output.script_public_key.script_bytes(), &[0xB1, 0xB2]);
    assert!(!output.has_covenant);
}

#[test]
fn unsigned_bytes_are_written_as_they_were_read() {
    let bytes = unsigned_bytes();
    let tx = parsed(&bytes).unwrap();
    let mut out = [0xEEu8; 256];
    let n = serialize_pskt(&tx, &mut out).unwrap();
    assert_eq!(&out[..n], &bytes[..]);
    assert!(out[n..].iter().all(|b| *b == 0xEE));
}

#[test]
fn every_truncation_is_refused() {
    let bytes = unsigned_bytes();
    for n in 0..bytes.len() {
        assert_eq!(parsed(&bytes[..n]).err(), Some(PsktError::BufferTooShort));
    }
    let mut longer = bytes.clone();
    longer.push(0);
    assert!(parsed(&longer).is_ok());
}

#[test]
fn unsigned_errors() {
    let bytes = unsigned_bytes();
    for (at, value, error) in [
        (0, 0, PsktError::InvalidMagic),
        (4, 2, PsktError::UnsupportedVersion),
        (8, 0, PsktError::NoInputs),
        (8, 9, PsktError::TooManyInputs),
        (9, 0, PsktError::NoOutputs),
        (9, 9, PsktError::TooManyOutputs),
        (47, 4, PsktError::PayloadTooLong),
    ] {
        let mut bad = bytes.clone();
        bad[at] = value;
        assert_eq!(parsed(&bad).err(), Some(error));
    }
    // Input script length 513.
    let mut bad = bytes.clone();
    bad[103] = 0xFF;
    bad[104] = 0x01;
    bad[105] = 0x02;
    assert_eq!(parsed(&bad).err(), Some(PsktError::ScriptTooLong));
}

#[test]
fn parsing_forgets_what_was_there() {
    let mut tx = Transaction::new();
    tx.num_outputs = 8;
    tx.outputs[7].value = 5;
    tx.inputs[3].sig_count = 2;
    parse_pskt(&unsigned_bytes(), &mut tx).unwrap();
    assert_eq!(tx.num_outputs, 1);
    assert_eq!(tx.outputs[7].value, 0);
    assert_eq!(tx.inputs[3].sig_count, 0);
}

#[test]
fn covenants_and_redeem_scripts_are_read() {
    let mut bytes = unsigned_bytes();
    bytes[5] = 0x06;
    // Behind the input script: a redeem script.
    bytes.splice(107..107, [2, 0xC1, 0xC2]);
    bytes.extend([1, 0x34, 0x12]);
    bytes.extend([0x77; 32]);
    let tx = parsed(&bytes).unwrap();
    assert_eq!(tx.redeem_bytes(0), &[0xC1, 0xC2]);
    assert!(tx.outputs[0].has_covenant);
    assert_eq!(tx.outputs[0].covenant_auth_input, 0x1234);
    assert_eq!(tx.outputs[0].covenant_id, [0x77; 32]);
    // Writing keeps the covenant, not the redeem script.
    let mut out = [0u8; 256];
    let n = serialize_pskt(&tx, &mut out).unwrap();
    let again = parsed(&out[..n]).unwrap();
    assert_eq!(out[5], 0x04);
    assert!(again.outputs[0].has_covenant);
    assert_eq!(again.outputs[0].covenant_id, [0x77; 32]);
    assert_eq!(again.redeem_bytes(0), &[] as &[u8]);
}

#[test]
fn long_scripts_have_long_lengths() {
    let mut tx = simple();
    tx.outputs[0].script_public_key.script_len = 255;
    tx.outputs[0].script_public_key.script[254] = 0x5A;
    let mut out = [0u8; 1024];
    let n = serialize_pskt(&tx, &mut out).unwrap();
    assert_eq!(&out[n - 258..n - 255], &[0xFF, 0xFF, 0x00]);
    let again = parsed(&out[..n]).unwrap();
    assert_eq!(again.outputs[0].script_public_key.script_bytes().len(), 255);
    assert_eq!(again.outputs[0].script_public_key.script_bytes()[254], 0x5A);
}

#[test]
fn payloads_are_carried() {
    let mut tx = simple();
    tx.payload_len = 300;
    tx.payload[299] = 0x42;
    let mut out = [0u8; 1024];
    let n = serialize_pskt(&tx, &mut out).unwrap();
    assert_eq!(&out[46..48], &[0x2C, 0x01]);
    let again = parsed(&out[..n]).unwrap();
    assert_eq!(again.payload_len, 300);
    assert_eq!(again.payload[299], 0x42);
}

#[test]
fn small_buffers_are_refused() {
    let tx = simple();
    let mut out = [0u8; 1024];
    let n = serialize_pskt(&tx, &mut out).unwrap();
    for size in 0..n {
        let mut small = vec![0u8; size];
        assert_eq!(
            serialize_pskt(&tx, &mut small),
            Err(PsktError::OutputBufferTooSmall)
        );
    }
    assert_eq!(serialize_pskt(&tx, &mut vec![0u8; n]), Ok(n));
}

#[test]
fn only_whole_fields_reach_a_small_buffer() {
    let tx = parsed(&unsigned_bytes()).unwrap();
    // Magic, version, flags and the transaction version fill eight bytes; the
    // locktime needs bytes 10 to 17.
    for (room, written) in [(3, 0), (4, 4), (7, 6), (9, 9), (17, 10), (18, 18), (49, 48)] {
        let mut out = vec![0x5Au8; room];
        assert_eq!(
            serialize_pskt(&tx, &mut out),
            Err(PsktError::OutputBufferTooSmall)
        );
        assert_eq!(&out[..written], &unsigned_bytes()[..written]);
        assert!(out[written..].iter().all(|b| *b == 0x5A));
    }
    let mut response = SignedResponse::new();
    response
        .add_signature(3, SigHashType::All, &[0x2C; 64])
        .unwrap();
    let mut out = [0x5Au8; 71];
    assert_eq!(
        response.serialize(&mut out),
        Err(PsktError::OutputBufferTooSmall)
    );
    assert_eq!(&out[..9], &[b'K', b'S', b'S', b'N', 1, 1, 3, 0x01, 0x5A]);
}

#[test]
fn single_signatures_are_written() {
    let mut tx = simple();
    let mut out = [0u8; 512];
    let unsigned = serialize_pskt(&tx, &mut out).unwrap();
    assert_eq!(serialize_signed_pskt(&tx, &mut out), Ok(unsigned + 1));
    tx.inputs[0].signature = [0x5C; 64];
    tx.inputs[0].sig_len = 64;
    tx.inputs[0].sighash_type = 0x81;
    let n = serialize_signed_pskt(&tx, &mut out).unwrap();
    assert_eq!(n, unsigned + 66);
    assert_eq!((out[4], out[5]), (1, 0x01));
    assert_eq!(out[138], 64);
    assert_eq!(&out[139..203], &[0x5C; 64]);
    assert_eq!(out[203], 0x81);
    tx.outputs[0].has_covenant = true;
    let n = serialize_signed_pskt(&tx, &mut out).unwrap();
    assert_eq!(n, unsigned + 66 + 35);
    assert_eq!(out[5], 0x05);
}

#[test]
fn single_signed_is_unsigned_with_blocks() {
    let mut tx = simple();
    tx.num_inputs = 2;
    tx.inputs[1].utxo_entry.amount = 2000;
    tx.inputs[1].signature = [0x5C; 64];
    tx.inputs[1].sig_len = 64;
    tx.inputs[1].sighash_type = 0x01;
    tx.outputs[0].has_covenant = true;
    let mut plain = [0u8; 512];
    let mut signed = [0u8; 512];
    let n = serialize_pskt(&tx, &mut plain).unwrap();
    let m = serialize_signed_pskt(&tx, &mut signed).unwrap();
    assert_eq!(m, n + 1 + 66);
    assert_eq!(signed[5], plain[5] | 0x01);
    // The first input ends at 138, the second, without a script, 56 later.
    let mut left = signed[..m].to_vec();
    assert_eq!(left.remove(138), 0);
    let block: Vec<u8> = left.drain(194..260).collect();
    assert_eq!((block[0], block[65]), (64, 0x01));
    assert_eq!(&block[1..65], &[0x5C; 64]);
    left[5] = plain[5];
    assert_eq!(left, &plain[..n]);
}

/// A 2-of-3 multisig script with keys of repeated bytes.
fn multisig_script(keys: &[u8]) -> Vec<u8> {
    let mut s = vec![0x52];
    for k in keys {
        s.push(0x20);
        s.extend([*k; 32]);
    }
    s.push(0x50 + keys.len() as u8);
    s.push(0xAE);
    s
}

fn script_hash_transaction(redeem: &[u8]) -> Transaction {
    let mut tx = simple();
    let spk = &mut tx.inputs[0].utxo_entry.script_public_key;
    spk.script = [0u8; 512];
    spk.script[0] = 0xAA;
    spk.script[1] = 0x20;
    spk.script[34] = 0x87;
    spk.script_len = 35;
    tx.store_redeem(0, redeem).unwrap();
    tx
}

#[test]
fn partial_signatures_reach_the_next_signer() {
    let redeem = multisig_script(&[1, 2, 3]);
    let mut tx = script_hash_transaction(&redeem);
    tx.inputs[0].sigs[0].present = true;
    tx.inputs[0].sigs[0].pubkey_pos = 2;
    tx.inputs[0].sigs[0].sighash_type = 1;
    tx.inputs[0].sigs[0].signature = [0x6D; 64];
    tx.inputs[0].sig_count = 1;
    tx.inputs[0].sig_len = 64;
    let mut out = [0u8; 1024];
    let n = serialize_signed_pskt_v2(&tx, &mut out).unwrap();
    assert_eq!((out[4], out[5]), (3, 0));
    let got = parsed_signed(&out[..n]).unwrap();
    assert_eq!(got.redeem_bytes(0), &redeem[..]);
    assert_eq!(got.inputs[0].sig_count, 1);
    assert_eq!(got.inputs[0].sigs[0].signature, [0x6D; 64]);
    assert_eq!(got.inputs[0].sigs[0].pubkey_pos, 2);
    assert!(got.inputs[0].sigs[0].present);
    assert_eq!(got.inputs[0].signature, [0x6D; 64]);
    assert_eq!(got.inputs[0].sig_len, 64);
    assert_eq!(signature_status(&got), (1, 2));
    assert_eq!(signature_status(&tx), (1, 2));
    assert!(!is_fully_signed(&got));
    // A second signature completes it, and the flag says so.
    let mut tx = got;
    tx.inputs[0].sigs[1].present = true;
    tx.inputs[0].sig_count = 2;
    let n = serialize_signed_pskt_v2(&tx, &mut out).unwrap();
    assert_eq!(out[5], 1);
    let got = parsed_signed(&out[..n]).unwrap();
    assert!(is_fully_signed(&got));
    assert_eq!(signature_status(&got), (2, 2));
}

#[test]
fn large_redeem_scripts_go_to_the_pool_and_come_back() {
    let redeem: Vec<u8> = (0..1000usize).map(|i| (i % 251) as u8).collect();
    let tx = script_hash_transaction(&redeem);
    assert!(tx.inputs[0].redeem_in_pool);
    let mut out = [0u8; 2048];
    let n = serialize_signed_pskt_v2(&tx, &mut out).unwrap();
    let got = parsed_signed(&out[..n]).unwrap();
    assert_eq!(got.redeem_bytes(0), &redeem[..]);
}

#[test]
fn signed_errors() {
    let tx = simple();
    let mut out = [0u8; 512];
    let n = serialize_signed_pskt_v2(&tx, &mut out).unwrap();
    let good = out[..n].to_vec();
    assert!(parsed_signed(&good).is_ok());
    for size in 0..n {
        assert_eq!(
            parsed_signed(&good[..size]).err(),
            Some(PsktError::BufferTooShort)
        );
    }
    for (at, value, error) in [
        (3, 0, PsktError::InvalidMagic),
        (4, 1, PsktError::UnsupportedVersion),
        (8, 0, PsktError::NoInputs),
        (8, 9, PsktError::TooManyInputs),
        (9, 0, PsktError::NoOutputs),
        (9, 9, PsktError::TooManyOutputs),
        (47, 4, PsktError::PayloadTooLong),
    ] {
        let mut bad = good.clone();
        bad[at] = value;
        assert_eq!(parsed_signed(&bad).err(), Some(error));
    }
    // Six signatures.
    let mut bad = good.clone();
    bad[138] = 6;
    bad.extend([0u8; 500]);
    assert_eq!(parsed_signed(&bad).err(), Some(PsktError::TooManyInputs));
    // A redeem script of 1025 bytes.
    let mut bad = good.clone();
    bad[139] = 0x01;
    bad[140] = 0x04;
    assert_eq!(parsed_signed(&bad).err(), Some(PsktError::ScriptTooLong));
}

#[test]
fn version_two_has_short_redeem_lengths() {
    let tx = simple();
    let mut out = [0u8; 512];
    let n = serialize_signed_pskt_v2(&tx, &mut out).unwrap();
    let mut v2 = out[..n].to_vec();
    v2[4] = 2;
    v2.splice(139..141, [2, 0xC1, 0xC2]);
    let got = parsed_signed(&v2).unwrap();
    assert_eq!(got.redeem_bytes(0), &[0xC1, 0xC2]);
    assert_eq!(got.outputs[0].value, 900);
}

#[test]
fn trailers_are_read() {
    let tx = simple();
    let mut out = [0u8; 512];
    let n = serialize_signed_pskt_v2(&tx, &mut out).unwrap();
    let mut data = out[..n].to_vec();
    data.push(0x53);
    data.extend([0x21; 32]);
    data.extend([0x43, 0, 0x02, 0x01]);
    data.extend([0x65; 32]);
    data.extend([0x43, 5, 0, 0]);
    data.extend([0x66; 32]);
    let got = parsed_signed(&data).unwrap();
    assert!(got.has_stealth_tweak);
    assert_eq!(got.stealth_tweak, [0x21; 32]);
    assert!(got.outputs[0].has_covenant);
    assert_eq!(got.outputs[0].covenant_auth_input, 0x0102);
    assert_eq!(got.outputs[0].covenant_id, [0x65; 32]);
    assert!(!got.outputs[5].has_covenant);
    // A cut-off trailer is ignored.
    let got = parsed_signed(&data[..n + 32]).unwrap();
    assert!(!got.has_stealth_tweak);
}

#[test]
fn counts_are_checked_before_the_rest() {
    let short = [0x4B, 0x53, 0x50, 0x54, 0x03, 0, 0, 0, 0, 1];
    assert_eq!(parsed_signed(&short).err(), Some(PsktError::NoInputs));
    let short = [0x4B, 0x53, 0x50, 0x54, 0x03, 0, 0, 0, 1, 0];
    assert_eq!(parsed_signed(&short).err(), Some(PsktError::NoOutputs));
}

#[test]
fn bytes_behind_change_nothing() {
    let mut data = unsigned_bytes();
    let plain = parsed(&data).unwrap();
    data.extend([0x53, 0x43, 0xFF, 0x00]);
    let more = parsed(&data).unwrap();
    let mut a = [0u8; 256];
    let mut b = [0u8; 256];
    let n = serialize_pskt(&plain, &mut a).unwrap();
    assert_eq!(serialize_pskt(&more, &mut b), Ok(n));
    assert_eq!(a, b);
    assert!(!more.has_stealth_tweak);
}

#[test]
fn responses_round_trip() {
    let mut r = SignedResponse::new();
    assert!(r.add_signature(3, SigHashType::Single, &[0x0F; 64]).is_ok());
    assert!(r
        .add_signature(4, SigHashType::AllAnyOneCanPay, &[0x1F; 64])
        .is_ok());
    let mut out = [0u8; 200];
    let n = r.serialize(&mut out).unwrap();
    assert_eq!(n, 6 + 2 * 66);
    assert_eq!(&out[..8], &[b'K', b'S', b'S', b'N', 1, 2, 3, 0x04]);
    let back = SignedResponse::parse(&out[..n]).unwrap();
    assert_eq!(back.num_signatures, 2);
    assert_eq!(back.signatures[1].input_index, 4);
    assert_eq!(back.signatures[1].sighash_type, SigHashType::AllAnyOneCanPay);
    assert_eq!(back.signatures[1].signature, [0x1F; 64]);
    let mut small = [0u8; 137];
    assert_eq!(
        r.serialize(&mut small),
        Err(PsktError::OutputBufferTooSmall)
    );
}

#[test]
fn response_errors() {
    let mut r = SignedResponse::new();
    for i in 0..MAX_SIGNATURES {
        assert!(r
            .add_signature(i as u8, SigHashType::All, &[i as u8; 64])
            .is_ok());
    }
    assert_eq!(
        r.add_signature(8, SigHashType::All, &[0; 64]),
        Err(PsktError::TooManyInputs)
    );
    let mut out = [0u8; 600];
    let n = r.serialize(&mut out).unwrap();
    let good = out[..n].to_vec();
    for size in 0..n {
        assert_eq!(
            SignedResponse::parse(&good[..size]).err(),
            Some(PsktError::BufferTooShort)
        );
    }
    for (at, value, error) in [
        (2, 0, PsktError::InvalidMagic),
        (4, 2, PsktError::UnsupportedVersion),
        (5, 9, PsktError::TooManyInputs),
        (7, 0x80, PsktError::InvalidSigHashType),
    ] {
        let mut bad = good.clone();
        bad[at] = value;
        assert_eq!(SignedResponse::parse(&bad).err(), Some(error));
    }
}
