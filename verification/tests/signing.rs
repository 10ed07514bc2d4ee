use k256::elliptic_curve::sec1::ToEncodedPoint;
use kassigner::wallet::cosigning::sign_transaction_multisig;
use kassigner::wallet::covenant::candidate_keys;
use kassigner::wallet::keys::{ExtendedPrivKey, InvalidKey, KeySource};
use kassigner::wallet::pskt::PsktError;
use kassigner::wallet::selftest::{
    run_pskt_tests, test_full_sign_flow, test_invalid_magic, test_nine_inputs_rejected,
    test_serialize_parse_roundtrip, test_signed_response_size, test_standard_signed_input_count,
};
use kassigner::wallet::signing::{
    sign_transaction, sign_transaction_in_place, sign_transaction_multi_addr,
};
use kassigner::wallet::status::{is_fully_signed, signature_status};
use kassigner::wallet::transaction::{SigHashType, Transaction};

type Key = ExtendedPrivKey;

fn key(b: u8) -> Key {
    ExtendedPrivKey {
        private_key: [b; 32],
        chain_code: [0; 32],
        depth: 3,
    }
}

fn x_only(b: u8) -> [u8; 32] {
    let c = key(b).public_key_compressed().ok().unwrap();
    c[1..].try_into().unwrap()
}

/// A signature that tells the input and the key.
fn mark(i: usize, k: &[u8; 32]) -> [u8; 64] {
    let mut s = [k[31]; 64];
    s[0] = i as u8;
    s
}

fn sign(_: &Transaction, i: usize, k: &[u8; 32], _: SigHashType) -> Result<[u8; 64], ()> {
    if k[0] == 0xBD {
        Err(())
    } else {
        Ok(mark(i, k))
    }
}

/// The account of a seed has the private key of its first byte. Its receive
/// address `i` has that byte plus `i`, its change address plus 16 more. Ten
/// addresses each are searched, four are in the table.
fn search(account: &Key, target: &[u8; 32], n: u32) -> Option<(u32, bool)> {
    let base = account.private_key[0];
    for i in 1..=n {
        if x_only(base + i as u8) == *target {
            return Some((i, false));
        }
        if x_only(base + 16 + i as u8) == *target {
            return Some((i, true));
        }
    }
    None
}

fn account_of(seed: &[u8; 64]) -> Result<Key, ()> {
    if seed[0] == 0 {
        Err(())
    } else {
        Ok(key(seed[0]))
    }
}

fn find_all(a: &Key, t: &[u8; 32]) -> Option<(u32, bool)> {
    search(a, t, 10)
}

fn find_few(a: &Key, t: &[u8; 32]) -> Option<(u32, bool)> {
    search(a, t, 4)
}

fn receive(a: &Key, i: u32) -> Result<Key, ()> {
    Ok(key(a.private_key[0] + i as u8))
}

fn change(a: &Key, i: u32) -> Result<Key, ()> {
    Ok(key(a.private_key[0] + 16 + i as u8))
}

fn source() -> KeySource<
    fn(&[u8; 64]) -> Result<Key, ()>,
    fn(&Key, &[u8; 32]) -> Option<(u32, bool)>,
    fn(&Key, &[u8; 32]) -> Option<(u32, bool)>,
    fn(&Key, u32) -> Result<Key, ()>,
    fn(&Key, u32) -> Result<Key, ()>,
    fn(&Transaction, usize, &[u8; 32], SigHashType) -> Result<[u8; 64], ()>,
> {
    KeySource {
        derive_account_key: account_of,
        find_address_index_for_pubkey: find_all,
        find_by_pubkey: find_few,
        derive_address_key: receive,
        derive_change_key: change,
        sign_input: sign,
    }
}

fn p2pk(tx: &mut Transaction, i: usize, target: &[u8; 32]) {
    let spk = &mut tx.inputs[i].utxo_entry.script_public_key;
    spk.script[0] = 0x20;
    spk.script[1..33].copy_from_slice(target);
    spk.script[33] = 0xAC;
    spk.script_len = 34;
}

fn p2sh(tx: &mut Transaction, i: usize, redeem: &[u8]) {
    let spk = &mut tx.inputs[i].utxo_entry.script_public_key;
    spk.script[0] = 0xAA;
    spk.script[1] = 0x20;
    spk.script[34] = 0x87;
    spk.script_len = 35;
    tx.store_redeem(i, redeem).unwrap();
}

fn multisig(m: u8, keys: &[[u8; 32]]) -> Vec<u8> {
    let mut s = vec![0x50 + m];
    for k in keys {
        s.push(0x20);
        s.extend(k);
    }
    s.push(0x50 + keys.len() as u8);
    s.push(0xAE);
    s
}

fn inputs(n: usize) -> Transaction {
    let mut tx = Transaction::new();
    tx.num_inputs = n;
    tx.num_outputs = 1;
    tx
}

fn loaded(b: u8) -> ([u8; 64], bool) {
    ([b; 64], true)
}

#[test]
fn compressed_public_keys() {
    let mut one = key(0);
    one.private_key[31] = 1;
    let c = one.public_key_compressed().ok().unwrap();
    assert_eq!(c[0], 2);
    assert_eq!(&c[1..5], &[0x79, 0xBE, 0x66, 0x7E]);
    assert_eq!(key(0).public_key_compressed(), Err(InvalidKey));
    assert_eq!(key(0xFF).public_key_compressed(), Err(InvalidKey));
}

#[test]
fn every_input_is_signed_into_a_response() {
    let tx = inputs(3);
    let r = sign_transaction(&tx, &[7; 32], SigHashType::Single, &sign).unwrap();
    assert_eq!(r.num_signatures, 3);
    assert_eq!(r.signatures[2].input_index, 2);
    assert_eq!(r.signatures[2].sighash_type, SigHashType::Single);
    assert_eq!(r.signatures[2].signature, mark(2, &[7; 32]));
    assert_eq!(r.signatures[3].signature, [0; 64]);
    assert_eq!(
        sign_transaction(&tx, &[0xBD; 32], SigHashType::All, &sign).err(),
        Some(PsktError::NoInputs)
    );
}

#[test]
fn every_input_is_signed_in_place() {
    let mut tx = inputs(2);
    assert_eq!(
        sign_transaction_in_place(&mut tx, &[7; 32], SigHashType::All, &sign),
        Ok(2)
    );
    assert_eq!(tx.inputs[1].signature, mark(1, &[7; 32]));
    assert_eq!((tx.inputs[1].sig_len, tx.inputs[1].sighash_type), (64, 1));
    assert_eq!(tx.inputs[2].sig_len, 0);
    assert_eq!(
        sign_transaction_in_place(&mut tx, &[0xBD; 32], SigHashType::All, &sign),
        Err(PsktError::NoInputs)
    );
}

#[test]
fn signing_in_place_stops_where_the_signer_fails() {
    let mut tx = inputs(3);
    tx.inputs[2].signature = [0x77; 64];
    let fails_on_one = |t: &Transaction, i: usize, k: &[u8; 32], h: SigHashType| {
        // The inputs in front are signed by now.
        assert_eq!(t.inputs[0].sig_len, if i == 0 { 0 } else { 64 });
        if i == 1 {
            Err(())
        } else {
            sign(t, i, k, h)
        }
    };
    assert_eq!(
        sign_transaction_in_place(&mut tx, &[7; 32], SigHashType::All, &fails_on_one),
        Err(PsktError::NoInputs)
    );
    assert_eq!(tx.inputs[0].signature, mark(0, &[7; 32]));
    assert_eq!((tx.inputs[1].sig_len, tx.inputs[1].signature), (0, [0; 64]));
    assert_eq!((tx.inputs[2].sig_len, tx.inputs[2].signature), (0, [0x77; 64]));
}

#[test]
fn inputs_of_an_account_are_signed() {
    let mut tx = inputs(4);
    p2pk(&mut tx, 0, &x_only(0x42)); // receive 2
    p2pk(&mut tx, 1, &x_only(0x53)); // change 3
    p2pk(&mut tx, 2, &x_only(0x99)); // foreign
    p2sh(&mut tx, 3, &[1, 2, 3]);
    assert_eq!(
        sign_transaction_multi_addr(&mut tx, &[0x40; 64], SigHashType::All, &source()),
        Ok(2)
    );
    assert_eq!(tx.inputs[0].signature, mark(0, &[0x42; 32]));
    assert_eq!(tx.inputs[0].sig_count, 1);
    assert!(tx.inputs[0].sigs[0].present);
    assert_eq!(tx.inputs[0].sigs[0].signature, mark(0, &[0x42; 32]));
    assert_eq!(&tx.inputs[0].sigs[0].pubkey_compressed[1..], &x_only(0x42));
    assert_eq!(tx.inputs[1].signature, mark(1, &[0x53; 32]));
    assert_eq!(tx.inputs[2].sig_len, 0);
    assert_eq!(tx.inputs[3].sig_count, 0);
}

#[test]
fn nothing_to_sign_is_an_error() {
    let mut tx = inputs(1);
    p2pk(&mut tx, 0, &x_only(0x99));
    for seed in [[0x40; 64], [0; 64]] {
        assert_eq!(
            sign_transaction_multi_addr(&mut tx, &seed, SigHashType::All, &source()),
            Err(PsktError::NoInputs)
        );
    }
    assert_eq!(tx.inputs[0].sig_len, 0);
}

/// The key that an output to a stealth address is spent with, computed
/// independently.
fn stealth_key(account: &[u8; 32], tweak: &[u8; 32]) -> ([u8; 32], [u8; 33]) {
    let secret = k256::SecretKey::from_slice(account).unwrap();
    let odd = secret.public_key().to_encoded_point(true).as_bytes()[0] == 3;
    let mut base = *secret.to_nonzero_scalar();
    if odd {
        base = -base;
    }
    let sum = base + *k256::SecretKey::from_slice(tweak).unwrap().to_nonzero_scalar();
    let bytes: [u8; 32] = sum.to_bytes().into();
    let public = k256::SecretKey::from_slice(&bytes).unwrap().public_key();
    let point = public.to_encoded_point(true);
    (bytes, point.as_bytes().try_into().unwrap())
}

#[test]
fn stealth_outputs_are_spent_whatever_the_parity() {
    let mut parities = [false; 2];
    for b in 0x21..0x31u8 {
        let account = key(b).public_key_compressed().ok().unwrap();
        parities[account[0] as usize - 2] = true;
        let tweak = [0x77; 32];
        let (secret, public) = stealth_key(&[b; 32], &tweak);
        let mut tx = inputs(1);
        let target: [u8; 32] = public[1..].try_into().unwrap();
        p2pk(&mut tx, 0, &target);
        tx.stealth_tweak = tweak;
        tx.has_stealth_tweak = true;
        assert_eq!(
            sign_transaction_multi_addr(&mut tx, &[b; 64], SigHashType::All, &source()),
            Ok(1)
        );
        assert_eq!(tx.inputs[0].signature, mark(0, &secret));
        assert_eq!(tx.inputs[0].sigs[0].pubkey_compressed, public);
    }
    assert_eq!(parities, [true, true]);
}

#[test]
fn stealth_tweaks_can_fail() {
    let mut tx = inputs(1);
    p2pk(&mut tx, 0, &x_only(0x99));
    tx.has_stealth_tweak = true;
    // Not a scalar.
    tx.stealth_tweak = [0xFF; 32];
    assert_eq!(
        sign_transaction_multi_addr(&mut tx, &[0x40; 64], SigHashType::All, &source()),
        Err(PsktError::NoInputs)
    );
    // A scalar that does not match.
    tx.stealth_tweak = [0x11; 32];
    assert_eq!(
        sign_transaction_multi_addr(&mut tx, &[0x40; 64], SigHashType::All, &source()),
        Err(PsktError::NoInputs)
    );
    assert_eq!(tx.inputs[0].sig_len, 0);
}

#[test]
fn single_key_inputs_are_signed_by_the_first_seed_that_can() {
    let mut tx = inputs(2);
    p2pk(&mut tx, 0, &x_only(0x45)); // receive 5: beyond the table, in the search
    p2pk(&mut tx, 1, &x_only(0x42));
    tx.inputs[1].sig_len = 64;
    tx.inputs[1].signature = [9; 64];
    let seeds = [loaded(0x60), ([0x40; 64], false), loaded(0x40)];
    assert_eq!(
        sign_transaction_multisig(&mut tx, &seeds, SigHashType::All, None, &source()),
        Ok(1)
    );
    assert_eq!(tx.inputs[0].signature, mark(0, &[0x45; 32]));
    assert_eq!(tx.inputs[1].signature, [9; 64]);
}

#[test]
fn multisig_positions_are_signed_by_every_seed() {
    let mut tx = inputs(1);
    let redeem = multisig(2, &[x_only(0x60), x_only(0x99), x_only(0x41)]);
    p2sh(&mut tx, 0, &redeem);
    assert_eq!(signature_status(&tx), (0, 2));
    let seeds = [loaded(0x40), loaded(0x60)];
    assert_eq!(
        sign_transaction_multisig(&mut tx, &seeds, SigHashType::All, None, &source()),
        Ok(2)
    );
    let input = &tx.inputs[0];
    assert_eq!(input.sig_count, 2);
    assert_eq!(input.sigs[0].pubkey_pos, 0);
    assert_eq!(input.sigs[0].signature, mark(0, &[0x60; 32]));
    assert_eq!(input.sigs[1].pubkey_pos, 2);
    assert_eq!(input.sigs[1].signature, mark(0, &[0x41; 32]));
    assert_eq!(input.signature, input.sigs[0].signature);
    assert_eq!(input.sig_len, 64);
    assert!(is_fully_signed(&tx));
    // Once more: nothing is left to do.
    assert_eq!(
        sign_transaction_multisig(&mut tx, &seeds, SigHashType::All, None, &source()),
        Ok(0)
    );
}

#[test]
fn signatures_of_others_stay() {
    let mut tx = inputs(1);
    let redeem = multisig(2, &[x_only(0x60), x_only(0x99)]);
    p2sh(&mut tx, 0, &redeem);
    tx.inputs[0].sigs[0].present = true;
    tx.inputs[0].sigs[0].pubkey_pos = 1;
    tx.inputs[0].sigs[0].signature = [0xC3; 64];
    tx.inputs[0].sig_count = 1;
    assert_eq!(
        sign_transaction_multisig(&mut tx, &[loaded(0x60)], SigHashType::All, None, &source()),
        Ok(1)
    );
    assert_eq!(tx.inputs[0].sigs[0].signature, [0xC3; 64]);
    assert_eq!(tx.inputs[0].sigs[1].pubkey_pos, 0);
    assert_eq!(tx.inputs[0].sig_count, 2);
}

#[test]
fn multisig_search_is_limited_to_the_table() {
    let mut tx = inputs(1);
    p2sh(&mut tx, 0, &multisig(1, &[x_only(0x45), x_only(0x99)]));
    assert_eq!(
        sign_transaction_multisig(&mut tx, &[loaded(0x40)], SigHashType::All, None, &source()),
        Ok(0)
    );
}

#[test]
fn a_seed_signs_every_position_that_it_holds() {
    // An address of the seed at position 0, its account key at 1.
    let mut tx = inputs(1);
    p2sh(&mut tx, 0, &multisig(2, &[x_only(0x41), x_only(0x40)]));
    assert_eq!(
        sign_transaction_multisig(&mut tx, &[loaded(0x40)], SigHashType::All, None, &source()),
        Ok(2)
    );
    assert_eq!(tx.inputs[0].sig_count, 2);
    assert_eq!(tx.inputs[0].sigs[0].pubkey_pos, 0);
    assert_eq!(tx.inputs[0].sigs[0].signature, mark(0, &[0x41; 32]));
    assert_eq!(tx.inputs[0].sigs[1].pubkey_pos, 1);
    assert_eq!(tx.inputs[0].sigs[1].signature, mark(0, &[0x40; 32]));
    assert!(is_fully_signed(&tx));
    // The other way round.
    let mut tx = inputs(1);
    p2sh(&mut tx, 0, &multisig(2, &[x_only(0x40), x_only(0x41)]));
    assert_eq!(
        sign_transaction_multisig(&mut tx, &[loaded(0x40)], SigHashType::All, None, &source()),
        Ok(2)
    );
    assert_eq!(tx.inputs[0].sigs[0].pubkey_pos, 0);
    assert_eq!(tx.inputs[0].sigs[1].pubkey_pos, 1);
}

#[test]
fn one_of_one_multisig_is_signed() {
    let mut tx = inputs(1);
    p2sh(&mut tx, 0, &multisig(1, &[x_only(0x40)]));
    assert_eq!(signature_status(&tx), (0, 1));
    assert_eq!(
        sign_transaction_multisig(&mut tx, &[loaded(0x40)], SigHashType::All, None, &source()),
        Ok(1)
    );
    assert!(is_fully_signed(&tx));
}

#[test]
fn at_most_eight_seeds_take_part() {
    let mut tx = inputs(1);
    p2pk(&mut tx, 0, &x_only(0x42));
    let mut seeds = vec![([0; 64], false); 8];
    seeds.push(loaded(0x40));
    assert_eq!(
        sign_transaction_multisig(&mut tx, &seeds, SigHashType::All, None, &source()),
        Ok(0)
    );
}

/// A salt that looks like key pushes, then a key and a signature check.
fn covenant(keys: &[[u8; 32]]) -> Vec<u8> {
    let mut s = vec![8, 0x20, 0x20, 0x20, 0x20, 0x20, 0x20, 0x20, 0x20, 0x63];
    for k in keys {
        s.push(0x20);
        s.extend(k);
        s.push(0xAC);
        s.push(0x67);
    }
    s
}

#[test]
fn covenants_are_signed_with_the_active_seed() {
    let redeem = covenant(&[x_only(0x40), x_only(0x60)]);
    let seeds = [loaded(0x40), loaded(0x60)];
    let mut tx = inputs(1);
    p2sh(&mut tx, 0, &redeem);
    assert_eq!(
        sign_transaction_multisig(&mut tx, &seeds, SigHashType::All, None, &source()),
        Ok(1)
    );
    assert_eq!(tx.inputs[0].signature, mark(0, &[0x40; 32]));
    let mut tx = inputs(1);
    p2sh(&mut tx, 0, &redeem);
    assert_eq!(
        sign_transaction_multisig(&mut tx, &seeds, SigHashType::All, Some(1), &source()),
        Ok(1)
    );
    assert_eq!(tx.inputs[0].signature, mark(0, &[0x60; 32]));
    assert_eq!(tx.inputs[0].sigs[0].pubkey_pos, 1);
    assert_eq!(tx.inputs[0].sig_count, 1);
    assert!(is_fully_signed(&tx));
    assert_eq!(
        sign_transaction_multisig(&mut tx, &seeds, SigHashType::All, None, &source()),
        Ok(0)
    );
}

#[test]
fn the_active_seed_signs_as_if_alone() {
    let seeds = [loaded(0x40), loaded(0x60)];
    let alone = [([0x40; 64], false), loaded(0x60)];
    let sign_both = |seeds: &[([u8; 64], bool)], active: Option<usize>| {
        let mut tx = inputs(2);
        p2sh(&mut tx, 0, &covenant(&[x_only(0x40), x_only(0x60)]));
        p2sh(&mut tx, 1, &covenant(&[x_only(0x61)]));
        let n = sign_transaction_multisig(&mut tx, seeds, SigHashType::All, active, &source());
        (n, tx.inputs[0].signature, tx.inputs[1].signature)
    };
    let both = sign_both(&seeds, Some(1));
    assert_eq!(both, (Ok(2), mark(0, &[0x60; 32]), mark(1, &[0x61; 32])));
    assert_eq!(both, sign_both(&alone, None));
    // An active seed that is not there signs nothing.
    assert_eq!(sign_both(&seeds, Some(2)), (Ok(0), [0; 64], [0; 64]));
    assert_eq!(sign_both(&alone, Some(0)), (Ok(0), [0; 64], [0; 64]));
}

#[test]
fn covenants_fall_back_to_addresses() {
    let mut tx = inputs(1);
    p2sh(&mut tx, 0, &covenant(&[x_only(0x51)])); // change 1
    assert_eq!(
        sign_transaction_multisig(&mut tx, &[loaded(0x40)], SigHashType::All, None, &source()),
        Ok(1)
    );
    assert_eq!(tx.inputs[0].signature, mark(0, &[0x51; 32]));
}

#[test]
fn treasury_owners_are_found() {
    let mut redeem = vec![0x20];
    redeem.extend(x_only(0x40));
    redeem.extend([0xAD, 0x51]);
    let mut tx = inputs(1);
    p2sh(&mut tx, 0, &redeem);
    assert_eq!(
        sign_transaction_multisig(&mut tx, &[loaded(0x40)], SigHashType::All, Some(0), &source()),
        Ok(1)
    );
    assert_eq!(tx.inputs[0].sigs[0].pubkey_pos, 0);
}

#[test]
fn scripts_without_keys_and_unknown_scripts_are_left_alone() {
    let mut tx = inputs(2);
    p2sh(&mut tx, 0, &[0x51]);
    assert_eq!(
        sign_transaction_multisig(&mut tx, &[loaded(0x40)], SigHashType::All, None, &source()),
        Ok(0)
    );
    assert_eq!(signature_status(&tx), (0, 2));
    assert!(!is_fully_signed(&tx));
}

#[test]
fn candidate_walk_honours_pushes() {
    let k = [0x20; 32];
    let mut push = vec![0x20];
    push.extend(k);
    push.push(0xAC);
    assert_eq!(candidate_keys(&push), vec![k]);
    // Behind a verify opcode, one opcode away, and too far away.
    let mut s = push.clone();
    s[33] = 0xAD;
    assert_eq!(candidate_keys(&s).len(), 1);
    s[33] = 0x75;
    s.push(0xAC);
    assert_eq!(candidate_keys(&s).len(), 1);
    s[34] = 0x75;
    s.push(0xAC);
    assert_eq!(candidate_keys(&s).len(), 0);
    // Data of the long pushes is skipped.
    for head in [
        vec![0x4C, 2, 0x20, 0x20],
        vec![0x4D, 2, 0, 0x20, 0x20],
        vec![0x4E, 2, 0, 0, 0, 0x20, 0x20],
        vec![3, 0x20, 0xAC, 0xAC],
        vec![0x51, 0x63],
    ] {
        let mut s = head.clone();
        s.extend(&push);
        assert_eq!(candidate_keys(&s), vec![k]);
    }
    // A push beyond the end stops the walk.
    let mut s = vec![0x4E, 0xFF, 0xFF, 0xFF, 0xFF];
    s.extend(&push);
    assert!(candidate_keys(&s).is_empty());
    // At most eight keys.
    assert_eq!(candidate_keys(&push.repeat(9)).len(), 8);
    assert!(candidate_keys(&[]).is_empty());
    assert!(candidate_keys(&[0x4C]).is_empty());
}

#[test]
fn self_checks_pass() {
    assert!(test_serialize_parse_roundtrip());
    assert!(test_invalid_magic());
    assert!(test_signed_response_size());
    assert!(test_nine_inputs_rejected());
    assert!(!test_standard_signed_input_count(0));
    assert!(test_standard_signed_input_count(1));
    assert!(test_standard_signed_input_count(8));
    assert!(!test_standard_signed_input_count(9));
    let verify = |_: &Transaction, i: usize, _: SigHashType, pk: &[u8; 32], s: &[u8; 64]| {
        *pk == x_only(7) && *s == mark(i, &[7; 32])
    };
    assert!(test_full_sign_flow(&[7; 32], &x_only(7), &sign, &verify));
    assert!(!test_full_sign_flow(&[8; 32], &x_only(7), &sign, &verify));
    assert!(!test_full_sign_flow(&[0xBD; 32], &x_only(7), &sign, &verify));
    assert_eq!(run_pskt_tests(&[7; 32], &x_only(7), &sign, &verify), (8, 8));
    assert_eq!(run_pskt_tests(&[8; 32], &x_only(7), &sign, &verify), (7, 8));
}
