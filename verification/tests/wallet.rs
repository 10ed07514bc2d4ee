use kassigner::wallet::keys::ExtendedPubKey;
use kassigner::wallet::multisig::{MultisigConfig, MultisigStore, MAX_MULTISIG_WALLETS};
use kassigner::wallet::script::{
    detect_script_type, parse_multisig_script, MultisigInfo, ScriptType,
};
use kassigner::wallet::status::analyze_input_script;
use kassigner::wallet::transaction::{
    IncomingPartialSig, InputSig, ScriptPublicKey, SigHashType, Transaction, MAX_REDEEM_SIZE,
};

const TYPES: [(SigHashType, u8); 7] = [
    (SigHashType::All, 0x01),
    (SigHashType::NoOutputs, 0x02),
    (SigHashType::Single, 0x04),
    (SigHashType::AnyOneCanPay, 0x80),
    (SigHashType::AllAnyOneCanPay, 0x81),
    (SigHashType::NoneAnyOneCanPay, 0x82),
    (SigHashType::SingleAnyOneCanPay, 0x84),
];

#[test]
fn signature_types_and_bytes() {
    for (t, b) in TYPES {
        assert_eq!(t.to_byte(), b);
        assert_eq!(t.is_anyone_can_pay(), b & 0x80 != 0);
        assert_eq!(t.is_sighash_none(), b & 0x02 != 0);
        assert_eq!(t.is_sighash_single(), b & 0x04 != 0);
    }
    for b in 0..=255u8 {
        let known = TYPES.iter().find(|(_, x)| *x == b && b != 0x80);
        assert_eq!(SigHashType::from_byte(b), known.map(|(t, _)| *t));
    }
}

#[test]
fn empty_values() {
    assert_eq!(ScriptPublicKey::new().script_bytes(), &[] as &[u8]);
    assert!(!InputSig::empty().present);
    assert!(!IncomingPartialSig::empty().present);
    assert_eq!(MultisigInfo::new().n, 0);
    let tx = Transaction::new();
    assert!(tx.is_native());
    assert_eq!((tx.inputs().len(), tx.outputs().len()), (0, 0));
    assert_eq!(tx.inputs[0].sig_op_count, 1);
}

#[test]
fn clearing_empties_a_transaction() {
    let mut tx = Transaction::new();
    tx.num_inputs = 2;
    tx.locktime = 5;
    tx.store_redeem(1, &[1; 600]).unwrap();
    tx.clear();
    assert_eq!((tx.num_inputs, tx.locktime), (0, 0));
    assert_eq!(tx.redeem_pool_used, 0);
    assert_eq!(tx.redeem_bytes(1), &[] as &[u8]);
}

#[test]
fn redeem_scripts_are_kept_apart() {
    let mut tx = Transaction::new();
    tx.store_redeem(0, &[1; 700]).unwrap();
    tx.store_redeem(1, &[2; 512]).unwrap();
    tx.store_redeem(2, &[3; 1024]).unwrap();
    assert_eq!(tx.store_redeem(3, &[4; 513]), Err(()));
    assert_eq!(tx.store_redeem(3, &[4; MAX_REDEEM_SIZE + 1]), Err(()));
    assert_eq!(tx.redeem_bytes(0), &[1; 700]);
    assert_eq!(tx.redeem_bytes(1), &[2; 512]);
    assert_eq!(tx.redeem_bytes(2), &[3; 1024]);
    assert_eq!(tx.redeem_bytes(3), &[] as &[u8]);
    assert_eq!(tx.redeem_pool_used, 1724);
    tx.store_redeem(1, &[]).unwrap();
    assert_eq!(tx.redeem_bytes(1), &[] as &[u8]);
}

#[test]
fn sums_and_fee() {
    let mut tx = Transaction::new();
    tx.num_inputs = 2;
    tx.num_outputs = 2;
    tx.inputs[0].utxo_entry.amount = 700;
    tx.inputs[1].utxo_entry.amount = 50;
    tx.outputs[0].value = 600;
    tx.outputs[1].value = 100;
    assert_eq!(tx.total_input_value(), 750);
    assert_eq!(tx.total_output_value(), 700);
    assert_eq!(tx.fee(), 50);
    tx.outputs[1].value = 200;
    assert_eq!(tx.fee(), 0);
}

fn kas(sompi: u64) -> String {
    let mut buf = [0u8; 32];
    let n = Transaction::format_kas(sompi, &mut buf);
    String::from_utf8(buf[..n].to_vec()).unwrap()
}

#[test]
fn amounts_as_text() {
    assert_eq!(kas(123_456_789), "1.23456789");
    assert_eq!(kas(0), "0.00");
    assert_eq!(kas(100_000_000), "1.00");
    assert_eq!(kas(150_000_000), "1.5");
    assert_eq!(kas(1), "0.00000001");
    assert_eq!(kas(1_000), "0.00001");
    assert_eq!(kas(u64::MAX), "184467440737.09551615");
    let mut small = [b'x'; 3];
    assert_eq!(Transaction::format_kas(123_456_789, &mut small), 3);
    assert_eq!(&small, b"1.2");
    assert_eq!(Transaction::format_kas(5, &mut []), 1);
    assert_eq!(Transaction::format_kas(500_000_000, &mut []), 0);
}

fn multisig(m: u8, keys: &[[u8; 32]]) -> Vec<u8> {
    let mut s = vec![0x50 + m];
    for k in keys {
        s.push(0x20);
        s.extend(k);
    }
    s.push(0x50 + keys.len() as u8);
    s.push(0xAE);
    s
}

#[test]
fn script_types() {
    let mut p2pk = [0u8; 34];
    p2pk[0] = 0x20;
    p2pk[33] = 0xAC;
    assert_eq!(detect_script_type(&p2pk, 34), ScriptType::P2PK);
    p2pk[33] = 0xAD;
    assert_eq!(detect_script_type(&p2pk, 34), ScriptType::Unknown);
    let mut p2sh = [0u8; 35];
    p2sh[0] = 0xAA;
    p2sh[1] = 0x20;
    p2sh[34] = 0x87;
    assert_eq!(detect_script_type(&p2sh, 35), ScriptType::P2SH);
    let ms = multisig(2, &[[1; 32], [2; 32], [3; 32]]);
    assert_eq!(detect_script_type(&ms, ms.len()), ScriptType::Multisig);
    let info = parse_multisig_script(&ms, ms.len()).unwrap();
    assert_eq!((info.m, info.n), (2, 3));
    assert_eq!(info.pubkeys[2], [3; 32]);
    assert_eq!(info.pubkeys[3], [0; 32]);
    // More signatures than keys, a wrong push.
    let mut bad = ms.clone();
    bad[0] = 0x54;
    assert_eq!(detect_script_type(&bad, bad.len()), ScriptType::Unknown);
    let mut bad = ms.clone();
    bad[34] = 0x21;
    assert!(parse_multisig_script(&bad, bad.len()).is_none());
    // One key only.
    let one = multisig(1, &[[0xAA; 32]]);
    assert_eq!(one.len(), 36);
    assert_eq!(detect_script_type(&one, one.len()), ScriptType::Multisig);
    let info = parse_multisig_script(&one, one.len()).unwrap();
    assert_eq!((info.m, info.n, info.pubkeys[0]), (1, 1, [0xAA; 32]));
    assert_eq!(detect_script_type(&one, 35), ScriptType::Unknown);
    assert_eq!(detect_script_type(&[], 0), ScriptType::Unknown);
}

#[test]
fn inputs_are_analysed_through_the_script_hash() {
    let mut tx = Transaction::new();
    let spk = &mut tx.inputs[0].utxo_entry.script_public_key;
    spk.script[0] = 0xAA;
    spk.script[1] = 0x20;
    spk.script[34] = 0x87;
    spk.script_len = 35;
    let (t, info) = analyze_input_script(&tx, 0);
    assert_eq!(t, ScriptType::P2SH);
    assert!(info.is_none());
    tx.store_redeem(0, &multisig(1, &[[5; 32], [6; 32]])).unwrap();
    let (t, info) = analyze_input_script(&tx, 0);
    assert_eq!(t, ScriptType::P2SH);
    assert_eq!(info.unwrap().n, 2);
    tx.store_redeem(0, &[0x51]).unwrap();
    assert!(analyze_input_script(&tx, 0).1.is_none());
}

/// A child key is the parent with the index in its last byte, and a depth
/// one larger.
fn child(parent: &ExtendedPubKey, index: u32) -> Result<ExtendedPubKey, ()> {
    if index == 99 || parent.depth < 3 {
        return Err(());
    }
    let mut pubkey = parent.pubkey;
    pubkey[32] = index as u8;
    pubkey[31] = parent.depth + parent.chain_code[0];
    Ok(ExtendedPubKey {
        pubkey,
        chain_code: parent.chain_code,
        depth: parent.depth + 1,
    })
}

fn config(cosigners: &[u8]) -> MultisigConfig {
    let mut c = MultisigConfig::new();
    c.m = 2;
    c.n = cosigners.len() as u8;
    for (i, b) in cosigners.iter().enumerate() {
        c.cosigner_pubkeys[i] = [*b; 33];
        c.cosigner_chain_codes[i] = [0x10; 32];
    }
    c.addr_index = 7;
    c
}

#[test]
fn multisig_scripts_list_sorted_children() {
    let mut c = config(&[9, 3, 6]);
    let n = c.build_script(&child);
    assert_eq!(n, 102);
    assert_eq!(c.script_len, 102);
    let key = |b: u8| {
        let mut k = [b; 32];
        k[30] = 4 + 0x10;
        k[31] = 7;
        k
    };
    assert_eq!(&c.script[..n], &multisig(2, &[key(3), key(6), key(9)])[..]);
    assert_eq!(detect_script_type(&c.script, n), ScriptType::Multisig);
}

#[test]
fn cosigner_order_does_not_matter() {
    let mut scripts = Vec::new();
    for order in [[1, 2, 3], [1, 3, 2], [2, 1, 3], [2, 3, 1], [3, 1, 2], [3, 2, 1]] {
        let mut c = config(&order);
        let n = c.build_script(&child);
        scripts.push(c.script[..n].to_vec());
    }
    assert!(scripts.iter().all(|s| *s == scripts[0]));
}

#[test]
fn a_script_for_one_key_is_recognised() {
    let mut c = config(&[1]);
    c.m = 1;
    let n = c.build_script(&child);
    assert_eq!(n, 36);
    assert_eq!(detect_script_type(&c.script, n), ScriptType::Multisig);
}

#[test]
fn multisig_scripts_that_cannot_be_built() {
    for (m, n) in [(0, 2), (1, 0), (3, 2), (1, 6)] {
        let mut c = config(&[1, 2]);
        c.m = m;
        c.n = n;
        assert_eq!(c.build_script(&child), 0);
        assert_eq!(c.script_len, 0);
    }
    let mut c = config(&[1, 2]);
    c.addr_index = 99;
    assert_eq!(c.build_script(&child), 0);
    assert_eq!(c.script[0], 0);
}

#[test]
fn slots_labels_and_store() {
    let mut c = config(&[1, 2]);
    assert!(!c.slot_empty(1));
    assert!(c.slot_empty(2));
    assert!(!c.slot_empty(5));
    let mut buf = [b'.'; 8];
    assert_eq!(c.label(&mut buf), 6);
    assert_eq!(&buf, b"2-of-2..");
    let mut small = [0u8; 3];
    assert_eq!(c.label(&mut small), 3);
    assert_eq!(&small, b"2-o");
    c.active = true;
    let mut store = MultisigStore::new();
    assert_eq!(store.find_free(), Some(0));
    store.configs[0] = c;
    assert_eq!(store.find_free(), Some(1));
    store.configs[1].active = true;
    assert_eq!(store.find_free(), None);
    assert_eq!(MAX_MULTISIG_WALLETS, 2);
}
