//! Checks that the device runs on itself when it starts.
use crate::bytes;
use crate::wallet::pskt::{parse_pskt, serialize_pskt, serialize_signed_pskt, PsktError};
use crate::wallet::response;
use crate::wallet::response::SignedResponse;
use crate::wallet::roundtrip;
use crate::wallet::script::{OP_CHECKSIG, OP_DATA_32};
use crate::wallet::signing::sign_transaction;
use crate::wallet::transaction::{
    Outpoint, ScriptPublicKey, SigHashType, Transaction, TransactionInput, TransactionOutput,
    UtxoEntry, MAX_INPUTS,
};
use crate::wallet::wire;
use crate::wallet::wire::Form;
use vstd::prelude::*;

verus! {

/// The script that pays to a single key.
pub open spec fn pays_to(key: [u8; 32]) -> ScriptPublicKey {
    ScriptPublicKey {
        version: 0,
        script: bytes::array_of(seq![OP_DATA_32] + key@ + seq![OP_CHECKSIG]),
        script_len: 34,
    }
}

fn pay_to(key: &[u8; 32]) -> (r: ScriptPublicKey)
    ensures
        r == pays_to(*key),
{
    let mut spk = ScriptPublicKey::new();
    spk.script[0] = OP_DATA_32;
    bytes::copy_at(&mut spk.script, 1, key.as_slice());
    spk.script[33] = OP_CHECKSIG;
    spk.script_len = 34;
    proof {
        let text = seq![OP_DATA_32] + key@ + seq![OP_CHECKSIG];
        bytes::lemma_array_with(ScriptPublicKey::blank().script, text);
        assert(spk.script@ =~= text + ScriptPublicKey::blank().script@.skip(34));
        assert(spk.script =~= bytes::array_of(text));
    }
    spk
}

/// An unsigned input.
pub open spec fn spends(outpoint: Outpoint, amount: u64, sequence: u64, key: [u8; 32]) -> TransactionInput {
    TransactionInput {
        previous_outpoint: outpoint,
        utxo_entry: UtxoEntry { amount, script_public_key: pays_to(key) },
        sequence,
        sig_op_count: 1,
        ..TransactionInput::blank()
    }
}

/// An output.
pub open spec fn pays(value: u64, key: [u8; 32]) -> TransactionOutput {
    TransactionOutput { value, script_public_key: pays_to(key), ..TransactionOutput::blank() }
}

/// A transaction with one input, and two outputs: the payment and the change.
pub open spec fn payment(
    input: TransactionInput,
    output: TransactionOutput,
    change: TransactionOutput,
) -> Transaction {
    Transaction { num_inputs: 1, num_outputs: 2, ..Transaction::blank() }.with_input(
        0,
        input,
    ).with_output(0, output).with_output(1, change)
}

fn make_input(id: [u8; 32], index: u32, amount: u64, sequence: u64, key: &[u8; 32]) -> (r:
    TransactionInput)
    ensures
        r == spends(Outpoint { transaction_id: id, index }, amount, sequence, *key),
{
    let mut input = TransactionInput::empty();
    input.previous_outpoint = Outpoint { transaction_id: id, index };
    input.utxo_entry.amount = amount;
    input.utxo_entry.script_public_key = pay_to(key);
    input.sequence = sequence;
    input
}

fn make_output(value: u64, key: &[u8; 32]) -> (r: TransactionOutput)
    ensures
        r == pays(value, *key),
{
    let mut output = TransactionOutput::empty();
    output.value = value;
    output.script_public_key = pay_to(key);
    output
}

fn make_payment(input: TransactionInput, output: TransactionOutput, change: TransactionOutput) -> (r:
    Transaction)
    ensures
        r == payment(input, output, change),
{
    let mut tx = Transaction::new();
    tx.num_inputs = 1;
    tx.num_outputs = 2;
    tx.inputs[0] = input;
    tx.outputs[0] = output;
    tx.outputs[1] = change;
    tx
}

/// A script that pays to a single key takes 37 bytes.
proof fn lemma_script_size(key: [u8; 32])
    ensures
        roundtrip::size(wire::script_fields(pays_to(key))) == 37,
        pays_to(key).wf(),
{
    broadcast use roundtrip::lemma_size, roundtrip::lemma_field_size;

    bytes::lemma_le_bytes_len(0, 2);
}

proof fn lemma_globals_size(form: Form, tx: Transaction)
    requires
        tx.payload_len == 0,
    ensures
        roundtrip::size(wire::globals_fields(form, tx)) == 48,
{
    broadcast use roundtrip::lemma_size, roundtrip::lemma_field_size;

    bytes::lemma_le_bytes_len(tx.version as nat, 2);
    bytes::lemma_le_bytes_len(tx.locktime as nat, 8);
    bytes::lemma_le_bytes_len(tx.gas as nat, 8);
    bytes::lemma_le_bytes_len(tx.payload_len as nat, 2);
}

proof fn lemma_core_size(x: TransactionInput, key: [u8; 32])
    requires
        x.utxo_entry.script_public_key == pays_to(key),
    ensures
        roundtrip::size(wire::input_core_fields(x)) == 90,
{
    broadcast use roundtrip::lemma_size, roundtrip::lemma_field_size;

    lemma_script_size(key);
    bytes::lemma_le_bytes_len(x.previous_outpoint.index as nat, 4);
    bytes::lemma_le_bytes_len(x.utxo_entry.amount as nat, 8);
    bytes::lemma_le_bytes_len(x.sequence as nat, 8);
}

proof fn lemma_output_size(value: u64, key: [u8; 32])
    ensures
        roundtrip::size(wire::output_fields(pays(value, key), false)) == 45,
{
    broadcast use roundtrip::lemma_size, roundtrip::lemma_field_size;

    lemma_script_size(key);
    bytes::lemma_le_bytes_len(value as nat, 8);
}

/// A payment can be written, in 228 bytes, and reads back.
proof fn lemma_payment(
    tx: Transaction,
    outpoint: Outpoint,
    amount: u64,
    sequence: u64,
    from: [u8; 32],
    value: u64,
    to: [u8; 32],
    rest: u64,
    back: [u8; 32],
)
    requires
        tx == payment(spends(outpoint, amount, sequence, from), pays(value, to), pays(rest, back)),
    ensures
        wire::writable(Form::Unsigned, tx),
        wire::transaction_bytes(Form::Unsigned, tx).len() == 228,
        wire::unsigned(wire::transaction_bytes(Form::Unsigned, tx)).1 is None,
        roundtrip::same_unsigned(tx, wire::unsigned(wire::transaction_bytes(Form::Unsigned, tx)).0),
        tx.input_sum(1) == amount,
        tx.output_sum(2) == value + rest,
{
    broadcast use roundtrip::lemma_size, roundtrip::lemma_field_size;

    let x = spends(outpoint, amount, sequence, from);
    assert(tx.inputs@[0] == x);
    assert(tx.outputs@[0] == pays(value, to));
    assert(tx.outputs@[1] == pays(rest, back));
    lemma_script_size(from);
    lemma_script_size(to);
    lemma_script_size(back);
    lemma_globals_size(Form::Unsigned, tx);
    lemma_core_size(x, from);
    lemma_output_size(value, to);
    lemma_output_size(rest, back);
    assert(!wire::has_covenants(tx)) by {
        assert forall|i: int| 0 <= i < tx.num_outputs implies !#[trigger] tx.outputs@[i].has_covenant by {
            assert(i == 0 || i == 1);
        }
    }
    reveal_with_fuel(wire::inputs_fields, 2);
    reveal_with_fuel(wire::outputs_fields, 3);
    assert(roundtrip::size(wire::inputs_fields(Form::Unsigned, tx, 0, 1)) == 90);
    assert(roundtrip::size(wire::outputs_fields(tx, false, 0, 2)) == 90);
    assert(roundtrip::size(wire::transaction_fields(Form::Unsigned, tx)) == 228);
    assert(wire::writable(Form::Unsigned, tx)) by {
        assert forall|i: int|
            #![trigger tx.outputs@[i]]
            0 <= i < tx.num_outputs implies tx.outputs@[i].script_public_key.wf() by {
            assert(i == 0 || i == 1);
        }
    }
    let all = wire::transaction_bytes(Form::Unsigned, tx);
    roundtrip::law_unsigned_round_trip(tx, Seq::empty());
    assert(all + Seq::<u8>::empty() =~= all);
    reveal_with_fuel(Transaction::input_sum, 2);
    reveal_with_fuel(Transaction::output_sum, 3);
}

/// Writes a transaction and reads it back.
pub fn test_serialize_parse_roundtrip() -> (r: bool)
    ensures
        r,
{
    let id: [u8; 32] = [0xDE; 32];
    let from: [u8; 32] = [0xAA; 32];
    let to: [u8; 32] = [0xBB; 32];
    let back: [u8; 32] = [0xCC; 32];
    let tx = make_payment(
        make_input(id, 3, 500_000_000, u64::MAX, &from),
        make_output(450_000_000, &to),
        make_output(49_000_000, &back),
    );
    proof {
        lemma_payment(
            tx,
            Outpoint { transaction_id: id, index: 3 },
            500_000_000,
            u64::MAX,
            from,
            450_000_000,
            to,
            49_000_000,
            back,
        );
    }
    let mut buf: [u8; 512] = [0u8; 512];
    let size = match serialize_pskt(&tx, &mut buf) {
        Ok(size) => size,
        Err(_) => {
            return false;
        },
    };
    let mut tx2 = Transaction::new();
    let data = vstd::slice::slice_subrange(buf.as_slice(), 0, size);
    assert(data@ =~= wire::transaction_bytes(Form::Unsigned, tx));
    if parse_pskt(data, &mut tx2).is_err() {
        return false;
    }
    proof {
        assert(tx2.inputs@[0].utxo_entry.amount == 500_000_000);
        assert(roundtrip::same_output(tx.outputs@[0], tx2.outputs@[0]));
        assert(roundtrip::same_output(tx.outputs@[1], tx2.outputs@[1]));
        reveal_with_fuel(Transaction::input_sum, 2);
        reveal_with_fuel(Transaction::output_sum, 3);
    }
    tx2.version == tx.version && tx2.num_inputs == tx.num_inputs && tx2.num_outputs
        == tx.num_outputs && bytes::slice_eq(
        tx2.inputs[0].previous_outpoint.transaction_id.as_slice(),
        tx.inputs[0].previous_outpoint.transaction_id.as_slice(),
    ) && tx2.inputs[0].previous_outpoint.index == tx.inputs[0].previous_outpoint.index
        && tx2.inputs[0].utxo_entry.amount == tx.inputs[0].utxo_entry.amount
        && tx2.outputs[0].value == tx.outputs[0].value && tx2.outputs[1].value
        == tx.outputs[1].value && tx2.fee() == tx.fee()
}

/// Wrong magic bytes are refused.
pub fn test_invalid_magic() -> (r: bool)
    ensures
        r,
{
    let bad_data: [u8; 6] = [0x00, 0x00, 0x00, 0x00, 0x01, 0x00];
    let mut tx = Transaction::new();
    assert(bad_data@.take(4)[0] != wire::magic()[0]);
    match parse_pskt(bad_data.as_slice(), &mut tx) {
        Err(e) => e == PsktError::InvalidMagic,
        Ok(_) => false,
    }
}

/// A response with one signature takes 72 bytes.
pub fn test_signed_response_size() -> (r: bool)
    ensures
        r,
{
    let mut resp = SignedResponse::new();
    let sig: [u8; 64] = [0xAB; 64];
    if resp.add_signature(0, SigHashType::All, &sig).is_err() {
        return false;
    }
    proof {
        roundtrip::law_response_round_trip(resp, Seq::empty());
    }
    let mut buf: [u8; 256] = [0u8; 256];
    match resp.serialize(&mut buf) {
        Ok(size) => size == 72,
        Err(_) => false,
    }
}

/// One more than the most inputs is refused.
pub fn test_nine_inputs_rejected() -> (r: bool)
    ensures
        r,
{
    let mut encoded: [u8; 10] = [0u8; 10];
    encoded[0] = 0x4B;
    encoded[1] = 0x53;
    encoded[2] = 0x50;
    encoded[3] = 0x54;
    encoded[4] = 1;
    encoded[8] = (MAX_INPUTS + 1) as u8;
    encoded[9] = 1;
    let mut tx = Transaction::new();
    assert(encoded@.take(4) =~= wire::magic());
    match parse_pskt(encoded.as_slice(), &mut tx) {
        Err(e) => e == PsktError::TooManyInputs,
        Ok(_) => false,
    }
}

/// Inputs with a single key and signature take 156 bytes each.
proof fn lemma_standard_size(tx: Transaction, key: [u8; 32], i: int, n: int)
    requires
        0 <= i <= n <= MAX_INPUTS,
        forall|j: int|
            #![trigger tx.inputs@[j]]
            0 <= j < n ==> tx.inputs@[j].utxo_entry.script_public_key == pays_to(key)
                && tx.inputs@[j].sig_len == 64,
    ensures
        roundtrip::size(wire::inputs_fields(Form::SingleSigned, tx, i, n)) == 156 * (n - i),
    decreases n - i,
{
    broadcast use roundtrip::lemma_size, roundtrip::lemma_field_size;

    if i < n {
        lemma_core_size(tx.inputs@[i], key);
        lemma_standard_size(tx, key, i + 1, n);
    }
}

/// A signed transaction with this many single-key inputs fits the response
/// buffer of 4096 bytes.
pub fn test_standard_signed_input_count(input_count: usize) -> (r: bool)
    ensures
        r == (1 <= input_count <= MAX_INPUTS),
{
    if input_count == 0 || input_count > MAX_INPUTS {
        return false;
    }
    let key: [u8; 32] = [0x11; 32];
    let mut tx = Transaction::new();
    tx.num_inputs = input_count;
    tx.num_outputs = 1;
    let mut i: usize = 0;
    while i < input_count
        invariant
            i <= input_count <= MAX_INPUTS,
            tx.num_inputs == input_count,
            tx.num_outputs == 1,
            tx.payload_len == 0,
            tx.outputs == Transaction::blank().outputs,
            forall|j: int|
                #![trigger tx.inputs@[j]]
                0 <= j < i ==> tx.inputs@[j].utxo_entry.script_public_key == pays_to(key)
                    && tx.inputs@[j].sig_len == 64,
        decreases input_count - i,
    {
        let id: [u8; 32] = [i as u8; 32];
        tx.inputs[i] = make_input(id, i as u32, 100_000_000, u64::MAX, &key);
        tx.inputs[i].signature = [0x22; 64];
        tx.inputs[i].sig_len = 64;
        tx.inputs[i].sighash_type = SigHashType::All.to_byte();
        i += 1;
    }
    let value: u64 = input_count as u64 * 99_000_000;
    tx.outputs[0] = make_output(value, &key);
    proof {
        lemma_script_size(key);
        lemma_globals_size(Form::SingleSigned, tx);
        lemma_standard_size(tx, key, 0, input_count as int);
        lemma_output_size(value, key);
        assert(tx.outputs@[0] == pays(value, key));
        assert(!wire::has_covenants(tx)) by {
            assert forall|k: int| 0 <= k < tx.num_outputs implies !#[trigger] tx.outputs@[k].has_covenant by {
                assert(k == 0);
            }
        }
        assert(wire::transaction_bytes(Form::SingleSigned, tx).len() <= 4096) by {
            broadcast use roundtrip::lemma_size;

            reveal_with_fuel(wire::outputs_fields, 2);
            assert(roundtrip::size(wire::outputs_fields(tx, false, 0, 1)) == 45);
            let fields = wire::transaction_fields(Form::SingleSigned, tx);
            assert(roundtrip::size(fields) == 48 + 156 * input_count + 45);
        }
        assert(wire::writable(Form::SingleSigned, tx)) by {
            assert forall|k: int|
                #![trigger tx.outputs@[k]]
                0 <= k < tx.num_outputs implies tx.outputs@[k].script_public_key.wf() by {
                assert(k == 0);
            }
        }
    }
    let mut output: [u8; 4096] = [0u8; 4096];
    match serialize_signed_pskt(&tx, &mut output) {
        Ok(n) => n > 0 && n <= 4096,
        Err(_) => false,
    }
}

/// 32 times the same byte.
pub open spec fn repeated(b: u8) -> [u8; 32] {
    bytes::array_of(Seq::new(32, |i: int| b))
}

/// The transaction that the signing flow is tried on: ten KAS from a key, five
/// to another, the change back.
pub open spec fn flow_payment(key: [u8; 32]) -> Transaction {
    payment(
        spends(Outpoint { transaction_id: repeated(0x99), index: 0 }, 1_000_000_000, 0, key),
        pays(500_000_000, repeated(0xFF)),
        pays(499_000_000, key),
    )
}

/// That transaction, sent and read back.
pub open spec fn flow_received(key: [u8; 32]) -> Transaction {
    wire::unsigned(wire::transaction_bytes(Form::Unsigned, flow_payment(key))).0
}

/// The signing flow on `tx` can end with `r`: the transaction is signed, the
/// response is sent and read back, and the signature in it checked.
pub open spec fn flows<S, V>(
    tx: Transaction,
    private_key: [u8; 32],
    public_key: [u8; 32],
    sign_input: S,
    verify_input: V,
    r: bool,
) -> bool where
    S: Fn(&Transaction, usize, &[u8; 32], SigHashType) -> Result<[u8; 64], ()>,
    V: Fn(&Transaction, usize, SigHashType, &[u8; 32], &[u8; 64]) -> bool,
 {
    exists|g: Result<[u8; 64], ()>|
        #![trigger call_ensures(sign_input, (&tx, 0usize, &private_key, SigHashType::All), g)]
        {
            &&& call_ensures(sign_input, (&tx, 0usize, &private_key, SigHashType::All), g)
            &&& match g {
                Ok(signature) => call_ensures(
                    verify_input,
                    (&tx, 0usize, SigHashType::All, &public_key, &signature),
                    r,
                ),
                Err(_) => !r,
            }
        }
}

proof fn lemma_repeated(a: [u8; 32], b: u8)
    requires
        forall|i: int| 0 <= i < 32 ==> a@[i] == b,
    ensures
        a == repeated(b),
{
    let s = Seq::new(32, |i: int| b);
    bytes::lemma_array_with(bytes::zero_array::<32>(), s);
    assert(a =~= repeated(b));
}

/// Sends a transaction, and reads it back.
fn send(tx: &Transaction) -> (r: Option<Transaction>)
    requires
        wire::writable(Form::Unsigned, *tx),
        wire::transaction_bytes(Form::Unsigned, *tx).len() <= 512,
        wire::unsigned(wire::transaction_bytes(Form::Unsigned, *tx)).1 is None,
    ensures
        r == Some(wire::unsigned(wire::transaction_bytes(Form::Unsigned, *tx)).0),
{
    let mut sent: [u8; 512] = [0u8; 512];
    let size = match serialize_pskt(tx, &mut sent) {
        Ok(size) => size,
        Err(_) => {
            return None;
        },
    };
    let mut parsed = Transaction::new();
    let data = vstd::slice::slice_subrange(sent.as_slice(), 0, size);
    assert(data@ =~= wire::transaction_bytes(Form::Unsigned, *tx));
    if parse_pskt(data, &mut parsed).is_err() {
        return None;
    }
    Some(parsed)
}

/// Sends a response with one signature, and reads the signature back.
fn reply(signed: &SignedResponse) -> (r: Option<[u8; 64]>)
    requires
        signed.num_signatures == 1,
        signed.signatures@[0].sighash_type == SigHashType::All,
    ensures
        r == Some(signed.signatures@[0].signature),
{
    proof {
        roundtrip::law_response_round_trip(*signed, Seq::empty());
        assert(response::response_bytes(*signed) + Seq::<u8>::empty() =~= response::response_bytes(
            *signed,
        ));
    }
    let mut sent: [u8; 256] = [0u8; 256];
    let size = match signed.serialize(&mut sent) {
        Ok(size) => size,
        Err(_) => {
            return None;
        },
    };
    let data = vstd::slice::slice_subrange(sent.as_slice(), 0, size);
    assert(data@ =~= response::response_bytes(*signed));
    let received = match SignedResponse::parse(data) {
        Ok(received) => received,
        Err(_) => {
            return None;
        },
    };
    if received.num_signatures != 1 {
        return None;
    }
    assert(received.signatures@[0] == signed.signatures@[0]);
    Some(received.signatures[0].signature)
}

/// The payment that the signing flow is tried on.
fn make_flow_payment(key: &[u8; 32]) -> (tx: Transaction)
    ensures
        tx == flow_payment(*key),
        wire::writable(Form::Unsigned, tx),
        wire::transaction_bytes(Form::Unsigned, tx).len() <= 512,
        wire::unsigned(wire::transaction_bytes(Form::Unsigned, tx)).1 is None,
        flow_received(*key).num_inputs == 1,
{
    let id: [u8; 32] = [0x99; 32];
    let to: [u8; 32] = [0xFF; 32];
    proof {
        lemma_repeated(id, 0x99);
        lemma_repeated(to, 0xFF);
    }
    let tx = make_payment(
        make_input(id, 0, 1_000_000_000, 0, key),
        make_output(500_000_000, &to),
        make_output(499_000_000, key),
    );
    proof {
        lemma_payment(
            tx,
            Outpoint { transaction_id: id, index: 0 },
            1_000_000_000,
            0,
            *key,
            500_000_000,
            to,
            499_000_000,
            *key,
        );
    }
    tx
}

/// Signs a transaction with one input, sends the response, and checks the
/// signature that is read back.
fn sign_and_check<S, V>(
    parsed: &Transaction,
    private_key: &[u8; 32],
    public_key: &[u8; 32],
    sign_input: &S,
    verify_input: &V,
) -> (r: bool) where
    S: Fn(&Transaction, usize, &[u8; 32], SigHashType) -> Result<[u8; 64], ()>,
    V: Fn(&Transaction, usize, SigHashType, &[u8; 32], &[u8; 64]) -> bool,

    requires
        parsed.num_inputs == 1,
        forall|tx: &Transaction, i: usize| #[trigger]
            call_requires(*sign_input, (tx, i, private_key, SigHashType::All)),
        forall|tx: &Transaction, sig: &[u8; 64]| #[trigger]
            call_requires(*verify_input, (tx, 0usize, SigHashType::All, public_key, sig)),
    ensures
        flows(*parsed, *private_key, *public_key, *sign_input, *verify_input, r),
{
    let signed = match sign_transaction(parsed, private_key, SigHashType::All, sign_input) {
        Ok(signed) => signed,
        Err(_) => {
            assert(call_ensures(
                *sign_input,
                (parsed, 0usize, private_key, SigHashType::All),
                Err(()),
            ));
            return false;
        },
    };
    if signed.num_signatures != 1 {
        return false;
    }
    assert(signed.signatures@[0usize as int].input_index == 0);
    match reply(&signed) {
        Some(signature) => {
            assert(call_ensures(
                *sign_input,
                (parsed, 0usize, private_key, SigHashType::All),
                Ok(signature),
            ));
            verify_input(parsed, 0, SigHashType::All, public_key, &signature)
        },
        None => false,
    }
}

/// Runs the whole signing flow on a payment from a key to another and back.
/// `verify_input` checks a signature of an input under a key.
pub fn test_full_sign_flow<S, V>(
    private_key: &[u8; 32],
    public_key: &[u8; 32],
    sign_input: &S,
    verify_input: &V,
) -> (r: bool) where
    S: Fn(&Transaction, usize, &[u8; 32], SigHashType) -> Result<[u8; 64], ()>,
    V: Fn(&Transaction, usize, SigHashType, &[u8; 32], &[u8; 64]) -> bool,

    requires
        forall|tx: &Transaction, i: usize| #[trigger]
            call_requires(*sign_input, (tx, i, private_key, SigHashType::All)),
        forall|tx: &Transaction, sig: &[u8; 64]| #[trigger]
            call_requires(*verify_input, (tx, 0usize, SigHashType::All, public_key, sig)),
    ensures
        flows(
            flow_received(*public_key),
            *private_key,
            *public_key,
            *sign_input,
            *verify_input,
            r,
        ),
{
    let tx = make_flow_payment(public_key);
    let parsed = match send(&tx) {
        Some(parsed) => parsed,
        None => {
            return false;
        },
    };
    sign_and_check(&parsed, private_key, public_key, sign_input, verify_input)
}

/// Runs all checks. Returns how many passed, and how many there are.
pub fn run_pskt_tests<S, V>(
    private_key: &[u8; 32],
    public_key: &[u8; 32],
    sign_input: &S,
    verify_input: &V,
) -> (r: (u32, u32)) where
    S: Fn(&Transaction, usize, &[u8; 32], SigHashType) -> Result<[u8; 64], ()>,
    V: Fn(&Transaction, usize, SigHashType, &[u8; 32], &[u8; 64]) -> bool,

    requires
        forall|tx: &Transaction, i: usize| #[trigger]
            call_requires(*sign_input, (tx, i, private_key, SigHashType::All)),
        forall|tx: &Transaction, sig: &[u8; 64]| #[trigger]
            call_requires(*verify_input, (tx, 0usize, SigHashType::All, public_key, sig)),
    ensures
        r.1 == 8,
        r.0 == 7 || r.0 == 8,
        flows(
            flow_received(*public_key),
            *private_key,
            *public_key,
            *sign_input,
            *verify_input,
            r.0 == 8,
        ),
{
    let mut passed: u32 = 0;
    if test_serialize_parse_roundtrip() {
        passed += 1;
    }
    if test_invalid_magic() {
        passed += 1;
    }
    if test_full_sign_flow(private_key, public_key, sign_input, verify_input) {
        passed += 1;
    }
    if test_signed_response_size() {
        passed += 1;
    }
    if test_standard_signed_input_count(6) {
        passed += 1;
    }
    if test_standard_signed_input_count(7) {
        passed += 1;
    }
    if test_standard_signed_input_count(8) {
        passed += 1;
    }
    if test_nine_inputs_rejected() {
        passed += 1;
    }
    (passed, 8)
}

/// The signing flow passes only with a signature that the signer may return
/// for the first input and the verifier may accept for it, and fails only
/// where the signer may fail or the verifier may reject what it returned.
pub proof fn law_flow_passes_with_an_accepted_signature<S, V>(
    tx: Transaction,
    private_key: [u8; 32],
    public_key: [u8; 32],
    sign_input: S,
    verify_input: V,
    r: bool,
) where
    S: Fn(&Transaction, usize, &[u8; 32], SigHashType) -> Result<[u8; 64], ()>,
    V: Fn(&Transaction, usize, SigHashType, &[u8; 32], &[u8; 64]) -> bool,

    requires
        flows(tx, private_key, public_key, sign_input, verify_input, r),
    ensures
        r ==> exists|signature: [u8; 64]| #[trigger]
            call_ensures(
                sign_input,
                (&tx, 0usize, &private_key, SigHashType::All),
                Ok(signature),
            ) && call_ensures(
                verify_input,
                (&tx, 0usize, SigHashType::All, &public_key, &signature),
                true,
            ),
        !r ==> call_ensures(
            sign_input,
            (&tx, 0usize, &private_key, SigHashType::All),
            Err::<[u8; 64], ()>(()),
        ) || exists|signature: [u8; 64]| #[trigger]
            call_ensures(
                sign_input,
                (&tx, 0usize, &private_key, SigHashType::All),
                Ok(signature),
            ) && call_ensures(
                verify_input,
                (&tx, 0usize, SigHashType::All, &public_key, &signature),
                false,
            ),
{
    let g = choose|g: Result<[u8; 64], ()>|
        #![trigger call_ensures(sign_input, (&tx, 0usize, &private_key, SigHashType::All), g)]
        {
            &&& call_ensures(sign_input, (&tx, 0usize, &private_key, SigHashType::All), g)
            &&& match g {
                Ok(signature) => call_ensures(
                    verify_input,
                    (&tx, 0usize, SigHashType::All, &public_key, &signature),
                    r,
                ),
                Err(_) => !r,
            }
        };
    match g {
        Ok(_) => {},
        Err(e) => {
            assert(e == ());
        },
    }
}

/// The signing flow is tried on what a reader gets of a payment with one
/// input of ten KAS from a key, and two outputs: five KAS to another, and the
/// change, less a fee of 0.01 KAS, back to the first.
pub proof fn law_flow_is_tried_on_a_payment(key: [u8; 32])
    ensures
        ({
            let tx = flow_received(key);
            let (x, y, z) = (tx.inputs@[0], tx.outputs@[0], tx.outputs@[1]);
            let own = seq![0x20u8] + key@ + seq![0xACu8];
            &&& tx.num_inputs == 1 && tx.num_outputs == 2
            &&& x.utxo_entry.amount == 1_000_000_000
            &&& x.utxo_entry.script_public_key.bytes() == own
            &&& y.value == 500_000_000
            &&& y.script_public_key.bytes() == seq![0x20u8] + Seq::new(32, |i: int| 0xFFu8) + seq![
                0xACu8,
            ]
            &&& z.value == 499_000_000
            &&& z.script_public_key.bytes() == own
        }),
{
    let sent = flow_payment(key);
    let other = repeated(0xFF);
    lemma_payment(
        sent,
        Outpoint { transaction_id: repeated(0x99), index: 0 },
        1_000_000_000,
        0,
        key,
        500_000_000,
        other,
        499_000_000,
        key,
    );
    let behind = Seq::<u8>::empty();
    let all = wire::transaction_bytes(Form::Unsigned, sent);
    assert(all + behind =~= all);
    roundtrip::law_unsigned_round_trip(sent, behind);
    let tx = flow_received(key);
    assert(roundtrip::same_input(sent.inputs@[0], tx.inputs@[0]));
    assert(roundtrip::same_output(sent.outputs@[0], tx.outputs@[0]));
    assert(roundtrip::same_output(sent.outputs@[1], tx.outputs@[1]));
    let own = seq![0x20u8] + key@ + seq![0xACu8];
    let theirs = seq![0x20u8] + other@ + seq![0xACu8];
    bytes::lemma_array_with(bytes::zero_array::<512>(), own);
    bytes::lemma_array_with(bytes::zero_array::<512>(), theirs);
    assert(pays_to(key).bytes() =~= own);
    assert(pays_to(other).bytes() =~= theirs);
    let full = Seq::new(32, |i: int| 0xFFu8);
    bytes::lemma_array_with(bytes::zero_array::<32>(), full);
    assert(other@ =~= full);
}

} // verus!
