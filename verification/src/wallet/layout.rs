//! Where each byte of the packed formats stands.
use crate::bytes;
use crate::wallet::cursor;
use crate::wallet::response;
use crate::wallet::response::{SignedResponse, MAX_SIGNATURES};
use crate::wallet::roundtrip;
use crate::wallet::status;
use crate::wallet::transaction::{
    InputSig, ScriptPublicKey, SigHashType, Transaction, TransactionInput, TransactionOutput,
};
use crate::wallet::wire;
use crate::wallet::wire::Form;
use vstd::prelude::*;

verus! {

/// The number in the two bytes at `at`, the low one first.
pub open spec fn number2(b: Seq<u8>, at: int) -> int {
    b[at] + 0x100 * b[at + 1]
}

/// The number in the four bytes at `at`, the lowest one first.
pub open spec fn number4(b: Seq<u8>, at: int) -> int {
    number2(b, at) + 0x1_0000 * number2(b, at + 2)
}

/// The number in the eight bytes at `at`, the lowest one first.
pub open spec fn number8(b: Seq<u8>, at: int) -> int {
    number4(b, at) + 0x1_0000_0000 * number4(b, at + 4)
}

/// A number is written with its lowest byte first.
pub proof fn law_numbers_are_little_endian(v: nat)
    ensures
        v < 0x1_0000 ==> bytes::le_bytes(v, 2).len() == 2 && number2(bytes::le_bytes(v, 2), 0) == v,
        v < 0x1_0000_0000 ==> bytes::le_bytes(v, 4).len() == 4 && number4(bytes::le_bytes(v, 4), 0)
            == v,
        v < 0x1_0000_0000_0000_0000 ==> bytes::le_bytes(v, 8).len() == 8 && number8(
            bytes::le_bytes(v, 8),
            0,
        ) == v,
{
    reveal_with_fuel(bytes::le_bytes, 9);
}

/// A script: its version, its length in one byte or in three, its bytes.
pub open spec fn script_block(spk: ScriptPublicKey) -> Seq<u8> {
    let len = spk.script_len as nat;
    bytes::le_bytes(spk.version as nat, 2) + (if len <= 254 {
        seq![len as u8]
    } else {
        seq![0xFFu8] + bytes::le_bytes(len, 2)
    }) + spk.script@.take(len as int)
}

/// A signature slot that is in use: the key position, the sighash type and
/// the 64 bytes.
pub open spec fn slot_block(slot: InputSig) -> Seq<u8> {
    if slot.present {
        seq![slot.pubkey_pos, slot.sighash_type] + slot.signature@
    } else {
        Seq::empty()
    }
}

/// The redeem script of input `i`, in the input or in the pool.
pub open spec fn redeem_block(tx: Transaction, i: int) -> Seq<u8> {
    let x = tx.inputs@[i];
    let (len, at) = (x.redeem_script_len as int, x.redeem_script_offset as int);
    if len > 0 && x.redeem_in_pool {
        tx.redeem_pool@.subrange(at, at + len)
    } else {
        x.redeem_script@.take(len)
    }
}

/// What follows the script of input `i`.
pub open spec fn tail_block(form: Form, tx: Transaction, i: int) -> Seq<u8> {
    let x = tx.inputs@[i];
    match form {
        Form::Unsigned => Seq::empty(),
        Form::SingleSigned => if x.sig_len == 0 {
            seq![0u8]
        } else {
            seq![x.sig_len] + x.signature@.take(x.sig_len as int) + seq![x.sighash_type]
        },
        Form::MultiSigned => seq![x.sig_count] + Seq::new(
            x.sig_count as nat,
            |s: int| slot_block(x.sigs@[s]),
        ).flatten() + bytes::le_bytes(x.redeem_script_len as nat, 2) + redeem_block(tx, i),
    }
}

/// What every form carries of an input: the output that it spends, its amount,
/// the sequence, the number of signature operations and the script.
pub open spec fn core_block(x: TransactionInput) -> Seq<u8> {
    x.previous_outpoint.transaction_id@ + bytes::le_bytes(x.previous_outpoint.index as nat, 4)
        + bytes::le_bytes(x.utxo_entry.amount as nat, 8) + bytes::le_bytes(x.sequence as nat, 8)
        + seq![x.sig_op_count] + script_block(x.utxo_entry.script_public_key)
}

/// Input `i`.
pub open spec fn input_block(form: Form, tx: Transaction, i: int) -> Seq<u8> {
    core_block(tx.inputs@[i]) + tail_block(form, tx, i)
}

/// An output: the amount, the script and, where bindings are written, a 0, or
/// a 1 with the binding input and the covenant id.
pub open spec fn output_block(x: TransactionOutput, bindings: bool) -> Seq<u8> {
    bytes::le_bytes(x.value as nat, 8) + script_block(x.script_public_key) + (if !bindings {
        Seq::empty()
    } else if x.has_covenant {
        seq![1u8] + bytes::le_bytes(x.covenant_auth_input as nat, 2) + x.covenant_id@
    } else {
        seq![0u8]
    })
}

proof fn lemma_join(x: Seq<u8>, rest: Seq<Seq<u8>>)
    ensures
        (seq![x] + rest).flatten() == x + rest.flatten(),
{
    roundtrip::lemma_field_size(x);
    vstd::seq_lib::lemma_flatten_concat(seq![x], rest);
}

proof fn lemma_one(x: Seq<u8>)
    ensures
        seq![x].flatten() == x,
{
    roundtrip::lemma_field_size(x);
}

proof fn lemma_script_block(spk: ScriptPublicKey)
    requires
        spk.wf(),
    ensures
        wire::script_fields(spk).flatten() == script_block(spk),
{
    let len = cursor::spk_len_fields(spk.script_len as nat);
    let b = spk.bytes();
    lemma_join(bytes::le_bytes(spk.version as nat, 2), len + seq![b]);
    vstd::seq_lib::lemma_flatten_concat(len, seq![b]);
    lemma_one(b);
    if spk.script_len <= 254 {
        lemma_one(seq![spk.script_len as u8]);
    } else {
        lemma_join(seq![0xFFu8], seq![bytes::le_bytes(spk.script_len as nat, 2)]);
        lemma_one(bytes::le_bytes(spk.script_len as nat, 2));
    }
    assert(wire::script_fields(spk).flatten() =~= script_block(spk));
}

/// The signature slots, joined.
pub proof fn lemma_slots(x: TransactionInput, s: int, n: int)
    requires
        0 <= s <= n,
    ensures
        wire::sigs_fields(x, s, n).flatten() == Seq::new(
            (n - s) as nat,
            |k: int| slot_block(x.sigs@[s + k]),
        ).flatten(),
    decreases n - s,
{
    let blocks = Seq::new((n - s) as nat, |k: int| slot_block(x.sigs@[s + k]));
    if s < n {
        let rest = Seq::new((n - s - 1) as nat, |k: int| slot_block(x.sigs@[s + 1 + k]));
        let slot = x.sigs@[s];
        lemma_slots(x, s + 1, n);
        vstd::seq_lib::lemma_flatten_concat(
            wire::sig_fields(slot),
            wire::sigs_fields(x, s + 1, n),
        );
        if slot.present {
            lemma_join(seq![slot.pubkey_pos], seq![seq![slot.sighash_type]] + seq![slot.signature@]);
            lemma_join(seq![slot.sighash_type], seq![slot.signature@]);
            lemma_one(slot.signature@);
        }
        assert(wire::sig_fields(slot).flatten() =~= slot_block(slot));
        lemma_join(slot_block(slot), rest);
        assert(blocks =~= seq![slot_block(slot)] + rest);
    } else {
        assert(blocks =~= Seq::empty());
    }
}

proof fn lemma_tail_block(form: Form, tx: Transaction, i: int)
    requires
        wire::writable(form, tx),
        0 <= i < tx.num_inputs,
    ensures
        wire::input_tail_fields(form, tx, i).flatten() == tail_block(form, tx, i),
{
    let x = tx.inputs@[i];
    match form {
        Form::Unsigned => {},
        Form::SingleSigned => {
            if x.sig_len > 0 {
                let sig = x.signature@.take(x.sig_len as int);
                lemma_join(seq![x.sig_len], seq![sig] + seq![seq![x.sighash_type]]);
                lemma_join(sig, seq![seq![x.sighash_type]]);
                lemma_one(seq![x.sighash_type]);
            } else {
                lemma_join(seq![x.sig_len], Seq::empty());
            }
            assert(wire::input_tail_fields(form, tx, i).flatten() =~= tail_block(form, tx, i));
        },
        Form::MultiSigned => {
            let sigs = wire::sigs_fields(x, 0, x.sig_count as int);
            let len = bytes::le_bytes(x.redeem_script_len as nat, 2);
            let redeem = tx.redeem(i);
            lemma_join(seq![x.sig_count], sigs + (seq![len] + seq![redeem]));
            vstd::seq_lib::lemma_flatten_concat(sigs, seq![len] + seq![redeem]);
            lemma_join(len, seq![redeem]);
            lemma_one(redeem);
            lemma_slots(x, 0, x.sig_count as int);
            assert(Seq::new(x.sig_count as nat, |k: int| slot_block(x.sigs@[0 + k])) =~= Seq::new(
                x.sig_count as nat,
                |s: int| slot_block(x.sigs@[s]),
            ));
            assert(redeem =~= redeem_block(tx, i));
            assert(wire::input_tail_fields(form, tx, i).flatten() =~= tail_block(form, tx, i));
        },
    }
}

/// The fields of an input up to the end of its script, joined.
pub proof fn lemma_core_block(x: TransactionInput)
    requires
        x.utxo_entry.script_public_key.wf(),
    ensures
        wire::input_core_fields(x).flatten() == core_block(x),
{
    let spk = x.utxo_entry.script_public_key;
    let p5 = wire::script_fields(spk);
    let p4 = seq![seq![x.sig_op_count]] + p5;
    let p3 = seq![bytes::le_bytes(x.sequence as nat, 8)] + p4;
    let p2 = seq![bytes::le_bytes(x.utxo_entry.amount as nat, 8)] + p3;
    let p1 = seq![bytes::le_bytes(x.previous_outpoint.index as nat, 4)] + p2;
    lemma_join(x.previous_outpoint.transaction_id@, p1);
    lemma_join(bytes::le_bytes(x.previous_outpoint.index as nat, 4), p2);
    lemma_join(bytes::le_bytes(x.utxo_entry.amount as nat, 8), p3);
    lemma_join(bytes::le_bytes(x.sequence as nat, 8), p4);
    lemma_join(seq![x.sig_op_count], p5);
    lemma_script_block(spk);
    assert(wire::input_core_fields(x).flatten() =~= core_block(x));
}

proof fn lemma_input_block(form: Form, tx: Transaction, i: int)
    requires
        wire::writable(form, tx),
        0 <= i < tx.num_inputs,
    ensures
        (wire::input_core_fields(tx.inputs@[i]) + wire::input_tail_fields(form, tx, i)).flatten()
            == input_block(form, tx, i),
{
    let core = wire::input_core_fields(tx.inputs@[i]);
    lemma_core_block(tx.inputs@[i]);
    lemma_tail_block(form, tx, i);
    vstd::seq_lib::lemma_flatten_concat(core, wire::input_tail_fields(form, tx, i));
}

proof fn lemma_inputs_blocks(form: Form, tx: Transaction, i: int, n: int)
    requires
        wire::writable(form, tx),
        0 <= i <= n <= tx.num_inputs,
    ensures
        wire::inputs_fields(form, tx, i, n).flatten() == Seq::new(
            (n - i) as nat,
            |k: int| input_block(form, tx, i + k),
        ).flatten(),
    decreases n - i,
{
    let blocks = Seq::new((n - i) as nat, |k: int| input_block(form, tx, i + k));
    if i < n {
        let rest = Seq::new((n - i - 1) as nat, |k: int| input_block(form, tx, i + 1 + k));
        let core = wire::input_core_fields(tx.inputs@[i]);
        let tail = wire::input_tail_fields(form, tx, i);
        let more = wire::inputs_fields(form, tx, i + 1, n);
        lemma_inputs_blocks(form, tx, i + 1, n);
        lemma_input_block(form, tx, i);
        assert(core + (tail + more) =~= (core + tail) + more);
        vstd::seq_lib::lemma_flatten_concat(core + tail, more);
        lemma_join(input_block(form, tx, i), rest);
        assert(blocks =~= seq![input_block(form, tx, i)] + rest);
    } else {
        assert(blocks =~= Seq::empty());
    }
}

proof fn lemma_output_block(x: TransactionOutput, bindings: bool)
    requires
        x.script_public_key.wf(),
    ensures
        wire::output_fields(x, bindings).flatten() == output_block(x, bindings),
{
    let spk = wire::script_fields(x.script_public_key);
    let tail = if bindings {
        wire::covenant_fields(x)
    } else {
        Seq::empty()
    };
    lemma_join(bytes::le_bytes(x.value as nat, 8), spk + tail);
    vstd::seq_lib::lemma_flatten_concat(spk, tail);
    lemma_script_block(x.script_public_key);
    if bindings && x.has_covenant {
        let auth = bytes::le_bytes(x.covenant_auth_input as nat, 2);
        lemma_join(seq![1u8], seq![auth] + seq![x.covenant_id@]);
        lemma_join(auth, seq![x.covenant_id@]);
        lemma_one(x.covenant_id@);
    } else if bindings {
        lemma_one(seq![0u8]);
    }
    assert(wire::output_fields(x, bindings).flatten() =~= output_block(x, bindings));
}

/// The outputs, joined.
pub proof fn lemma_outputs_blocks(tx: Transaction, bindings: bool, i: int, n: int)
    requires
        0 <= i <= n,
        forall|j: int| i <= j < n ==> (#[trigger] tx.outputs@[j]).script_public_key.wf(),
    ensures
        wire::outputs_fields(tx, bindings, i, n).flatten() == Seq::new(
            (n - i) as nat,
            |k: int| output_block(tx.outputs@[i + k], bindings),
        ).flatten(),
    decreases n - i,
{
    let blocks = Seq::new((n - i) as nat, |k: int| output_block(tx.outputs@[i + k], bindings));
    if i < n {
        let rest = Seq::new(
            (n - i - 1) as nat,
            |k: int| output_block(tx.outputs@[i + 1 + k], bindings),
        );
        let x = tx.outputs@[i];
        lemma_outputs_blocks(tx, bindings, i + 1, n);
        lemma_output_block(x, bindings);
        vstd::seq_lib::lemma_flatten_concat(
            wire::output_fields(x, bindings),
            wire::outputs_fields(tx, bindings, i + 1, n),
        );
        lemma_join(output_block(x, bindings), rest);
        assert(blocks =~= seq![output_block(x, bindings)] + rest);
    } else {
        assert(blocks =~= Seq::empty());
    }
}

/// The first 48 bytes: magic, version, flags and the global fields up to the
/// payload length.
pub open spec fn head_block(version: u8, flags: u8, tx: Transaction) -> Seq<u8> {
    seq![0x4Bu8, 0x53u8, 0x50u8, 0x54u8, version, flags] + bytes::le_bytes(tx.version as nat, 2)
        + seq![tx.num_inputs as u8, tx.num_outputs as u8] + bytes::le_bytes(tx.locktime as nat, 8)
        + tx.subnetwork_id@ + bytes::le_bytes(tx.gas as nat, 8) + bytes::le_bytes(
        tx.payload_len as nat,
        2,
    )
}

proof fn lemma_head_block(form: Form, tx: Transaction)
    ensures
        wire::globals_fields(form, tx).flatten() == head_block(
            wire::form_version(form),
            wire::form_flags(form, tx),
            tx,
        ) + tx.payload@.take(tx.payload_len as int),
{
    let version = seq![wire::form_version(form)];
    let flags = seq![wire::form_flags(form, tx)];
    let payload = tx.payload@.take(tx.payload_len as int);
    let p9 = seq![bytes::le_bytes(tx.payload_len as nat, 2)] + seq![payload];
    let p8 = seq![bytes::le_bytes(tx.gas as nat, 8)] + p9;
    let p7 = seq![tx.subnetwork_id@] + p8;
    let p6 = seq![bytes::le_bytes(tx.locktime as nat, 8)] + p7;
    let p5 = seq![seq![tx.num_outputs as u8]] + p6;
    let p4 = seq![seq![tx.num_inputs as u8]] + p5;
    let p3 = seq![bytes::le_bytes(tx.version as nat, 2)] + p4;
    let p2 = seq![flags] + p3;
    let p1 = seq![version] + p2;
    lemma_join(wire::magic(), p1);
    lemma_join(version, p2);
    lemma_join(flags, p3);
    lemma_join(bytes::le_bytes(tx.version as nat, 2), p4);
    lemma_join(seq![tx.num_inputs as u8], p5);
    lemma_join(seq![tx.num_outputs as u8], p6);
    lemma_join(bytes::le_bytes(tx.locktime as nat, 8), p7);
    lemma_join(tx.subnetwork_id@, p8);
    lemma_join(bytes::le_bytes(tx.gas as nat, 8), p9);
    lemma_join(bytes::le_bytes(tx.payload_len as nat, 2), seq![payload]);
    lemma_one(payload);
    assert(wire::globals_fields(form, tx).flatten() =~= head_block(
        wire::form_version(form),
        wire::form_flags(form, tx),
        tx,
    ) + payload);
}

/// A serialised transaction is a head of 48 bytes, the payload, one block for
/// every input in use and one for every output in use, in their order and with
/// nothing between or behind. The version is 3 for the multi-signature form
/// and else 1. Of the flags, 1 stands for signatures (in the multi-signature
/// form for all that are needed) and 4 for covenant bindings, which only the
/// two other forms carry.
pub proof fn law_transaction_layout(form: Form, tx: Transaction)
    requires
        wire::writable(form, tx),
    ensures
        ({
            let bound = exists|i: int|
                0 <= i < tx.num_outputs && #[trigger] tx.outputs@[i].has_covenant;
            let bindings = bound && !(form is MultiSigned);
            let version = if form is MultiSigned {
                3u8
            } else {
                1u8
            };
            let flags = match form {
                Form::Unsigned => 0,
                Form::SingleSigned => 1,
                Form::MultiSigned => if status::fully_signed(tx) {
                    1
                } else {
                    0int
                },
            } + if bindings {
                4
            } else {
                0int
            };
            wire::transaction_bytes(form, tx) == head_block(version, flags as u8, tx)
                + tx.payload@.take(tx.payload_len as int) + Seq::new(
                tx.num_inputs as nat,
                |i: int| input_block(form, tx, i),
            ).flatten() + Seq::new(
                tx.num_outputs as nat,
                |i: int| output_block(tx.outputs@[i], bindings),
            ).flatten()
        }),
{
    let n = tx.num_inputs as int;
    let m = tx.num_outputs as int;
    let bindings = wire::form_covenants(form, tx);
    let globals = wire::globals_fields(form, tx);
    let inputs = wire::inputs_fields(form, tx, 0, n);
    let outputs = wire::outputs_fields(tx, bindings, 0, m);
    vstd::seq_lib::lemma_flatten_concat(globals, inputs + outputs);
    vstd::seq_lib::lemma_flatten_concat(inputs, outputs);
    lemma_head_block(form, tx);
    lemma_inputs_blocks(form, tx, 0, n);
    lemma_outputs_blocks(tx, bindings, 0, m);
    assert(Seq::new(n as nat, |k: int| input_block(form, tx, 0 + k)) =~= Seq::new(
        n as nat,
        |i: int| input_block(form, tx, i),
    ));
    assert(Seq::new(m as nat, |k: int| output_block(tx.outputs@[0 + k], bindings)) =~= Seq::new(
        m as nat,
        |i: int| output_block(tx.outputs@[i], bindings),
    ));
    assert(wire::transaction_bytes(form, tx) =~= globals.flatten() + inputs.flatten()
        + outputs.flatten());
}

/// The wire bytes of the signature types: one bit for each base type, and the
/// highest bit for "anyone can pay". Every other byte is refused, and so is
/// the highest bit alone.
pub proof fn law_sighash_bytes(t: SigHashType, b: u8)
    ensures
        SigHashType::All.byte() == 1,
        SigHashType::NoOutputs.byte() == 2,
        SigHashType::Single.byte() == 4,
        SigHashType::AnyOneCanPay.byte() == 0x80,
        SigHashType::AllAnyOneCanPay.byte() == 0x81,
        SigHashType::NoneAnyOneCanPay.byte() == 0x82,
        SigHashType::SingleAnyOneCanPay.byte() == 0x84,
        SigHashType::of_byte(b) == Some(t) <==> t.byte() == b && b != 0x80,
        SigHashType::of_byte(b) is Some <==> b == 1 || b == 2 || b == 4 || b == 0x81 || b == 0x82
            || b == 0x84,
{
}

proof fn lemma_response_records(r: SignedResponse, i: int, n: int)
    requires
        0 <= i <= n,
    ensures
        response::signatures_fields(r, i, n).flatten() == Seq::new(
            (n - i) as nat,
            |k: int|
                seq![r.signatures@[i + k].input_index, r.signatures@[i + k].sighash_type.byte()]
                    + r.signatures@[i + k].signature@,
        ).flatten(),
    decreases n - i,
{
    let block = |k: int|
        seq![r.signatures@[k].input_index, r.signatures@[k].sighash_type.byte()]
            + r.signatures@[k].signature@;
    let blocks = Seq::new((n - i) as nat, |k: int| block(i + k));
    assert(blocks =~= Seq::new(
        (n - i) as nat,
        |k: int|
            seq![r.signatures@[i + k].input_index, r.signatures@[i + k].sighash_type.byte()]
                + r.signatures@[i + k].signature@,
    ));
    if i < n {
        let sig = r.signatures@[i];
        let rest = Seq::new((n - i - 1) as nat, |k: int| block(i + 1 + k));
        lemma_response_records(r, i + 1, n);
        assert(rest =~= Seq::new(
            (n - i - 1) as nat,
            |k: int|
                seq![
                    r.signatures@[i + 1 + k].input_index,
                    r.signatures@[i + 1 + k].sighash_type.byte(),
                ] + r.signatures@[i + 1 + k].signature@,
        ));
        let ty = seq![sig.sighash_type.byte()];
        lemma_join(seq![sig.input_index], seq![ty] + seq![sig.signature@]);
        lemma_join(ty, seq![sig.signature@]);
        lemma_one(sig.signature@);
        assert(response::signature_fields(sig).flatten() =~= block(i));
        vstd::seq_lib::lemma_flatten_concat(
            response::signature_fields(sig),
            response::signatures_fields(r, i + 1, n),
        );
        lemma_join(block(i), rest);
        assert(blocks =~= seq![block(i)] + rest);
    } else {
        assert(blocks =~= Seq::empty());
    }
}

/// A serialised response is the six bytes "KSSN", 1 and the number of
/// signatures, and then for every signature its input, its type and its 64
/// bytes.
pub proof fn law_response_layout(r: SignedResponse)
    requires
        r.num_signatures <= MAX_SIGNATURES,
    ensures
        response::response_bytes(r) == seq![
            0x4Bu8,
            0x53u8,
            0x53u8,
            0x4Eu8,
            1u8,
            r.num_signatures as u8,
        ] + Seq::new(
            r.num_signatures as nat,
            |i: int|
                seq![r.signatures@[i].input_index, r.signatures@[i].sighash_type.byte()]
                    + r.signatures@[i].signature@,
        ).flatten(),
{
    let n = r.num_signatures as int;
    let sigs = response::signatures_fields(r, 0, n);
    let counted = seq![seq![r.num_signatures as u8]] + sigs;
    lemma_join(response::response_magic(), seq![seq![1u8]] + counted);
    lemma_join(seq![1u8], counted);
    lemma_join(seq![r.num_signatures as u8], sigs);
    lemma_response_records(r, 0, n);
    let blocks = Seq::new(
        n as nat,
        |i: int|
            seq![r.signatures@[i].input_index, r.signatures@[i].sighash_type.byte()]
                + r.signatures@[i].signature@,
    );
    assert(Seq::new(
        (n - 0) as nat,
        |k: int|
            seq![r.signatures@[0 + k].input_index, r.signatures@[0 + k].sighash_type.byte()]
                + r.signatures@[0 + k].signature@,
    ) =~= blocks);
    assert(response::response_bytes(r) =~= seq![
        0x4Bu8,
        0x53u8,
        0x53u8,
        0x4Eu8,
        1u8,
        r.num_signatures as u8,
    ] + blocks.flatten());
}

/// Record `j` of an encoded response is complete and of a known type.
pub open spec fn record_readable(data: Seq<u8>, j: int) -> bool {
    let b = data[6 + 66 * j + 1];
    &&& 6 + 66 * j + 66 <= data.len()
    &&& b == 1 || b == 2 || b == 4 || b == 0x81 || b == 0x82 || b == 0x84
}

proof fn lemma_records_error(data: Seq<u8>, i: int, n: int)
    requires
        0 <= i <= n,
    ensures
        response::records_error(data, i, n) is None <==> forall|j: int|
            i <= j < n ==> #[trigger] record_readable(data, j),
    decreases n - i,
{
    if i < n {
        lemma_records_error(data, i + 1, n);
        if response::records_error(data, i, n) is Some {
            assert(response::records_error(data, i + 1, n) is Some || !record_readable(data, i));
        } else {
            assert(record_readable(data, i));
        }
    }
}

/// A response is read exactly where it starts with "KSSN", 1 and a number of
/// at most eight, and as many records follow that are whole and of a known
/// signature type. Every record gives one signature, with its input, its type
/// and its 64 bytes. Anything may stand behind.
pub proof fn law_response_is_read(data: Seq<u8>)
    ensures
        response::response_error(data) is None <==> {
            &&& data.len() >= 6
            &&& data.take(5) == seq![0x4Bu8, 0x53u8, 0x53u8, 0x4Eu8, 1u8]
            &&& data[5] <= 8
            &&& forall|j: int| 0 <= j < data[5] ==> #[trigger] record_readable(data, j)
        },
        response::response_error(data) is None ==> {
            let r = response::response_value(data);
            &&& r.num_signatures == data[5]
            &&& forall|j: int|
                #![trigger r.signatures@[j]]
                0 <= j < data[5] ==> {
                    &&& r.signatures@[j].input_index == data[6 + 66 * j]
                    &&& r.signatures@[j].sighash_type.byte() == data[7 + 66 * j]
                    &&& r.signatures@[j].signature@ == data.subrange(8 + 66 * j, 72 + 66 * j)
                }
        },
{
    let head = seq![0x4Bu8, 0x53u8, 0x53u8, 0x4Eu8, 1u8];
    if data.len() >= 6 {
        lemma_records_error(data, 0, data[5] as int);
        assert(data.take(4) =~= data.take(5).take(4));
        assert(head.take(4) =~= response::response_magic());
        assert(data.take(5) =~= data.take(4) + seq![data[4]]);
        assert(head =~= head.take(4) + seq![1u8]);
        assert(data.take(5)[4] == data[4]);
    }
    if response::response_error(data) is None {
        let r = response::response_value(data);
        assert forall|j: int|
            #![trigger r.signatures@[j]]
            0 <= j < data[5] implies {
            &&& r.signatures@[j].input_index == data[6 + 66 * j]
            &&& r.signatures@[j].sighash_type.byte() == data[7 + 66 * j]
            &&& r.signatures@[j].signature@ == data.subrange(8 + 66 * j, 72 + 66 * j)
        } by {
            assert(record_readable(data, j));
            let sig = data.subrange(8 + 66 * j, 72 + 66 * j);
            assert(r.signatures@[j] == response::record(data, j));
            bytes::lemma_array_with(bytes::zero_array::<64>(), sig);
            assert(r.signatures@[j].signature@ =~= sig);
        }
    }
}

} // verus!
