//! The packed transaction format, as mathematics.
//!
//! ```text
//! header   magic "KSPT", version u8, flags u8
//! global   tx version u16, inputs u8, outputs u8, locktime u64,
//!          subnetwork 20 bytes, gas u64, payload length u16, payload
//! input    previous id 32 bytes, index u32, amount u64, sequence u64,
//!          signature operations u8, script
//! output   value u64, script
//! script   version u16, length, bytes
//! ```
//!
//! Numbers are little-endian. A length is one byte, or 0xFF and a u16. The
//! unsigned form has version 1, the multi-signature forms versions 2 and 3;
//! they differ in what follows the script of an input or an output.
use crate::bytes;
use crate::wallet::cursor;
use crate::wallet::pskt::PsktError;
use crate::wallet::status;
use crate::wallet::transaction::{
    InputSig, Outpoint, ScriptPublicKey, Transaction, TransactionInput, TransactionOutput,
    UtxoEntry, MAX_INPUTS, MAX_OUTPUTS, MAX_PAYLOAD_SIZE, MAX_REDEEM_SIZE, MAX_SCRIPT_SIZE,
    MAX_SIGS_PER_INPUT,
};
use vstd::prelude::*;

verus! {

/// The outcome of reading a part of the format into `value`: what `value` is
/// then (on an error, with the fields that could still be read), the position
/// behind the part, and the error.
#[verifier::ext_equal]
pub struct Filled<T> {
    pub value: T,
    pub at: int,
    pub error: Option<PsktError>,
}

/// "KSPT".
pub open spec fn magic() -> Seq<u8> {
    seq![0x4Bu8, 0x53u8, 0x50u8, 0x54u8]
}

/// The error of a part that needs more bytes than there are.
pub open spec fn short(missing: bool) -> Option<PsktError> {
    if missing {
        Some(PsktError::BufferTooShort)
    } else {
        None
    }
}

// ---- Reading ----

/// Whether a version byte belongs to the form that is being read.
pub open spec fn version_ok(signed: bool, version: u8) -> bool {
    if signed {
        version == 2 || version == 3
    } else {
        version == 1
    }
}

/// The error in the first six bytes.
pub open spec fn header_error(data: Seq<u8>, signed: bool) -> Option<PsktError> {
    if data.len() < 4 {
        Some(PsktError::BufferTooShort)
    } else if data.take(4) != magic() {
        Some(PsktError::InvalidMagic)
    } else if data.len() < 5 {
        Some(PsktError::BufferTooShort)
    } else if !version_ok(signed, data[4]) {
        Some(PsktError::UnsupportedVersion)
    } else {
        short(data.len() < 6)
    }
}

/// The error in the numbers of inputs and outputs.
pub open spec fn count_error(inputs: int, outputs: int) -> Option<PsktError> {
    if inputs == 0 {
        Some(PsktError::NoInputs)
    } else if inputs > MAX_INPUTS {
        Some(PsktError::TooManyInputs)
    } else if outputs == 0 {
        Some(PsktError::NoOutputs)
    } else if outputs > MAX_OUTPUTS {
        Some(PsktError::TooManyOutputs)
    } else {
        None
    }
}

/// The error in the global fields, the header being sound.
pub open spec fn globals_error(data: Seq<u8>) -> Option<PsktError> {
    if data.len() < 10 {
        Some(PsktError::BufferTooShort)
    } else if count_error(data[8] as int, data[9] as int) is Some {
        count_error(data[8] as int, data[9] as int)
    } else if data.len() < 48 {
        Some(PsktError::BufferTooShort)
    } else if cursor::le_at(data, 46, 2) > MAX_PAYLOAD_SIZE {
        Some(PsktError::PayloadTooLong)
    } else {
        short(data.len() < 48 + cursor::le_at(data, 46, 2))
    }
}

/// The global fields.
pub open spec fn globals_value(data: Seq<u8>) -> Transaction {
    let n = data.len();
    let tx = Transaction::blank();
    let counted = n >= 10 && count_error(data[8] as int, data[9] as int) is None;
    let payload_len = cursor::le_at(data, 46, 2);
    let payload_fits = counted && n >= 48 && payload_len <= MAX_PAYLOAD_SIZE;
    Transaction {
        version: if n >= 8 {
            cursor::le_at(data, 6, 2) as u16
        } else {
            tx.version
        },
        num_inputs: if counted {
            data[8] as usize
        } else {
            tx.num_inputs
        },
        num_outputs: if counted {
            data[9] as usize
        } else {
            tx.num_outputs
        },
        locktime: if counted && n >= 18 {
            cursor::le_at(data, 10, 8) as u64
        } else {
            tx.locktime
        },
        subnetwork_id: if counted && n >= 38 {
            bytes::array_of(data.subrange(18, 38))
        } else {
            tx.subnetwork_id
        },
        gas: if counted && n >= 46 {
            cursor::le_at(data, 38, 8) as u64
        } else {
            tx.gas
        },
        payload_len: if payload_fits {
            payload_len as usize
        } else {
            tx.payload_len
        },
        payload: if payload_fits && n >= 48 + payload_len {
            bytes::array_with(tx.payload, data.subrange(48, 48 + payload_len))
        } else {
            tx.payload
        },
        ..tx
    }
}

/// Header and global fields, read into an empty transaction.
pub open spec fn globals(data: Seq<u8>, signed: bool) -> Filled<Transaction> {
    if header_error(data, signed) is Some {
        Filled { value: Transaction::blank(), at: 0, error: header_error(data, signed) }
    } else {
        Filled {
            value: globals_value(data),
            at: 48 + cursor::le_at(data, 46, 2),
            error: globals_error(data),
        }
    }
}

/// A script. The unsigned form takes the version over only once the length is
/// known to fit.
pub open spec fn script_field(
    data: Seq<u8>,
    at: int,
    spk: ScriptPublicKey,
    signed: bool,
) -> Filled<ScriptPublicKey> {
    let version = cursor::le_at(data, at, 2) as u16;
    let early = ScriptPublicKey {
        version: if signed {
            version
        } else {
            spk.version
        },
        ..spk
    };
    if at + 2 > data.len() {
        Filled { value: spk, at, error: Some(PsktError::BufferTooShort) }
    } else {
        match cursor::spk_len_at(data, at + 2) {
            None => Filled { value: early, at, error: Some(PsktError::BufferTooShort) },
            Some((len, start)) => if len > MAX_SCRIPT_SIZE {
                Filled { value: early, at, error: Some(PsktError::ScriptTooLong) }
            } else {
                Filled {
                    value: ScriptPublicKey {
                        version,
                        script_len: len as usize,
                        script: if start + len <= data.len() {
                            bytes::array_with(spk.script, data.subrange(start, start + len))
                        } else {
                            spk.script
                        },
                    },
                    at: start + len,
                    error: short(start + len > data.len()),
                }
            },
        }
    }
}

/// The fields of an input in front of its script: 53 bytes.
pub open spec fn input_head(data: Seq<u8>, at: int, x: TransactionInput) -> Filled<
    TransactionInput,
> {
    let n = data.len() - at;
    Filled {
        value: TransactionInput {
            previous_outpoint: Outpoint {
                transaction_id: if n >= 32 {
                    bytes::array_of(data.subrange(at, at + 32))
                } else {
                    x.previous_outpoint.transaction_id
                },
                index: if n >= 36 {
                    cursor::le_at(data, at + 32, 4) as u32
                } else {
                    x.previous_outpoint.index
                },
            },
            utxo_entry: UtxoEntry {
                amount: if n >= 44 {
                    cursor::le_at(data, at + 36, 8) as u64
                } else {
                    x.utxo_entry.amount
                },
                ..x.utxo_entry
            },
            sequence: if n >= 52 {
                cursor::le_at(data, at + 44, 8) as u64
            } else {
                x.sequence
            },
            sig_op_count: if n >= 53 {
                data[at + 52]
            } else {
                x.sig_op_count
            },
            ..x
        },
        at: at + 53,
        error: short(n < 53),
    }
}

/// `x` with another script.
pub open spec fn input_with_script(x: TransactionInput, spk: ScriptPublicKey) -> TransactionInput {
    TransactionInput {
        utxo_entry: UtxoEntry { script_public_key: spk, ..x.utxo_entry },
        ..x
    }
}

/// The fields of an input up to the end of its script.
pub open spec fn input_core(data: Seq<u8>, at: int, x: TransactionInput, signed: bool) -> Filled<
    TransactionInput,
> {
    let head = input_head(data, at, x);
    if head.error is Some {
        head
    } else {
        let spk = script_field(data, head.at, x.utxo_entry.script_public_key, signed);
        Filled {
            value: input_with_script(head.value, spk.value),
            at: spk.at,
            error: spk.error,
        }
    }
}

/// The redeem script of input `i`, with a length of `width` bytes.
pub open spec fn redeem_field(
    data: Seq<u8>,
    at: int,
    width: int,
    tx: Transaction,
    i: int,
) -> Filled<Transaction> {
    let len = cursor::le_at(data, at, width);
    let start = at + width;
    if start > data.len() {
        Filled { value: tx, at, error: Some(PsktError::BufferTooShort) }
    } else if len == 0 {
        Filled { value: tx, at: start, error: None }
    } else if len > MAX_REDEEM_SIZE {
        Filled { value: tx, at, error: Some(PsktError::ScriptTooLong) }
    } else if start + len > data.len() {
        Filled { value: tx, at, error: Some(PsktError::BufferTooShort) }
    } else {
        match tx.with_redeem(i, data.subrange(start, start + len)) {
            Some(stored) => Filled { value: stored, at: start + len, error: None },
            None => Filled { value: tx, at, error: Some(PsktError::ScriptTooLong) },
        }
    }
}

/// One signature: key position, sighash type and 64 bytes.
pub open spec fn sig_field(data: Seq<u8>, at: int, slot: InputSig) -> Filled<InputSig> {
    let n = data.len() - at;
    Filled {
        value: InputSig {
            pubkey_pos: if n >= 1 {
                data[at]
            } else {
                slot.pubkey_pos
            },
            sighash_type: if n >= 2 {
                data[at + 1]
            } else {
                slot.sighash_type
            },
            signature: if n >= 66 {
                bytes::array_of(data.subrange(at + 2, at + 66))
            } else {
                slot.signature
            },
            present: n >= 66 || slot.present,
            ..slot
        },
        at: at + 66,
        error: short(n < 66),
    }
}

/// The signatures of an input from slot `s` on, `count` in all.
pub open spec fn sigs_field(
    data: Seq<u8>,
    at: int,
    x: TransactionInput,
    s: int,
    count: int,
) -> Filled<TransactionInput>
    decreases count - s,
{
    if s >= count {
        Filled { value: x, at, error: None }
    } else if s >= MAX_SIGS_PER_INPUT {
        Filled { value: x, at, error: Some(PsktError::TooManyInputs) }
    } else {
        let f = sig_field(data, at, x.sigs@[s]);
        let y = TransactionInput {
            sigs: vstd::array::spec_array_update(x.sigs, s, f.value),
            ..x
        };
        if f.error is Some {
            Filled { value: y, at: f.at, error: f.error }
        } else {
            sigs_field(data, f.at, y, s + 1, count)
        }
    }
}

/// The signature count, the signatures, and the first of them once more in
/// the single-signature fields.
pub open spec fn signatures_field(data: Seq<u8>, at: int, x: TransactionInput) -> Filled<
    TransactionInput,
> {
    if at + 1 > data.len() {
        Filled { value: x, at, error: Some(PsktError::BufferTooShort) }
    } else {
        let count = data[at];
        let f = sigs_field(
            data,
            at + 1,
            TransactionInput { sig_count: count, ..x },
            0,
            count as int,
        );
        if f.error is Some || count == 0 {
            f
        } else {
            Filled {
                value: TransactionInput {
                    signature: f.value.sigs@[0].signature,
                    sig_len: 64,
                    sighash_type: f.value.sigs@[0].sighash_type,
                    ..f.value
                },
                ..f
            }
        }
    }
}

/// Input `i` of the transaction.
pub open spec fn input_field(
    data: Seq<u8>,
    signed: bool,
    at: int,
    tx: Transaction,
    i: int,
) -> Filled<Transaction> {
    let core = input_core(data, at, tx.inputs@[i], signed);
    if core.error is Some {
        Filled { value: tx.with_input(i, core.value), at: core.at, error: core.error }
    } else if !signed {
        let tx1 = tx.with_input(i, TransactionInput { redeem_script_len: 0, ..core.value });
        if data[5] & 0x02 != 0 {
            redeem_field(data, core.at, 1, tx1, i)
        } else {
            Filled { value: tx1, at: core.at, error: None }
        }
    } else {
        let sigs = signatures_field(data, core.at, core.value);
        let tx1 = tx.with_input(i, sigs.value);
        if sigs.error is Some {
            Filled { value: tx1, at: sigs.at, error: sigs.error }
        } else {
            redeem_field(
                data,
                sigs.at,
                if data[4] == 3 {
                    2
                } else {
                    1
                },
                tx1,
                i,
            )
        }
    }
}

/// The inputs from `i` to `n`.
pub open spec fn inputs_field(
    data: Seq<u8>,
    signed: bool,
    at: int,
    tx: Transaction,
    i: int,
    n: int,
) -> Filled<Transaction>
    decreases n - i,
{
    if i >= n {
        Filled { value: tx, at, error: None }
    } else {
        let f = input_field(data, signed, at, tx, i);
        if f.error is Some {
            f
        } else {
            inputs_field(data, signed, f.at, f.value, i + 1, n)
        }
    }
}

/// The covenant binding of an output: a marker, and for 1 the binding input
/// and the covenant id.
pub open spec fn covenant_field(data: Seq<u8>, at: int, x: TransactionOutput) -> Filled<
    TransactionOutput,
> {
    let n = data.len() - at;
    if n < 1 {
        Filled { value: x, at, error: Some(PsktError::BufferTooShort) }
    } else if data[at] != 1 {
        Filled { value: TransactionOutput { has_covenant: false, ..x }, at: at + 1, error: None }
    } else {
        Filled {
            value: TransactionOutput {
                has_covenant: true,
                covenant_auth_input: if n >= 3 {
                    cursor::le_at(data, at + 1, 2) as u16
                } else {
                    x.covenant_auth_input
                },
                covenant_id: if n >= 35 {
                    bytes::array_of(data.subrange(at + 3, at + 35))
                } else {
                    x.covenant_id
                },
                ..x
            },
            at: at + 35,
            error: short(n < 35),
        }
    }
}

/// One output.
pub open spec fn output_field(data: Seq<u8>, signed: bool, at: int, x: TransactionOutput) -> Filled<
    TransactionOutput,
> {
    if at + 8 > data.len() {
        Filled { value: x, at, error: Some(PsktError::BufferTooShort) }
    } else {
        let spk = script_field(data, at + 8, x.script_public_key, signed);
        let y = TransactionOutput {
            value: cursor::le_at(data, at, 8) as u64,
            script_public_key: spk.value,
            ..x
        };
        if spk.error is Some || signed || data[5] & 0x04 == 0 {
            Filled { value: y, at: spk.at, error: spk.error }
        } else {
            covenant_field(data, spk.at, y)
        }
    }
}

/// The outputs from `i` to `n`.
pub open spec fn outputs_field(
    data: Seq<u8>,
    signed: bool,
    at: int,
    tx: Transaction,
    i: int,
    n: int,
) -> Filled<Transaction>
    decreases n - i,
{
    if i >= n {
        Filled { value: tx, at, error: None }
    } else {
        let f = output_field(data, signed, at, tx.outputs@[i]);
        let tx1 = tx.with_output(i, f.value);
        if f.error is Some {
            Filled { value: tx1, at: f.at, error: f.error }
        } else {
            outputs_field(data, signed, f.at, tx1, i + 1, n)
        }
    }
}

/// The stealth trailer: 'S' and a 32-byte tweak, when there is one.
pub open spec fn stealth_field(data: Seq<u8>, at: int, tx: Transaction) -> Filled<Transaction> {
    if at + 33 <= data.len() && data[at] == 0x53 {
        Filled {
            value: Transaction {
                stealth_tweak: bytes::array_of(data.subrange(at + 1, at + 33)),
                has_stealth_tweak: true,
                ..tx
            },
            at: at + 33,
            error: None,
        }
    } else {
        Filled { value: tx, at, error: None }
    }
}

/// The covenant trailers: 'C', an output, the binding input and the covenant
/// id, as often as they come. One for an output that is not there is skipped.
pub open spec fn covenants_field(data: Seq<u8>, at: int, tx: Transaction) -> Transaction
    decreases data.len() - at,
{
    if at + 36 <= data.len() && data[at] == 0x43 {
        let o = data[at + 1] as int;
        let tx1 = if o < tx.num_outputs {
            tx.with_output(
                o,
                TransactionOutput {
                    has_covenant: true,
                    covenant_auth_input: cursor::le_at(data, at + 2, 2) as u16,
                    covenant_id: bytes::array_of(data.subrange(at + 4, at + 36)),
                    ..tx.outputs@[o]
                },
            )
        } else {
            tx
        };
        covenants_field(data, at + 36, tx1)
    } else {
        tx
    }
}

/// All but the trailers.
pub open spec fn body(data: Seq<u8>, signed: bool) -> Filled<Transaction> {
    let g = globals(data, signed);
    if g.error is Some {
        g
    } else {
        let ins = inputs_field(data, signed, g.at, g.value, 0, g.value.num_inputs as int);
        if ins.error is Some {
            ins
        } else {
            outputs_field(data, signed, ins.at, ins.value, 0, g.value.num_outputs as int)
        }
    }
}

/// What a buffer in the unsigned form holds.
pub open spec fn unsigned(data: Seq<u8>) -> (Transaction, Option<PsktError>) {
    let f = body(data, false);
    (f.value, f.error)
}

/// What a buffer in a multi-signature form holds.
pub open spec fn multi_signed(data: Seq<u8>) -> (Transaction, Option<PsktError>) {
    let f = body(data, true);
    if f.error is Some {
        (f.value, f.error)
    } else {
        let s = stealth_field(data, f.at, f.value);
        (covenants_field(data, s.at, s.value), None)
    }
}

// ---- Writing ----

/// The three forms in which a transaction is written.
#[derive(Debug, Clone, Copy, PartialEq, Eq, Structural)]
pub enum Form {
    /// No signatures.
    Unsigned,
    /// At most one signature per input.
    SingleSigned,
    /// Any number of signatures per input, and the redeem script.
    MultiSigned,
}

/// Some output in use is bound to a covenant.
pub open spec fn has_covenants(tx: Transaction) -> bool {
    exists|i: int| 0 <= i < tx.num_outputs && #[trigger] tx.outputs@[i].has_covenant
}

/// The version byte of a form.
pub open spec fn form_version(form: Form) -> u8 {
    match form {
        Form::MultiSigned => 3,
        _ => 1,
    }
}

/// The flags: 0x01 for signatures (in the multi-signature form: for all of
/// them), 0x04 for covenant bindings.
pub open spec fn form_flags(form: Form, tx: Transaction) -> u8 {
    match form {
        Form::Unsigned => if has_covenants(tx) {
            0x04
        } else {
            0x00
        },
        Form::SingleSigned => if has_covenants(tx) {
            0x05
        } else {
            0x01
        },
        Form::MultiSigned => if status::fully_signed(tx) {
            0x01
        } else {
            0x00
        },
    }
}

/// Header and global fields.
pub open spec fn globals_fields(form: Form, tx: Transaction) -> Seq<Seq<u8>> {
    seq![magic()] + (seq![seq![form_version(form)]] + (seq![seq![form_flags(form, tx)]] + (seq![
        bytes::le_bytes(tx.version as nat, 2),
    ] + (seq![seq![tx.num_inputs as u8]] + (seq![seq![tx.num_outputs as u8]] + (seq![
        bytes::le_bytes(tx.locktime as nat, 8),
    ] + (seq![tx.subnetwork_id@] + (seq![bytes::le_bytes(tx.gas as nat, 8)] + (seq![
        bytes::le_bytes(tx.payload_len as nat, 2),
    ] + seq![tx.payload@.take(tx.payload_len as int)])))))))))
}

/// A script.
pub open spec fn script_fields(spk: ScriptPublicKey) -> Seq<Seq<u8>> {
    seq![bytes::le_bytes(spk.version as nat, 2)] + (cursor::spk_len_fields(spk.script_len as nat)
        + seq![spk.bytes()])
}

/// An input up to the end of its script.
pub open spec fn input_core_fields(x: TransactionInput) -> Seq<Seq<u8>> {
    seq![x.previous_outpoint.transaction_id@] + (seq![
        bytes::le_bytes(x.previous_outpoint.index as nat, 4),
    ] + (seq![bytes::le_bytes(x.utxo_entry.amount as nat, 8)] + (seq![
        bytes::le_bytes(x.sequence as nat, 8),
    ] + (seq![seq![x.sig_op_count]] + script_fields(x.utxo_entry.script_public_key)))))
}

/// The single signature of an input: its length, and if there is one, its
/// bytes and sighash type.
pub open spec fn single_sig_fields(x: TransactionInput) -> Seq<Seq<u8>> {
    seq![seq![x.sig_len]] + if x.sig_len > 0 {
        seq![x.signature@.take(x.sig_len as int)] + seq![seq![x.sighash_type]]
    } else {
        Seq::empty()
    }
}

/// One signature slot; nothing when it is unused.
pub open spec fn sig_fields(slot: InputSig) -> Seq<Seq<u8>> {
    if slot.present {
        seq![seq![slot.pubkey_pos]] + (seq![seq![slot.sighash_type]] + seq![slot.signature@])
    } else {
        Seq::empty()
    }
}

/// The signature slots from `s` to `n`.
pub open spec fn sigs_fields(x: TransactionInput, s: int, n: int) -> Seq<Seq<u8>>
    decreases n - s,
{
    if s >= n {
        Seq::empty()
    } else {
        sig_fields(x.sigs@[s]) + sigs_fields(x, s + 1, n)
    }
}

/// What follows the script of input `i`.
pub open spec fn input_tail_fields(form: Form, tx: Transaction, i: int) -> Seq<Seq<u8>> {
    let x = tx.inputs@[i];
    match form {
        Form::Unsigned => Seq::empty(),
        Form::SingleSigned => single_sig_fields(x),
        Form::MultiSigned => seq![seq![x.sig_count]] + (sigs_fields(x, 0, x.sig_count as int) + (
        seq![bytes::le_bytes(x.redeem_script_len as nat, 2)] + seq![tx.redeem(i)])),
    }
}

/// The inputs from `i` to `n`.
pub open spec fn inputs_fields(form: Form, tx: Transaction, i: int, n: int) -> Seq<Seq<u8>>
    decreases n - i,
{
    if i >= n {
        Seq::empty()
    } else {
        input_core_fields(tx.inputs@[i]) + (input_tail_fields(form, tx, i) + inputs_fields(
            form,
            tx,
            i + 1,
            n,
        ))
    }
}

/// The covenant binding of an output.
pub open spec fn covenant_fields(x: TransactionOutput) -> Seq<Seq<u8>> {
    if x.has_covenant {
        seq![seq![1u8]] + (seq![bytes::le_bytes(x.covenant_auth_input as nat, 2)] + seq![
            x.covenant_id@,
        ])
    } else {
        seq![seq![0u8]]
    }
}

/// One output, with or without its covenant binding.
pub open spec fn output_fields(x: TransactionOutput, covenants: bool) -> Seq<Seq<u8>> {
    seq![bytes::le_bytes(x.value as nat, 8)] + (script_fields(x.script_public_key) + if covenants {
        covenant_fields(x)
    } else {
        Seq::empty()
    })
}

/// The outputs from `i` to `n`.
pub open spec fn outputs_fields(tx: Transaction, covenants: bool, i: int, n: int) -> Seq<Seq<u8>>
    decreases n - i,
{
    if i >= n {
        Seq::empty()
    } else {
        output_fields(tx.outputs@[i], covenants) + outputs_fields(tx, covenants, i + 1, n)
    }
}

/// The multi-signature form carries no covenant bindings.
pub open spec fn form_covenants(form: Form, tx: Transaction) -> bool {
    !(form is MultiSigned) && has_covenants(tx)
}

/// A transaction in one of the three forms, field by field.
pub open spec fn transaction_fields(form: Form, tx: Transaction) -> Seq<Seq<u8>> {
    globals_fields(form, tx) + (inputs_fields(form, tx, 0, tx.num_inputs as int) + outputs_fields(
        tx,
        form_covenants(form, tx),
        0,
        tx.num_outputs as int,
    ))
}

/// A transaction in one of the three forms.
pub open spec fn transaction_bytes(form: Form, tx: Transaction) -> Seq<u8> {
    transaction_fields(form, tx).flatten()
}

/// What a form writes of a transaction lies within its buffers.
pub open spec fn writable(form: Form, tx: Transaction) -> bool {
    &&& tx.num_inputs <= MAX_INPUTS
    &&& tx.num_outputs <= MAX_OUTPUTS
    &&& tx.payload_len <= MAX_PAYLOAD_SIZE
    &&& forall|i: int|
        #![trigger tx.inputs@[i]]
        0 <= i < tx.num_inputs ==> {
            &&& tx.inputs@[i].utxo_entry.script_public_key.wf()
            &&& form is SingleSigned ==> tx.inputs@[i].sig_len <= 64
            &&& form is MultiSigned ==> tx.inputs@[i].sig_count <= MAX_SIGS_PER_INPUT
                && tx.redeem_wf(i)
        }
    &&& forall|i: int|
        #![trigger tx.outputs@[i]]
        0 <= i < tx.num_outputs ==> tx.outputs@[i].script_public_key.wf()
}

} // verus!
