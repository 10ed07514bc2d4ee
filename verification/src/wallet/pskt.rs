//! The packed transaction format: parsing and serialising.
//!
//! The companion app packs a transaction into this binary form and shows it
//! as QR codes; the device reads it, signs, and answers the same way. The
//! layout is described in `wire`.
use crate::bytes;
use crate::wallet::cosigning;
use crate::wallet::cursor;
use crate::wallet::cursor::{ByteReader, ByteWriter};
use crate::wallet::status;
use crate::wallet::status::is_fully_signed;
use crate::wallet::transaction::{
    InputSig, ScriptPublicKey, Transaction, TransactionInput, TransactionOutput, MAX_INPUTS, MAX_OUTPUTS,
    MAX_PAYLOAD_SIZE, MAX_REDEEM_SIZE, MAX_SCRIPT_SIZE, MAX_SIGS_PER_INPUT, REDEEM_POOL_SIZE,
};
use crate::wallet::wellformed;
use crate::wallet::wire;
use crate::wallet::wire::Form;
use vstd::prelude::*;

verus! {

/// What can go wrong in parsing, signing or serialising.
#[derive(Debug, Clone, Copy, PartialEq, Eq, Structural)]
pub enum PsktError {
    /// The input ends too early.
    BufferTooShort,
    InvalidMagic,
    UnsupportedVersion,
    /// More than `MAX_INPUTS`.
    TooManyInputs,
    /// More than `MAX_OUTPUTS`.
    TooManyOutputs,
    /// A script does not fit.
    ScriptTooLong,
    /// More than `MAX_PAYLOAD_SIZE`.
    PayloadTooLong,
    InvalidSigHashType,
    /// The output has no room.
    OutputBufferTooSmall,
    /// No input is there, or none could be signed.
    NoInputs,
    /// No output is there.
    NoOutputs,
}

/// Version of the unsigned form.
const FORMAT_VERSION: u8 = 0x01;

/// Version of the multi-signature form with two-byte redeem lengths.
const FORMAT_VERSION_V3: u8 = 0x03;

/// The error of a result.
pub open spec fn error_of<T>(r: Result<T, PsktError>) -> Option<PsktError> {
    match r {
        Ok(_) => None,
        Err(e) => Some(e),
    }
}

/// A reader at position `at` did what reading a part says: the same value,
/// the same error, and on success the same position.
pub open spec fn reads<T>(
    before: ByteReader,
    after: ByteReader,
    value: T,
    f: wire::Filled<T>,
    r: Result<(), PsktError>,
) -> bool {
    &&& after.data == before.data
    &&& after.wf()
    &&& error_of(r) == f.error
    &&& r is Ok ==> after.pos == f.at
    &&& value == f.value
}

/// Magic, version and flags.
fn read_header(r: &mut ByteReader, signed: bool) -> (res: Result<(u8, u8), PsktError>)
    requires
        old(r).wf(),
        old(r).pos == 0,
    ensures
        final(r).data == old(r).data,
        final(r).wf(),
        error_of(res) == wire::header_error(old(r).data@, signed),
        res matches Ok((version, flags)) ==> {
            &&& final(r).pos == 6
            &&& version == old(r).data@[4]
            &&& flags == old(r).data@[5]
        },
{
    let magic = r.read_bytes(4)?;
    let expected: [u8; 4] = [0x4B, 0x53, 0x50, 0x54];
    assert(expected@ =~= wire::magic());
    assert(magic@ =~= r.data@.take(4));
    if !bytes::slice_eq(magic, expected.as_slice()) {
        return Err(PsktError::InvalidMagic);
    }
    let version = r.read_u8()?;
    let known = if signed {
        version == 0x02 || version == FORMAT_VERSION_V3
    } else {
        version == FORMAT_VERSION
    };
    if !known {
        return Err(PsktError::UnsupportedVersion);
    }
    let flags = r.read_u8()?;
    Ok((version, flags))
}

/// The error in the numbers of inputs and outputs.
fn check_counts(inputs: usize, outputs: usize) -> (res: Result<(), PsktError>)
    ensures
        error_of(res) == wire::count_error(inputs as int, outputs as int),
{
    if inputs == 0 {
        return Err(PsktError::NoInputs);
    }
    if inputs > MAX_INPUTS {
        return Err(PsktError::TooManyInputs);
    }
    if outputs == 0 {
        return Err(PsktError::NoOutputs);
    }
    if outputs > MAX_OUTPUTS {
        return Err(PsktError::TooManyOutputs);
    }
    Ok(())
}

/// The global fields.
fn read_globals(r: &mut ByteReader, tx: &mut Transaction, Ghost(signed): Ghost<bool>) -> (res:
    Result<(), PsktError>)
    requires
        old(r).wf(),
        old(r).pos == 6,
        wire::header_error(old(r).data@, signed) is None,
        *old(tx) == Transaction::blank(),
    ensures
        reads(*old(r), *final(r), *final(tx), wire::globals(old(r).data@, signed), res),
{
    tx.version = r.read_u16_le()?;
    let num_inputs = r.read_u8()? as usize;
    let num_outputs = r.read_u8()? as usize;
    check_counts(num_inputs, num_outputs)?;
    tx.num_inputs = num_inputs;
    tx.num_outputs = num_outputs;
    tx.locktime = r.read_u64_le()?;
    let subnet = r.read_bytes(20)?;
    tx.subnetwork_id = bytes::to_array(subnet);
    tx.gas = r.read_u64_le()?;
    let payload_len = r.read_u16_le()? as usize;
    if payload_len > MAX_PAYLOAD_SIZE {
        return Err(PsktError::PayloadTooLong);
    }
    tx.payload_len = payload_len;
    if payload_len > 0 {
        let payload = r.read_bytes(payload_len)?;
        bytes::copy_prefix(&mut tx.payload, payload);
    } else {
        proof {
            assert(r.data@.subrange(48, 48) =~= Seq::<u8>::empty());
        }
    }
    Ok(())
}

/// A script: version, length and bytes.
fn read_script(r: &mut ByteReader, spk: &mut ScriptPublicKey, signed: bool) -> (res: Result<
    (),
    PsktError,
>)
    requires
        old(r).wf(),
    ensures
        reads(
            *old(r),
            *final(r),
            *final(spk),
            wire::script_field(old(r).data@, old(r).pos as int, *old(spk), signed),
            res,
        ),
{
    let version = r.read_u16_le()?;
    if signed {
        spk.version = version;
    }
    let len = r.read_spk_len()?;
    if len > MAX_SCRIPT_SIZE {
        return Err(PsktError::ScriptTooLong);
    }
    spk.version = version;
    spk.script_len = len;
    let script = r.read_bytes(len)?;
    bytes::copy_prefix(&mut spk.script, script);
    Ok(())
}

/// An input up to the end of its script.
fn read_input_core(r: &mut ByteReader, x: &mut TransactionInput, signed: bool) -> (res: Result<
    (),
    PsktError,
>)
    requires
        old(r).wf(),
    ensures
        reads(
            *old(r),
            *final(r),
            *final(x),
            wire::input_core(old(r).data@, old(r).pos as int, *old(x), signed),
            res,
        ),
{
    x.previous_outpoint.transaction_id = r.read_hash256()?;
    x.previous_outpoint.index = r.read_u32_le()?;
    x.utxo_entry.amount = r.read_u64_le()?;
    x.sequence = r.read_u64_le()?;
    x.sig_op_count = r.read_u8()?;
    assert(*x == wire::input_head(old(r).data@, old(r).pos as int, *old(x)).value);
    read_script(r, &mut x.utxo_entry.script_public_key, signed)
}

/// The redeem script of input `i`, with a length of one byte or two.
fn read_redeem(r: &mut ByteReader, wide: bool, tx: &mut Transaction, i: usize) -> (res: Result<
    (),
    PsktError,
>)
    requires
        old(r).wf(),
        i < MAX_INPUTS,
        old(tx).redeem_pool_used <= REDEEM_POOL_SIZE,
    ensures
        reads(
            *old(r),
            *final(r),
            *final(tx),
            wire::redeem_field(
                old(r).data@,
                old(r).pos as int,
                if wide {
                    2
                } else {
                    1
                },
                *old(tx),
                i as int,
            ),
            res,
        ),
{
    let len: usize = if wide {
        r.read_u16_le()? as usize
    } else {
        proof {
            if r.pos < r.data@.len() {
                let s = r.data@.subrange(r.pos as int, r.pos + 1);
                reveal_with_fuel(bytes::le_nat, 2);
                assert(bytes::le_nat(s) == s[0]);
            }
        }
        r.read_u8()? as usize
    };
    if len > 0 {
        if len > MAX_REDEEM_SIZE {
            return Err(PsktError::ScriptTooLong);
        }
        let script = r.read_bytes(len)?;
        let stored = tx.store_redeem(i, script);
        if stored.is_err() {
            return Err(PsktError::ScriptTooLong);
        }
    }
    Ok(())
}

/// One signature.
fn read_sig(r: &mut ByteReader, slot: &mut InputSig) -> (res: Result<(), PsktError>)
    requires
        old(r).wf(),
    ensures
        reads(
            *old(r),
            *final(r),
            *final(slot),
            wire::sig_field(old(r).data@, old(r).pos as int, *old(slot)),
            res,
        ),
{
    slot.pubkey_pos = r.read_u8()?;
    slot.sighash_type = r.read_u8()?;
    let sig = r.read_bytes(64)?;
    slot.signature = bytes::to_array(sig);
    slot.present = true;
    Ok(())
}

/// The signatures of an input.
fn read_signatures(r: &mut ByteReader, x: &mut TransactionInput) -> (res: Result<(), PsktError>)
    requires
        old(r).wf(),
    ensures
        reads(
            *old(r),
            *final(r),
            *final(x),
            wire::signatures_field(old(r).data@, old(r).pos as int, *old(x)),
            res,
        ),
{
    let count = r.read_u8()?;
    x.sig_count = count;
    let ghost data = old(r).data@;
    let ghost want = wire::sigs_field(data, old(r).pos + 1, *x, 0, count as int);
    let mut s: usize = 0;
    while s < count as usize
        invariant
            s <= count,
            s <= MAX_SIGS_PER_INPUT,
            r.wf(),
            r.data == old(r).data,
            data == old(r).data@,
            old(r).pos < data.len(),
            count == data[old(r).pos as int],
            want == wire::sigs_field(
                data,
                old(r).pos + 1,
                (TransactionInput { sig_count: count, ..*old(x) }),
                0,
                count as int,
            ),
            want == wire::sigs_field(data, r.pos as int, *x, s as int, count as int),
        decreases count - s,
    {
        if s >= MAX_SIGS_PER_INPUT {
            return Err(PsktError::TooManyInputs);
        }
        read_sig(r, &mut x.sigs[s])?;
        s += 1;
    }
    if count > 0 {
        x.signature = x.sigs[0].signature;
        x.sig_len = 64;
        x.sighash_type = x.sigs[0].sighash_type;
    }
    Ok(())
}

/// Input `i`.
fn read_input(r: &mut ByteReader, header: (u8, u8), signed: bool, tx: &mut Transaction, i: usize)
    -> (res: Result<(), PsktError>)
    requires
        old(r).wf(),
        i < MAX_INPUTS,
        old(r).data@.len() >= 6,
        header == (old(r).data@[4], old(r).data@[5]),
        old(tx).redeem_pool_used <= REDEEM_POOL_SIZE,
    ensures
        reads(
            *old(r),
            *final(r),
            *final(tx),
            wire::input_field(old(r).data@, signed, old(r).pos as int, *old(tx), i as int),
            res,
        ),
        final(tx).redeem_pool_used <= REDEEM_POOL_SIZE,
        final(tx).num_outputs == old(tx).num_outputs,
{
    broadcast use bytes::lemma_update_twice;

    read_input_core(r, &mut tx.inputs[i], signed)?;
    if signed {
        read_signatures(r, &mut tx.inputs[i])?;
        read_redeem(r, header.0 == FORMAT_VERSION_V3, tx, i)
    } else {
        tx.inputs[i].redeem_script_len = 0;
        if (header.1 & 0x02) != 0 {
            read_redeem(r, false, tx, i)
        } else {
            Ok(())
        }
    }
}

/// The inputs, one after another.
fn read_inputs(r: &mut ByteReader, header: (u8, u8), signed: bool, tx: &mut Transaction, n: usize)
    -> (res: Result<(), PsktError>)
    requires
        old(r).wf(),
        n <= MAX_INPUTS,
        old(r).data@.len() >= 6,
        header == (old(r).data@[4], old(r).data@[5]),
        old(tx).redeem_pool_used <= REDEEM_POOL_SIZE,
    ensures
        reads(
            *old(r),
            *final(r),
            *final(tx),
            wire::inputs_field(
                old(r).data@,
                signed,
                old(r).pos as int,
                *old(tx),
                0,
                n as int,
            ),
            res,
        ),
        final(tx).num_outputs == old(tx).num_outputs,
{
    let ghost want = wire::inputs_field(r.data@, signed, r.pos as int, *tx, 0, n as int);
    let mut i: usize = 0;
    while i < n
        invariant
            i <= n <= MAX_INPUTS,
            r.wf(),
            r.data == old(r).data,
            r.data@.len() >= 6,
            header == (r.data@[4], r.data@[5]),
            tx.redeem_pool_used <= REDEEM_POOL_SIZE,
            tx.num_outputs == old(tx).num_outputs,
            want == wire::inputs_field(
                old(r).data@,
                signed,
                old(r).pos as int,
                *old(tx),
                0,
                n as int,
            ),
            want == wire::inputs_field(r.data@, signed, r.pos as int, *tx, i as int, n as int),
        decreases n - i,
    {
        read_input(r, header, signed, tx, i)?;
        i += 1;
    }
    Ok(())
}

/// The covenant binding of an output.
fn read_covenant(r: &mut ByteReader, x: &mut TransactionOutput) -> (res: Result<(), PsktError>)
    requires
        old(r).wf(),
    ensures
        reads(
            *old(r),
            *final(r),
            *final(x),
            wire::covenant_field(old(r).data@, old(r).pos as int, *old(x)),
            res,
        ),
{
    let has_cov = r.read_u8()?;
    if has_cov == 1 {
        x.has_covenant = true;
        x.covenant_auth_input = r.read_u16_le()?;
        let id = r.read_bytes(32)?;
        x.covenant_id = bytes::to_array(id);
    } else {
        x.has_covenant = false;
    }
    Ok(())
}

/// One output.
fn read_output(r: &mut ByteReader, header: (u8, u8), signed: bool, x: &mut TransactionOutput)
    -> (res: Result<(), PsktError>)
    requires
        old(r).wf(),
        old(r).data@.len() >= 6,
        header == (old(r).data@[4], old(r).data@[5]),
    ensures
        reads(
            *old(r),
            *final(r),
            *final(x),
            wire::output_field(old(r).data@, signed, old(r).pos as int, *old(x)),
            res,
        ),
{
    x.value = r.read_u64_le()?;
    read_script(r, &mut x.script_public_key, signed)?;
    if !signed && (header.1 & 0x04) != 0 {
        read_covenant(r, x)
    } else {
        Ok(())
    }
}

/// The outputs, one after another.
fn read_outputs(r: &mut ByteReader, header: (u8, u8), signed: bool, tx: &mut Transaction, n: usize)
    -> (res: Result<(), PsktError>)
    requires
        old(r).wf(),
        n <= MAX_OUTPUTS,
        old(r).data@.len() >= 6,
        header == (old(r).data@[4], old(r).data@[5]),
    ensures
        reads(
            *old(r),
            *final(r),
            *final(tx),
            wire::outputs_field(
                old(r).data@,
                signed,
                old(r).pos as int,
                *old(tx),
                0,
                n as int,
            ),
            res,
        ),
        final(tx).num_outputs == old(tx).num_outputs,
{
    let ghost want = wire::outputs_field(r.data@, signed, r.pos as int, *tx, 0, n as int);
    let mut i: usize = 0;
    while i < n
        invariant
            i <= n <= MAX_OUTPUTS,
            r.wf(),
            r.data == old(r).data,
            r.data@.len() >= 6,
            header == (r.data@[4], r.data@[5]),
            tx.num_outputs == old(tx).num_outputs,
            want == wire::outputs_field(
                old(r).data@,
                signed,
                old(r).pos as int,
                *old(tx),
                0,
                n as int,
            ),
            want == wire::outputs_field(r.data@, signed, r.pos as int, *tx, i as int, n as int),
        decreases n - i,
    {
        read_output(r, header, signed, &mut tx.outputs[i])?;
        i += 1;
    }
    Ok(())
}

/// Everything but the trailers.
fn read_body(r: &mut ByteReader, signed: bool, tx: &mut Transaction) -> (res: Result<
    (),
    PsktError,
>)
    requires
        old(r).wf(),
        old(r).pos == 0,
        *old(tx) == Transaction::blank(),
    ensures
        reads(*old(r), *final(r), *final(tx), wire::body(old(r).data@, signed), res),
        res is Ok ==> final(tx).num_outputs <= MAX_OUTPUTS,
{
    let header = read_header(r, signed)?;
    read_globals(r, tx, Ghost(signed))?;
    let num_inputs = tx.num_inputs;
    let num_outputs = tx.num_outputs;
    read_inputs(r, header, signed, tx, num_inputs)?;
    read_outputs(r, header, signed, tx, num_outputs)
}

/// Parses a transaction in the unsigned form into `tx`, whose old contents
/// are dropped first. On an error `tx` holds what could be read.
pub fn parse_pskt(data: &[u8], tx: &mut Transaction) -> (res: Result<(), PsktError>)
    ensures
        (*final(tx), error_of(res)) == wire::unsigned(data@),
        final(tx).wf(),
        res is Ok ==> cosigning::cosignable(*final(tx)),
        res is Ok ==> forall|form: Form| #[trigger] wire::writable(form, *final(tx)),
{
    proof {
        wellformed::law_unsigned_is_well_formed(data@);
    }
    tx.clear();
    let mut r = ByteReader::new(data);
    read_body(&mut r, false, tx)
}

/// Parses a transaction in a multi-signature form into `tx`, whose old
/// contents are dropped first. On an error `tx` holds what could be read.
pub fn parse_signed_pskt_v2(data: &[u8], tx: &mut Transaction) -> (res: Result<(), PsktError>)
    ensures
        (*final(tx), error_of(res)) == wire::multi_signed(data@),
        final(tx).wf(),
        res is Ok ==> cosigning::cosignable(*final(tx)),
        res is Ok ==> forall|form: Form| #[trigger] wire::writable(form, *final(tx)),
{
    proof {
        wellformed::law_multi_signed_is_well_formed(data@);
    }
    tx.clear();
    let mut r = ByteReader::new(data);
    read_body(&mut r, true, tx)?;
    if r.remaining() >= 33 && r.peek_u8() == Some(0x53u8) {
        let _marker = r.read_u8()?;
        let tweak = r.read_bytes(32)?;
        tx.stealth_tweak = bytes::to_array(tweak);
        tx.has_stealth_tweak = true;
    }
    let ghost want = wire::covenants_field(data@, r.pos as int, *tx);
    while r.remaining() >= 36 && r.peek_u8() == Some(0x43u8)
        invariant
            r.wf(),
            r.data == data,
            tx.num_outputs <= MAX_OUTPUTS,
            wire::multi_signed(data@) == (want, None::<PsktError>),
            want == wire::covenants_field(data@, r.pos as int, *tx),
        decreases data.len() - r.pos,
    {
        broadcast use bytes::lemma_update_twice;

        let _marker = r.read_u8()?;
        let out_idx = r.read_u8()? as usize;
        let auth_input = r.read_u16_le()?;
        let cov_id = r.read_bytes(32)?;
        if out_idx < tx.num_outputs {
            tx.outputs[out_idx].has_covenant = true;
            tx.outputs[out_idx].covenant_auth_input = auth_input;
            tx.outputs[out_idx].covenant_id = bytes::to_array(cov_id);
        }
    }
    Ok(())
}

/// Header and global fields.
fn write_globals(w: &mut ByteWriter, version: u8, flags: u8, tx: &Transaction, Ghost(form): Ghost<Form>)
    -> (r: Result<(), PsktError>)
    requires
        old(w).wf(),
        wire::writable(form, *tx),
        version == wire::form_version(form),
        flags == wire::form_flags(form, *tx),
        cursor::wants(*old(w), wire::globals_fields(form, *tx)),
    ensures
        cursor::wrote(*old(w), *final(w), wire::globals_fields(form, *tx), r),
        final(final(w).buf)@ == final(old(w).buf)@,
{
    broadcast use cursor::lemma_concat_assoc;

    let magic: [u8; 4] = [0x4B, 0x53, 0x50, 0x54];
    assert(magic@ =~= wire::magic());
    w.write_bytes(magic.as_slice())?;
    w.write_u8(version)?;
    w.write_u8(flags)?;
    w.write_u16_le(tx.version)?;
    w.write_u8(tx.num_inputs as u8)?;
    w.write_u8(tx.num_outputs as u8)?;
    w.write_u64_le(tx.locktime)?;
    w.write_bytes(tx.subnetwork_id.as_slice())?;
    w.write_u64_le(tx.gas)?;
    w.write_u16_le(tx.payload_len as u16)?;
    w.write_bytes(vstd::slice::slice_subrange(tx.payload.as_slice(), 0, tx.payload_len))
}

/// A script.
fn write_script(w: &mut ByteWriter, spk: &ScriptPublicKey) -> (r: Result<(), PsktError>)
    requires
        old(w).wf(),
        spk.wf(),
        cursor::wants(*old(w), wire::script_fields(*spk)),
    ensures
        cursor::wrote(*old(w), *final(w), wire::script_fields(*spk), r),
        final(final(w).buf)@ == final(old(w).buf)@,
{
    broadcast use cursor::lemma_concat_assoc;

    w.write_u16_le(spk.version)?;
    w.write_spk_len(spk.script_len)?;
    w.write_bytes(spk.script_bytes())
}

/// An input up to the end of its script.
fn write_input_core(w: &mut ByteWriter, x: &TransactionInput) -> (r: Result<(), PsktError>)
    requires
        old(w).wf(),
        x.utxo_entry.script_public_key.wf(),
        cursor::wants(*old(w), wire::input_core_fields(*x)),
    ensures
        cursor::wrote(*old(w), *final(w), wire::input_core_fields(*x), r),
        final(final(w).buf)@ == final(old(w).buf)@,
{
    broadcast use cursor::lemma_concat_assoc;

    w.write_bytes(x.previous_outpoint.transaction_id.as_slice())?;
    w.write_u32_le(x.previous_outpoint.index)?;
    w.write_u64_le(x.utxo_entry.amount)?;
    w.write_u64_le(x.sequence)?;
    w.write_u8(x.sig_op_count)?;
    write_script(w, &x.utxo_entry.script_public_key)
}

/// The single signature of an input.
fn write_single_sig(w: &mut ByteWriter, x: &TransactionInput) -> (r: Result<(), PsktError>)
    requires
        old(w).wf(),
        x.sig_len <= 64,
        cursor::wants(*old(w), wire::single_sig_fields(*x)),
    ensures
        cursor::wrote(*old(w), *final(w), wire::single_sig_fields(*x), r),
        final(final(w).buf)@ == final(old(w).buf)@,
{
    broadcast use {cursor::lemma_concat_assoc, cursor::lemma_concat_empty};

    w.write_u8(x.sig_len)?;
    if x.sig_len > 0 {
        w.write_bytes(
            vstd::slice::slice_subrange(x.signature.as_slice(), 0, x.sig_len as usize),
        )?;
        w.write_u8(x.sighash_type)?;
    }
    Ok(())
}

/// One signature slot.
fn write_sig(w: &mut ByteWriter, slot: &InputSig) -> (r: Result<(), PsktError>)
    requires
        old(w).wf(),
        cursor::wants(*old(w), wire::sig_fields(*slot)),
    ensures
        cursor::wrote(*old(w), *final(w), wire::sig_fields(*slot), r),
        final(final(w).buf)@ == final(old(w).buf)@,
{
    broadcast use {cursor::lemma_concat_assoc, cursor::lemma_concat_empty};

    if slot.present {
        w.write_u8(slot.pubkey_pos)?;
        w.write_u8(slot.sighash_type)?;
        w.write_bytes(slot.signature.as_slice())?;
    }
    Ok(())
}

/// The signatures and the redeem script of input `i`.
fn write_multi_tail(w: &mut ByteWriter, tx: &Transaction, i: usize) -> (r: Result<(), PsktError>)
    requires
        old(w).wf(),
        i < tx.num_inputs,
        wire::writable(Form::MultiSigned, *tx),
        cursor::wants(*old(w), wire::input_tail_fields(Form::MultiSigned, *tx, i as int)),
    ensures
        cursor::wrote(
            *old(w),
            *final(w),
            wire::input_tail_fields(Form::MultiSigned, *tx, i as int),
            r,
        ),
        final(final(w).buf)@ == final(old(w).buf)@,
{
    broadcast use {cursor::lemma_concat_assoc, cursor::lemma_concat_empty};

    let input = &tx.inputs[i];
    let ghost piece = wire::input_tail_fields(Form::MultiSigned, *tx, i as int);
    let ghost rest = choose|rest: Seq<Seq<u8>>| old(w).todo() == #[trigger] (piece + rest);
    let ghost tail = seq![bytes::le_bytes(input.redeem_script_len as nat, 2)] + (seq![
        tx.redeem(i as int),
    ] + rest);
    w.write_u8(input.sig_count)?;
    let count = input.sig_count as usize;
    let mut s: usize = 0;
    while s < count
        invariant
            s <= count <= MAX_SIGS_PER_INPUT,
            count == input.sig_count,
            w.wf(),
            w.start == old(w).start,
            w.fields == old(w).fields,
            final(w.buf)@ == final(old(w).buf)@,
            w.todo() == wire::sigs_fields(*input, s as int, count as int) + tail,
        decreases count - s,
    {
        broadcast use {cursor::lemma_concat_assoc, cursor::lemma_concat_empty};

        write_sig(w, &input.sigs[s])?;
        s += 1;
    }
    w.write_u16_le(input.redeem_script_len as u16)?;
    w.write_bytes(tx.redeem_bytes(i))?;
    proof {
        assert forall|q: Seq<Seq<u8>>|
            old(w).todo() == #[trigger] (piece + q) implies w.todo() == q by {
            assert((piece + q).skip(piece.len() as int) =~= q);
            assert((piece + rest).skip(piece.len() as int) =~= rest);
        }
    }
    Ok(())
}

/// The covenant binding of an output.
fn write_covenant(w: &mut ByteWriter, x: &TransactionOutput) -> (r: Result<(), PsktError>)
    requires
        old(w).wf(),
        cursor::wants(*old(w), wire::covenant_fields(*x)),
    ensures
        cursor::wrote(*old(w), *final(w), wire::covenant_fields(*x), r),
        final(final(w).buf)@ == final(old(w).buf)@,
{
    broadcast use cursor::lemma_concat_assoc;

    if x.has_covenant {
        w.write_u8(1)?;
        w.write_u16_le(x.covenant_auth_input)?;
        w.write_bytes(x.covenant_id.as_slice())
    } else {
        w.write_u8(0)
    }
}

/// One output.
fn write_output(w: &mut ByteWriter, x: &TransactionOutput, covenants: bool) -> (r: Result<
    (),
    PsktError,
>)
    requires
        old(w).wf(),
        x.script_public_key.wf(),
        cursor::wants(*old(w), wire::output_fields(*x, covenants)),
    ensures
        cursor::wrote(*old(w), *final(w), wire::output_fields(*x, covenants), r),
        final(final(w).buf)@ == final(old(w).buf)@,
{
    broadcast use {cursor::lemma_concat_assoc, cursor::lemma_concat_empty};

    w.write_u64_le(x.value)?;
    write_script(w, &x.script_public_key)?;
    if covenants {
        write_covenant(w, x)?;
    }
    Ok(())
}

/// Whether some output in use is bound to a covenant.
fn any_covenant(tx: &Transaction) -> (r: bool)
    requires
        tx.num_outputs <= MAX_OUTPUTS,
    ensures
        r == wire::has_covenants(*tx),
{
    let mut i: usize = 0;
    while i < tx.num_outputs
        invariant
            i <= tx.num_outputs <= MAX_OUTPUTS,
            forall|j: int| 0 <= j < i ==> !(#[trigger] tx.outputs@[j].has_covenant),
        decreases tx.num_outputs - i,
    {
        if tx.outputs[i].has_covenant {
            return true;
        }
        i += 1;
    }
    false
}

/// What serialising an encoding does: it is written in front of the old
/// contents, or there is an error when it does not fit, and the fields in
/// front of the first that does not fit are written.
pub open spec fn serialized(
    fields: Seq<Seq<u8>>,
    before: Seq<u8>,
    after: Seq<u8>,
    r: Result<usize, PsktError>,
) -> bool {
    let encoding = fields.flatten();
    if encoding.len() <= before.len() {
        &&& r matches Ok(n) && n == encoding.len()
        &&& after == encoding + before.skip(encoding.len() as int)
    } else {
        let n = cursor::fitting(fields, before.len() as int);
        &&& r == Err::<usize, PsktError>(PsktError::OutputBufferTooSmall)
        &&& after == encoding.take(n) + before.skip(n)
    }
}

/// Writes everything, in the given form.
fn write_transaction(w: &mut ByteWriter, form: Form, flags: u8, tx: &Transaction, covenants: bool)
    -> (r: Result<(), PsktError>)
    requires
        old(w).wf(),
        wire::writable(form, *tx),
        flags == wire::form_flags(form, *tx),
        covenants == wire::form_covenants(form, *tx),
        old(w).todo() == wire::transaction_fields(form, *tx),
    ensures
        final(w).wf(),
        final(w).start == old(w).start,
        final(w).fields == old(w).fields,
        final(final(w).buf)@ == final(old(w).buf)@,
        r is Ok ==> final(w).todo().len() == 0,
        r matches Err(e) ==> e == PsktError::OutputBufferTooSmall && final(w).stuck(),
{
    broadcast use {cursor::lemma_concat_assoc, cursor::lemma_concat_empty};

    let version: u8 = if form == Form::MultiSigned {
        FORMAT_VERSION_V3
    } else {
        FORMAT_VERSION
    };
    write_globals(w, version, flags, tx, Ghost(form))?;
    let ghost outs = wire::outputs_fields(*tx, covenants, 0, tx.num_outputs as int);
    let mut i: usize = 0;
    while i < tx.num_inputs
        invariant
            i <= tx.num_inputs <= MAX_INPUTS,
            wire::writable(form, *tx),
            w.wf(),
            w.start == old(w).start,
            w.fields == old(w).fields,
            final(w.buf)@ == final(old(w).buf)@,
            w.todo() == wire::inputs_fields(form, *tx, i as int, tx.num_inputs as int) + outs,
        decreases tx.num_inputs - i,
    {
        broadcast use {cursor::lemma_concat_assoc, cursor::lemma_concat_empty};

        assert(tx.inputs@[i as int].utxo_entry.script_public_key.wf());
        write_input_core(w, &tx.inputs[i])?;
        match form {
            Form::Unsigned => {},
            Form::SingleSigned => {
                write_single_sig(w, &tx.inputs[i])?;
            },
            Form::MultiSigned => {
                write_multi_tail(w, tx, i)?;
            },
        }
        i += 1;
    }
    assert(w.todo() =~= outs);
    assert(outs + Seq::<Seq<u8>>::empty() =~= outs);
    let mut i: usize = 0;
    while i < tx.num_outputs
        invariant
            i <= tx.num_outputs <= MAX_OUTPUTS,
            wire::writable(form, *tx),
            w.wf(),
            w.start == old(w).start,
            w.fields == old(w).fields,
            final(w.buf)@ == final(old(w).buf)@,
            w.todo() == wire::outputs_fields(*tx, covenants, i as int, tx.num_outputs as int),
        decreases tx.num_outputs - i,
    {
        assert(tx.outputs@[i as int].script_public_key.wf());
        write_output(w, &tx.outputs[i], covenants)?;
        i += 1;
    }
    Ok(())
}

/// Writes a transaction into `output` and tells how long it is.
fn serialize_form(form: Form, flags: u8, covenants: bool, tx: &Transaction, output: &mut [u8])
    -> (r: Result<usize, PsktError>)
    requires
        wire::writable(form, *tx),
        flags == wire::form_flags(form, *tx),
        covenants == wire::form_covenants(form, *tx),
    ensures
        serialized(wire::transaction_fields(form, *tx), old(output)@, final(output)@, r),
{
    let ghost fields = wire::transaction_fields(form, *tx);
    let mut w = ByteWriter::new(output, Ghost(fields));
    match write_transaction(&mut w, form, flags, tx, covenants) {
        Err(e) => {
            proof {
                cursor::lemma_fitting(fields, w.next@, w.start@.len() as int);
            }
            Err(e)
        },
        Ok(()) => {
            assert(fields.take(w.next@) =~= fields);
            Ok(w.written())
        },
    }
}

/// Serialises a transaction in the unsigned form. Returns its length.
pub fn serialize_pskt(tx: &Transaction, output: &mut [u8]) -> (r: Result<usize, PsktError>)
    requires
        wire::writable(Form::Unsigned, *tx),
    ensures
        serialized(
            wire::transaction_fields(Form::Unsigned, *tx),
            old(output)@,
            final(output)@,
            r,
        ),
        r is Ok <==> wire::transaction_bytes(Form::Unsigned, *tx).len() <= old(output)@.len(),
        r matches Ok(n) ==> final(output)@ == wire::transaction_bytes(Form::Unsigned, *tx) + old(
            output,
        )@.skip(n as int) && n == wire::transaction_bytes(Form::Unsigned, *tx).len(),
        r matches Err(e) ==> e == PsktError::OutputBufferTooSmall,
{
    let covenants = any_covenant(tx);
    let flags: u8 = if covenants {
        0x04
    } else {
        0x00
    };
    serialize_form(Form::Unsigned, flags, covenants, tx, output)
}

/// Serialises a transaction with the single signature of each input. Returns
/// its length.
pub fn serialize_signed_pskt(tx: &Transaction, output: &mut [u8]) -> (r: Result<usize, PsktError>)
    requires
        wire::writable(Form::SingleSigned, *tx),
    ensures
        serialized(
            wire::transaction_fields(Form::SingleSigned, *tx),
            old(output)@,
            final(output)@,
            r,
        ),
        r is Ok <==> wire::transaction_bytes(Form::SingleSigned, *tx).len() <= old(output)@.len(),
        r matches Ok(n) ==> final(output)@ == wire::transaction_bytes(Form::SingleSigned, *tx) + old(
            output,
        )@.skip(n as int) && n == wire::transaction_bytes(Form::SingleSigned, *tx).len(),
        r matches Err(e) ==> e == PsktError::OutputBufferTooSmall,
{
    let covenants = any_covenant(tx);
    let flags: u8 = if covenants {
        0x05
    } else {
        0x01
    };
    serialize_form(Form::SingleSigned, flags, covenants, tx, output)
}

/// Serialises a partly or fully signed transaction with all signatures and
/// redeem scripts, so that the next signer can take it up. Returns its length.
pub fn serialize_signed_pskt_v2(tx: &Transaction, output: &mut [u8]) -> (r: Result<
    usize,
    PsktError,
>)
    requires
        wire::writable(Form::MultiSigned, *tx),
    ensures
        serialized(
            wire::transaction_fields(Form::MultiSigned, *tx),
            old(output)@,
            final(output)@,
            r,
        ),
        r is Ok <==> wire::transaction_bytes(Form::MultiSigned, *tx).len() <= old(output)@.len(),
        r matches Ok(n) ==> final(output)@ == wire::transaction_bytes(Form::MultiSigned, *tx) + old(
            output,
        )@.skip(n as int) && n == wire::transaction_bytes(Form::MultiSigned, *tx).len(),
        r matches Err(e) ==> e == PsktError::OutputBufferTooSmall,
{
    assert(status::all_analyzable(*tx)) by {
        assert forall|i: int| 0 <= i < tx.num_inputs implies #[trigger] status::analyzable(
            *tx,
            i,
        ) by {
            let x = tx.inputs@[i];
        }
    }
    let flags: u8 = if is_fully_signed(tx) {
        0x01
    } else {
        0x00
    };
    serialize_form(Form::MultiSigned, flags, false, tx, output)
}

} // verus!
