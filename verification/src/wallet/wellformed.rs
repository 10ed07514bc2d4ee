//! Whatever a buffer holds, reading it leaves a well-formed transaction.
use crate::bytes;
use crate::wallet::cosigning;
use crate::wallet::cursor;
use crate::wallet::script;
use crate::wallet::status;
use crate::wallet::transaction;
use crate::wallet::transaction::{
    ScriptPublicKey, Transaction, TransactionInput, MAX_INPUTS, MAX_OUTPUTS, MAX_PAYLOAD_SIZE,
    MAX_SIGS_PER_INPUT,
};
use crate::wallet::wire;
use crate::wallet::wire::Form;
use vstd::prelude::*;

verus! {

/// Counts and scripts stay within their buffers, and so does the pool.
spec fn sound(tx: Transaction) -> bool {
    &&& tx.num_inputs <= MAX_INPUTS
    &&& tx.num_outputs <= MAX_OUTPUTS
    &&& tx.payload_len <= MAX_PAYLOAD_SIZE
    &&& transaction::pool_wf(tx)
    &&& forall|i: int|
        #![trigger tx.inputs@[i]]
        0 <= i < MAX_INPUTS ==> tx.inputs@[i].utxo_entry.script_public_key.wf()
    &&& forall|i: int|
        #![trigger tx.outputs@[i]]
        0 <= i < MAX_OUTPUTS ==> tx.outputs@[i].script_public_key.wf()
}

/// An input has no more signatures than slots, and the fields for
/// single-signature readers hold one or none.
spec fn slots_fit(x: TransactionInput) -> bool {
    x.sig_count <= MAX_SIGS_PER_INPUT && x.sig_len <= 64
}

proof fn lemma_sound(tx: Transaction)
    requires
        sound(tx),
    ensures
        tx.wf(),
{
    assert forall|i: int|
        #![trigger tx.inputs@[i]]
        0 <= i < MAX_INPUTS implies tx.inputs@[i].utxo_entry.script_public_key.wf()
        && tx.redeem_wf(i) by {
        assert(tx.inputs@[i].utxo_entry.script_public_key.wf());
    }
}

proof fn lemma_blank()
    ensures
        sound(Transaction::blank()),
        forall|i: int|
            0 <= i < MAX_INPUTS ==> #[trigger] slots_fit(Transaction::blank().inputs@[i]),
{
}

proof fn lemma_globals(data: Seq<u8>, signed: bool)
    ensures
        sound(wire::globals(data, signed).value),
        forall|i: int|
            0 <= i < MAX_INPUTS ==> #[trigger] slots_fit(
                wire::globals(data, signed).value.inputs@[i],
            ),
{
    lemma_blank();
    let tx = wire::globals(data, signed).value;
    assert(tx.inputs == Transaction::blank().inputs);
    assert(tx.outputs == Transaction::blank().outputs);
    assert(tx.redeem_pool_used == 0);
    assert(tx.payload_len <= MAX_PAYLOAD_SIZE) by {
        if data.len() >= 48 && cursor::le_at(data, 46, 2) <= MAX_PAYLOAD_SIZE {
            assert(cursor::le_at(data, 46, 2) >= 0);
        }
    }
    assert forall|i: int| 0 <= i < MAX_INPUTS implies #[trigger] slots_fit(tx.inputs@[i]) by {
        assert(slots_fit(Transaction::blank().inputs@[i]));
    }
}

proof fn lemma_script(data: Seq<u8>, at: int, spk: ScriptPublicKey, signed: bool)
    requires
        spk.wf(),
    ensures
        wire::script_field(data, at, spk, signed).value.wf(),
{
    if at + 2 <= data.len() {
        if let Some((len, start)) = cursor::spk_len_at(data, at + 2) {
            assert(len >= 0);
        }
    }
}

/// Putting an input that keeps its redeem script in place.
proof fn lemma_with_input(tx: Transaction, i: int, x: TransactionInput)
    requires
        sound(tx),
        0 <= i < MAX_INPUTS,
        x.utxo_entry.script_public_key.wf(),
        x.redeem_in_pool == tx.inputs@[i].redeem_in_pool,
        x.redeem_script_offset == tx.inputs@[i].redeem_script_offset,
        x.redeem_script_len <= tx.inputs@[i].redeem_script_len,
    ensures
        sound(tx.with_input(i, x)),
{
    let t = tx.with_input(i, x);
    assert(tx.inputs@[i].utxo_entry.script_public_key.wf());
    assert forall|j: int| #![trigger t.inputs@[j]] 0 <= j < MAX_INPUTS implies {
        let y = t.inputs@[j];
        &&& y.utxo_entry.script_public_key.wf()
        &&& if y.redeem_in_pool {
            y.redeem_script_offset + y.redeem_script_len <= t.redeem_pool_used
        } else {
            y.redeem_script_len <= transaction::MAX_SCRIPT_SIZE
        }
    } by {
        assert(tx.inputs@[j].utxo_entry.script_public_key.wf());
    }
}

proof fn lemma_redeem(data: Seq<u8>, at: int, width: int, tx: Transaction, i: int)
    requires
        sound(tx),
        0 <= i < MAX_INPUTS,
    ensures
        ({
            let t = wire::redeem_field(data, at, width, tx, i).value;
            &&& sound(t)
            &&& forall|j: int|
                #![trigger t.inputs@[j]]
                0 <= j < MAX_INPUTS ==> t.inputs@[j].sig_count == tx.inputs@[j].sig_count
                    && t.inputs@[j].sig_len == tx.inputs@[j].sig_len
        }),
{
    let f = wire::redeem_field(data, at, width, tx, i);
    let len = cursor::le_at(data, at, width);
    let script = data.subrange(at + width, at + width + len);
    if f.value != tx {
        transaction::law_stored_redeem_reads_back(tx, i, script);
        let t = f.value;
        assert forall|j: int| #![trigger t.inputs@[j]] 0 <= j < MAX_INPUTS implies {
            &&& t.inputs@[j].utxo_entry.script_public_key.wf()
            &&& t.inputs@[j].sig_count == tx.inputs@[j].sig_count
            &&& t.inputs@[j].sig_len == tx.inputs@[j].sig_len
        } by {
            assert(tx.inputs@[j].utxo_entry.script_public_key.wf());
        }
        assert(t.outputs == tx.outputs);
    }
}

proof fn lemma_sigs(data: Seq<u8>, at: int, x: TransactionInput, s: int, count: int)
    requires
        0 <= s <= MAX_SIGS_PER_INPUT,
    ensures
        ({
            let f = wire::sigs_field(data, at, x, s, count);
            &&& f.value == TransactionInput { sigs: f.value.sigs, ..x }
            &&& f.error is None ==> count <= MAX_SIGS_PER_INPUT
        }),
    decreases count - s,
{
    if s < count && s < MAX_SIGS_PER_INPUT {
        let f = wire::sig_field(data, at, x.sigs@[s]);
        let y = TransactionInput {
            sigs: vstd::array::spec_array_update(x.sigs, s, f.value),
            ..x
        };
        if f.error is None {
            lemma_sigs(data, f.at, y, s + 1, count);
        }
    }
}

proof fn lemma_signatures(data: Seq<u8>, at: int, x: TransactionInput)
    requires
        slots_fit(x),
    ensures
        ({
            let f = wire::signatures_field(data, at, x);
            &&& f.value.utxo_entry == x.utxo_entry
            &&& f.value.redeem_in_pool == x.redeem_in_pool
            &&& f.value.redeem_script_offset == x.redeem_script_offset
            &&& f.value.redeem_script_len == x.redeem_script_len
            &&& f.error is None ==> slots_fit(f.value)
        }),
{
    if at + 1 <= data.len() {
        lemma_sigs(
            data,
            at + 1,
            TransactionInput { sig_count: data[at], ..x },
            0,
            data[at] as int,
        );
    }
}

proof fn lemma_input(data: Seq<u8>, signed: bool, at: int, tx: Transaction, i: int)
    requires
        sound(tx),
        0 <= i < MAX_INPUTS,
        forall|j: int| 0 <= j < MAX_INPUTS ==> #[trigger] slots_fit(tx.inputs@[j]),
    ensures
        ({
            let f = wire::input_field(data, signed, at, tx, i);
            &&& sound(f.value)
            &&& f.value.num_inputs == tx.num_inputs
            &&& f.error is None ==> forall|j: int|
                0 <= j < MAX_INPUTS ==> #[trigger] slots_fit(f.value.inputs@[j])
        }),
{
    let x = tx.inputs@[i];
    assert(slots_fit(x));
    assert(x.utxo_entry.script_public_key.wf());
    let core = wire::input_core(data, at, x, signed);
    lemma_script(data, at + 53, x.utxo_entry.script_public_key, signed);
    lemma_with_input(tx, i, core.value);
    let f = wire::input_field(data, signed, at, tx, i);
    if core.error is None {
        if !signed {
            let y = TransactionInput { redeem_script_len: 0, ..core.value };
            let tx1 = tx.with_input(i, y);
            lemma_with_input(tx, i, y);
            lemma_redeem(data, core.at, 1, tx1, i);
            assert forall|j: int| 0 <= j < MAX_INPUTS implies #[trigger] slots_fit(
                f.value.inputs@[j],
            ) by {
                assert(slots_fit(tx.inputs@[j]));
                assert(slots_fit(tx1.inputs@[j]));
            }
        } else {
            lemma_signatures(data, core.at, core.value);
            let sigs = wire::signatures_field(data, core.at, core.value);
            let tx1 = tx.with_input(i, sigs.value);
            lemma_with_input(tx, i, sigs.value);
            let width = if data[4] == 3 {
                2int
            } else {
                1
            };
            lemma_redeem(data, sigs.at, width, tx1, i);
            if sigs.error is None {
                assert forall|j: int| 0 <= j < MAX_INPUTS implies #[trigger] slots_fit(
                    f.value.inputs@[j],
                ) by {
                    assert(slots_fit(tx.inputs@[j]));
                    assert(slots_fit(tx1.inputs@[j]));
                }
            }
        }
    }
}

proof fn lemma_inputs(data: Seq<u8>, signed: bool, at: int, tx: Transaction, i: int, n: int)
    requires
        sound(tx),
        0 <= i <= n <= MAX_INPUTS,
        forall|j: int| 0 <= j < MAX_INPUTS ==> #[trigger] slots_fit(tx.inputs@[j]),
    ensures
        ({
            let f = wire::inputs_field(data, signed, at, tx, i, n);
            &&& sound(f.value)
            &&& f.error is None ==> forall|j: int|
                0 <= j < MAX_INPUTS ==> #[trigger] slots_fit(f.value.inputs@[j])
        }),
    decreases n - i,
{
    if i < n {
        lemma_input(data, signed, at, tx, i);
        let f = wire::input_field(data, signed, at, tx, i);
        if f.error is None {
            lemma_inputs(data, signed, f.at, f.value, i + 1, n);
        }
    }
}

proof fn lemma_with_output(tx: Transaction, i: int, x: transaction::TransactionOutput)
    requires
        sound(tx),
        0 <= i < MAX_OUTPUTS,
        x.script_public_key.wf(),
    ensures
        sound(tx.with_output(i, x)),
{
    let t = tx.with_output(i, x);
    assert forall|j: int|
        #![trigger t.outputs@[j]]
        0 <= j < MAX_OUTPUTS implies t.outputs@[j].script_public_key.wf() by {
        assert(tx.outputs@[j].script_public_key.wf());
    }
}

proof fn lemma_outputs(data: Seq<u8>, signed: bool, at: int, tx: Transaction, i: int, n: int)
    requires
        sound(tx),
        0 <= i <= n <= MAX_OUTPUTS,
    ensures
        sound(wire::outputs_field(data, signed, at, tx, i, n).value),
        wire::outputs_field(data, signed, at, tx, i, n).value.inputs == tx.inputs,
    decreases n - i,
{
    if i < n {
        let x = tx.outputs@[i];
        assert(x.script_public_key.wf());
        lemma_script(data, at + 8, x.script_public_key, signed);
        let f = wire::output_field(data, signed, at, x);
        lemma_with_output(tx, i, f.value);
        if f.error is None {
            lemma_outputs(data, signed, f.at, tx.with_output(i, f.value), i + 1, n);
        }
    }
}

proof fn lemma_body(data: Seq<u8>, signed: bool)
    ensures
        sound(wire::body(data, signed).value),
        wire::body(data, signed).error is None ==> forall|j: int|
            0 <= j < MAX_INPUTS ==> #[trigger] slots_fit(wire::body(data, signed).value.inputs@[j]),
{
    let g = wire::globals(data, signed);
    lemma_globals(data, signed);
    if g.error is None {
        lemma_inputs(data, signed, g.at, g.value, 0, g.value.num_inputs as int);
        let f = wire::inputs_field(data, signed, g.at, g.value, 0, g.value.num_inputs as int);
        if f.error is None {
            lemma_outputs(data, signed, f.at, f.value, 0, g.value.num_outputs as int);
        }
    }
}

proof fn lemma_covenants(data: Seq<u8>, at: int, tx: Transaction)
    requires
        sound(tx),
    ensures
        sound(wire::covenants_field(data, at, tx)),
        wire::covenants_field(data, at, tx).inputs == tx.inputs,
    decreases data.len() - at,
{
    if at + 36 <= data.len() && data[at] == 0x43 {
        let o = data[at + 1] as int;
        if o < tx.num_outputs {
            assert(tx.outputs@[o].script_public_key.wf());
            let x = transaction::TransactionOutput {
                has_covenant: true,
                covenant_auth_input: cursor::le_at(data, at + 2, 2) as u16,
                covenant_id: bytes::array_of(data.subrange(at + 4, at + 36)),
                ..tx.outputs@[o]
            };
            lemma_with_output(tx, o, x);
            lemma_covenants(data, at + 36, tx.with_output(o, x));
        } else {
            lemma_covenants(data, at + 36, tx);
        }
    }
}

/// A transaction that was read without error can be written in every form,
/// and signed.
proof fn lemma_usable(tx: Transaction)
    requires
        sound(tx),
        forall|j: int| 0 <= j < MAX_INPUTS ==> #[trigger] slots_fit(tx.inputs@[j]),
    ensures
        forall|form: Form| #[trigger] wire::writable(form, tx),
        cosigning::cosignable(tx),
{
    lemma_sound(tx);
    assert forall|form: Form| #[trigger] wire::writable(form, tx) by {
        assert forall|i: int|
            #![trigger tx.inputs@[i]]
            0 <= i < tx.num_inputs implies {
            &&& tx.inputs@[i].utxo_entry.script_public_key.wf()
            &&& form is SingleSigned ==> tx.inputs@[i].sig_len <= 64
            &&& form is MultiSigned ==> tx.inputs@[i].sig_count <= MAX_SIGS_PER_INPUT
                && tx.redeem_wf(i)
        } by {
            assert(slots_fit(tx.inputs@[i]));
        }
    }
    assert forall|i: int| 0 <= i < tx.num_inputs implies #[trigger] status::analyzable(tx, i) by {
        assert(tx.inputs@[i].utxo_entry.script_public_key.wf());
    }
    assert forall|i: int|
        #![trigger tx.inputs@[i]]
        0 <= i < tx.num_inputs implies tx.inputs@[i].sig_count <= MAX_SIGS_PER_INPUT by {
        assert(slots_fit(tx.inputs@[i]));
    }
}

/// Reading the unsigned form leaves a well-formed transaction, whatever the
/// buffer holds; on success it can be written in every form, and signed.
pub proof fn law_unsigned_is_well_formed(data: Seq<u8>)
    ensures
        wire::unsigned(data).0.wf(),
        transaction::pool_wf(wire::unsigned(data).0),
        wire::unsigned(data).1 is None ==> cosigning::cosignable(wire::unsigned(data).0)
            && forall|form: Form| #[trigger] wire::writable(form, wire::unsigned(data).0),
{
    lemma_body(data, false);
    let tx = wire::body(data, false).value;
    lemma_sound(tx);
    if wire::body(data, false).error is None {
        lemma_usable(tx);
    }
}

/// Reading a multi-signature form leaves a well-formed transaction, whatever
/// the buffer holds; on success it can be written in every form, and signed.
pub proof fn law_multi_signed_is_well_formed(data: Seq<u8>)
    ensures
        wire::multi_signed(data).0.wf(),
        transaction::pool_wf(wire::multi_signed(data).0),
        wire::multi_signed(data).1 is None ==> cosigning::cosignable(wire::multi_signed(data).0)
            && forall|form: Form| #[trigger] wire::writable(form, wire::multi_signed(data).0),
{
    lemma_body(data, true);
    let f = wire::body(data, true);
    lemma_sound(f.value);
    if f.error is None {
        let s = wire::stealth_field(data, f.at, f.value);
        assert(sound(s.value));
        lemma_covenants(data, s.at, s.value);
        let tx = wire::covenants_field(data, s.at, s.value);
        lemma_sound(tx);
        assert forall|j: int| 0 <= j < MAX_INPUTS implies #[trigger] slots_fit(tx.inputs@[j]) by {
            assert(slots_fit(f.value.inputs@[j]));
        }
        lemma_usable(tx);
    }
}

} // verus!
