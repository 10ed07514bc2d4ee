//! What is written in the packed format reads back.
use crate::bytes;
use crate::wallet::cursor;
use crate::wallet::response;
use crate::wallet::response::{SignedResponse, MAX_SIGNATURES};
use crate::wallet::script;
use crate::wallet::status;
use crate::wallet::transaction;
use crate::wallet::transaction::{
    InputSig, ScriptPublicKey, Transaction, TransactionInput, TransactionOutput, MAX_INPUTS,
    MAX_OUTPUTS, MAX_REDEEM_SIZE, MAX_SCRIPT_SIZE, MAX_SIGS_PER_INPUT,
    REDEEM_POOL_SIZE,
};
use crate::wallet::wire;
use crate::wallet::wire::{Filled, Form};
use vstd::prelude::*;

verus! {

/// `piece` stands in `data` at `at`.
pub open spec fn holds(data: Seq<u8>, at: int, piece: Seq<u8>) -> bool {
    &&& 0 <= at
    &&& at + piece.len() <= data.len()
    &&& data.subrange(at, at + piece.len()) == piece
}

/// How many bytes the fields take.
pub open spec fn size(fields: Seq<Seq<u8>>) -> int {
    fields.flatten().len() as int
}

/// The fields stand in `data` from `at` on, one behind the other.
pub open spec fn holds_all(data: Seq<u8>, at: int, fields: Seq<Seq<u8>>) -> bool {
    holds(data, at, fields.flatten())
}

/// Sizes add up.
pub broadcast proof fn lemma_size(a: Seq<Seq<u8>>, b: Seq<Seq<u8>>)
    ensures
        #[trigger] size(a + b) == size(a) + size(b),
{
    vstd::seq_lib::lemma_flatten_concat(a, b);
}

/// The size of one field.
pub broadcast proof fn lemma_field_size(x: Seq<u8>)
    ensures
        #[trigger] size(seq![x]) == x.len(),
        seq![x].flatten() == x,
{
    seq![x].lemma_flatten_one_element();
}

/// Two groups of fields.
proof fn lemma_split(data: Seq<u8>, at: int, a: Seq<Seq<u8>>, b: Seq<Seq<u8>>)
    requires
        holds_all(data, at, a + b),
    ensures
        holds_all(data, at, a),
        holds_all(data, at + size(a), b),
        size(a + b) == size(a) + size(b),
{
    vstd::seq_lib::lemma_flatten_concat(a, b);
    let (x, y) = (a.flatten(), b.flatten());
    let whole = data.subrange(at, at + (x + y).len());
    assert(data.subrange(at, at + x.len()) =~= whole.take(x.len() as int));
    assert((x + y).take(x.len() as int) =~= x);
    assert(data.subrange(at + x.len(), at + x.len() + y.len()) =~= whole.skip(x.len() as int));
    assert((x + y).skip(x.len() as int) =~= y);
}

/// A field, and what follows.
proof fn lemma_field(data: Seq<u8>, at: int, x: Seq<u8>, rest: Seq<Seq<u8>>)
    requires
        holds_all(data, at, seq![x] + rest),
    ensures
        holds(data, at, x),
        holds_all(data, at + x.len(), rest),
        size(seq![x] + rest) == x.len() + size(rest),
{
    lemma_field_size(x);
    lemma_split(data, at, seq![x], rest);
}

/// The last field.
proof fn lemma_last(data: Seq<u8>, at: int, x: Seq<u8>)
    requires
        holds_all(data, at, seq![x]),
    ensures
        holds(data, at, x),
        size(seq![x]) == x.len(),
{
    lemma_field_size(x);
}

/// One byte.
proof fn lemma_holds_byte(data: Seq<u8>, at: int, b: u8)
    requires
        holds(data, at, seq![b]),
    ensures
        data[at] == b,
{
    assert(data.subrange(at, at + 1)[0] == seq![b][0]);
}

proof fn lemma_pow256()
    ensures
        vstd::arithmetic::power::pow(256, 2) == 0x1_0000,
        vstd::arithmetic::power::pow(256, 4) == 0x1_0000_0000,
        vstd::arithmetic::power::pow(256, 8) == 0x1_0000_0000_0000_0000,
{
    reveal_with_fuel(vstd::arithmetic::power::pow, 9);
}

/// A number.
proof fn lemma_holds_le(data: Seq<u8>, at: int, v: nat, n: nat)
    requires
        holds(data, at, bytes::le_bytes(v, n)),
        n == 2 && v < 0x1_0000 || n == 4 && v < 0x1_0000_0000 || n == 8 && v
            < 0x1_0000_0000_0000_0000,
    ensures
        cursor::le_at(data, at, n as int) == v,
        bytes::le_bytes(v, n).len() == n,
        at + n <= data.len(),
{
    lemma_pow256();
    bytes::lemma_le_bytes_len(v, n);
    bytes::lemma_le_round_trip(v, n);
}

/// An array.
proof fn lemma_holds_array<const N: usize>(data: Seq<u8>, at: int, a: [u8; N])
    requires
        holds(data, at, a@),
    ensures
        bytes::array_of::<N>(data.subrange(at, at + N)) == a,
        at + N <= data.len(),
{
    bytes::lemma_array_with(bytes::zero_array::<N>(), a@);
    assert(bytes::array_of::<N>(a@) =~= a);
}

/// `a` and `b` are the same script.
pub open spec fn same_script(a: ScriptPublicKey, b: ScriptPublicKey) -> bool {
    a.version == b.version && a.script_len == b.script_len && a.bytes() == b.bytes()
}

/// A script.
proof fn lemma_script(
    data: Seq<u8>,
    at: int,
    spk: ScriptPublicKey,
    old_spk: ScriptPublicKey,
    signed: bool,
)
    requires
        holds_all(data, at, wire::script_fields(spk)),
        spk.wf(),
    ensures
        ({
            let f = wire::script_field(data, at, old_spk, signed);
            &&& f.error is None
            &&& f.at == at + size(wire::script_fields(spk))
            &&& same_script(spk, f.value)
        }),
{
    let v = bytes::le_bytes(spk.version as nat, 2);
    let l = cursor::spk_len_fields(spk.script_len as nat);
    let b = spk.bytes();
    lemma_field(data, at, v, l + seq![b]);
    lemma_holds_le(data, at, spk.version as nat, 2);
    lemma_split(data, at + 2, l, seq![b]);
    if spk.script_len <= 254 {
        lemma_last(data, at + 2, seq![spk.script_len as u8]);
        lemma_holds_byte(data, at + 2, spk.script_len as u8);
    } else {
        let len = bytes::le_bytes(spk.script_len as nat, 2);
        lemma_field(data, at + 2, seq![0xFFu8], seq![len]);
        lemma_holds_byte(data, at + 2, 0xFF);
        lemma_last(data, at + 3, len);
        lemma_holds_le(data, at + 3, spk.script_len as nat, 2);
    }
    let start = at + 2 + size(l);
    lemma_last(data, start, b);
    assert(cursor::spk_len_at(data, at + 2) == Some((spk.script_len as int, start)));
    bytes::lemma_array_with(old_spk.script, b);
    let f = wire::script_field(data, at, old_spk, signed);
    assert(f.value.bytes() =~= b);
}

/// `a` and `b` spend the same output in the same way.
pub open spec fn same_input(a: TransactionInput, b: TransactionInput) -> bool {
    &&& a.previous_outpoint == b.previous_outpoint
    &&& a.sequence == b.sequence
    &&& a.sig_op_count == b.sig_op_count
    &&& a.utxo_entry.amount == b.utxo_entry.amount
    &&& same_script(a.utxo_entry.script_public_key, b.utxo_entry.script_public_key)
}

/// `b` is `a` but for what an input says of itself.
pub open spec fn same_rest(a: TransactionInput, b: TransactionInput) -> bool {
    b == TransactionInput {
        previous_outpoint: b.previous_outpoint,
        sequence: b.sequence,
        sig_op_count: b.sig_op_count,
        utxo_entry: b.utxo_entry,
        ..a
    }
}

/// An input up to the end of its script.
pub proof fn lemma_input_core(
    data: Seq<u8>,
    at: int,
    x: TransactionInput,
    y: TransactionInput,
    signed: bool,
)
    requires
        holds_all(data, at, wire::input_core_fields(x)),
        x.utxo_entry.script_public_key.wf(),
    ensures
        ({
            let f = wire::input_core(data, at, y, signed);
            &&& f.error is None
            &&& f.at == at + size(wire::input_core_fields(x))
            &&& same_input(x, f.value)
            &&& same_rest(y, f.value)
        }),
{
    let id = x.previous_outpoint.transaction_id;
    let index = bytes::le_bytes(x.previous_outpoint.index as nat, 4);
    let amount = bytes::le_bytes(x.utxo_entry.amount as nat, 8);
    let sequence = bytes::le_bytes(x.sequence as nat, 8);
    let ops = seq![x.sig_op_count];
    let spk = wire::script_fields(x.utxo_entry.script_public_key);
    let p4 = seq![ops] + spk;
    let p3 = seq![sequence] + p4;
    let p2 = seq![amount] + p3;
    let p1 = seq![index] + p2;
    lemma_field(data, at, id@, p1);
    lemma_holds_array(data, at, id);
    lemma_field(data, at + 32, index, p2);
    lemma_holds_le(data, at + 32, x.previous_outpoint.index as nat, 4);
    lemma_field(data, at + 36, amount, p3);
    lemma_holds_le(data, at + 36, x.utxo_entry.amount as nat, 8);
    lemma_field(data, at + 44, sequence, p4);
    lemma_holds_le(data, at + 44, x.sequence as nat, 8);
    lemma_field(data, at + 52, ops, spk);
    lemma_holds_byte(data, at + 52, x.sig_op_count);
    lemma_script(
        data,
        at + 53,
        x.utxo_entry.script_public_key,
        y.utxo_entry.script_public_key,
        signed,
    );
}

/// The inputs of the unsigned form.
proof fn lemma_unsigned_inputs(
    data: Seq<u8>,
    at: int,
    tx: Transaction,
    cur: Transaction,
    i: int,
    n: int,
)
    requires
        holds_all(data, at, wire::inputs_fields(Form::Unsigned, tx, i, n)),
        data.len() >= 6,
        data[5] & 0x02 == 0,
        0 <= i <= n <= MAX_INPUTS,
        forall|j: int|
            i <= j < n ==> (#[trigger] tx.inputs@[j]).utxo_entry.script_public_key.wf(),
    ensures
        ({
            let f = wire::inputs_field(data, false, at, cur, i, n);
            &&& f.error is None
            &&& f.at == at + size(wire::inputs_fields(Form::Unsigned, tx, i, n))
            &&& f.value == Transaction { inputs: f.value.inputs, ..cur }
            &&& forall|j: int|
                0 <= j < MAX_INPUTS && (j < i || j >= n) ==> #[trigger] f.value.inputs@[j]
                    == cur.inputs@[j]
            &&& forall|j: int|
                #![trigger f.value.inputs@[j]]
                i <= j < n ==> same_input(tx.inputs@[j], f.value.inputs@[j]) && same_rest(
                    (TransactionInput { redeem_script_len: 0, ..cur.inputs@[j] }),
                    f.value.inputs@[j],
                )
        }),
    decreases n - i,
{
    if i < n {
        let x = tx.inputs@[i];
        let core = wire::input_core_fields(x);
        let tail = wire::input_tail_fields(Form::Unsigned, tx, i);
        let rest = wire::inputs_fields(Form::Unsigned, tx, i + 1, n);
        lemma_split(data, at, core, tail + rest);
        assert(tail + rest =~= rest);
        lemma_input_core(data, at, x, cur.inputs@[i], false);
        let f = wire::input_field(data, false, at, cur, i);
        assert(f.error is None);
        lemma_unsigned_inputs(data, f.at, tx, f.value, i + 1, n);
        let g = wire::inputs_field(data, false, f.at, f.value, i + 1, n);
        assert(wire::inputs_field(data, false, at, cur, i, n) == g);
        assert(g.value.inputs@[i] == f.value.inputs@[i]);
    }
}

/// `a` and `b` pay the same amount to the same script.
pub open spec fn same_output(a: TransactionOutput, b: TransactionOutput) -> bool {
    a.value == b.value && same_script(a.script_public_key, b.script_public_key)
}

/// `a` and `b` are bound to the same covenant, or both to none.
pub open spec fn same_covenant(a: TransactionOutput, b: TransactionOutput) -> bool {
    &&& a.has_covenant == b.has_covenant
    &&& a.has_covenant ==> a.covenant_auth_input == b.covenant_auth_input && a.covenant_id
        == b.covenant_id
}

/// One output.
proof fn lemma_output(
    data: Seq<u8>,
    at: int,
    x: TransactionOutput,
    y: TransactionOutput,
    signed: bool,
    covenants: bool,
)
    requires
        holds_all(data, at, wire::output_fields(x, covenants)),
        data.len() >= 6,
        covenants == (!signed && data[5] & 0x04 != 0),
        x.script_public_key.wf(),
        !covenants ==> !x.has_covenant || signed,
        !y.has_covenant,
    ensures
        ({
            let f = wire::output_field(data, signed, at, y);
            &&& f.error is None
            &&& f.at == at + size(wire::output_fields(x, covenants))
            &&& same_output(x, f.value)
            &&& covenants ==> same_covenant(x, f.value)
            &&& !covenants ==> !f.value.has_covenant
        }),
{
    let value = bytes::le_bytes(x.value as nat, 8);
    let spk = wire::script_fields(x.script_public_key);
    let tail = if covenants {
        wire::covenant_fields(x)
    } else {
        Seq::empty()
    };
    lemma_field(data, at, value, spk + tail);
    lemma_holds_le(data, at, x.value as nat, 8);
    lemma_split(data, at + 8, spk, tail);
    lemma_script(data, at + 8, x.script_public_key, y.script_public_key, signed);
    if covenants {
        let c = at + 8 + size(spk);
        if x.has_covenant {
            let auth = bytes::le_bytes(x.covenant_auth_input as nat, 2);
            lemma_field(data, c, seq![1u8], seq![auth] + seq![x.covenant_id@]);
            lemma_holds_byte(data, c, 1);
            lemma_field(data, c + 1, auth, seq![x.covenant_id@]);
            lemma_holds_le(data, c + 1, x.covenant_auth_input as nat, 2);
            lemma_last(data, c + 3, x.covenant_id@);
            lemma_holds_array(data, c + 3, x.covenant_id);
        } else {
            lemma_last(data, c, seq![0u8]);
            lemma_holds_byte(data, c, 0);
        }
    }
}

/// The outputs.
pub proof fn lemma_outputs(
    data: Seq<u8>,
    at: int,
    tx: Transaction,
    cur: Transaction,
    signed: bool,
    covenants: bool,
    i: int,
    n: int,
)
    requires
        holds_all(data, at, wire::outputs_fields(tx, covenants, i, n)),
        data.len() >= 6,
        covenants == (!signed && data[5] & 0x04 != 0),
        0 <= i <= n <= MAX_OUTPUTS,
        forall|j: int|
            #![trigger tx.outputs@[j]]
            i <= j < n ==> tx.outputs@[j].script_public_key.wf() && (!covenants
                ==> !tx.outputs@[j].has_covenant || signed),
        forall|j: int| i <= j < n ==> !(#[trigger] cur.outputs@[j]).has_covenant,
    ensures
        ({
            let f = wire::outputs_field(data, signed, at, cur, i, n);
            &&& f.error is None
            &&& f.at == at + size(wire::outputs_fields(tx, covenants, i, n))
            &&& f.value == Transaction { outputs: f.value.outputs, ..cur }
            &&& forall|j: int|
                0 <= j < i ==> #[trigger] f.value.outputs@[j] == cur.outputs@[j]
            &&& forall|j: int|
                #![trigger f.value.outputs@[j]]
                i <= j < n ==> {
                    &&& same_output(tx.outputs@[j], f.value.outputs@[j])
                    &&& covenants ==> same_covenant(tx.outputs@[j], f.value.outputs@[j])
                    &&& !covenants ==> !f.value.outputs@[j].has_covenant
                }
        }),
    decreases n - i,
{
    if i < n {
        let x = tx.outputs@[i];
        let here = wire::output_fields(x, covenants);
        let rest = wire::outputs_fields(tx, covenants, i + 1, n);
        lemma_split(data, at, here, rest);
        lemma_output(data, at, x, cur.outputs@[i], signed, covenants);
        let f = wire::output_field(data, signed, at, cur.outputs@[i]);
        let next = cur.with_output(i, f.value);
        assert forall|j: int| i + 1 <= j < n implies !(#[trigger] next.outputs@[j]).has_covenant by {
            assert(next.outputs@[j] == cur.outputs@[j]);
        }
        lemma_outputs(data, f.at, tx, next, signed, covenants, i + 1, n);
        let g = wire::outputs_field(data, signed, f.at, next, i + 1, n);
        assert(wire::outputs_field(data, signed, at, cur, i, n) == g);
        assert(g.value.outputs@[i] == next.outputs@[i]);
    }
}

/// `a` and `b` agree outside their inputs and outputs.
pub open spec fn same_globals(a: Transaction, b: Transaction) -> bool {
    &&& a.version == b.version
    &&& a.num_inputs == b.num_inputs
    &&& a.num_outputs == b.num_outputs
    &&& a.locktime == b.locktime
    &&& a.subnetwork_id == b.subnetwork_id
    &&& a.gas == b.gas
    &&& a.payload_len == b.payload_len
    &&& a.payload@.take(a.payload_len as int) == b.payload@.take(b.payload_len as int)
}

/// Header and global fields.
proof fn lemma_globals(data: Seq<u8>, form: Form, tx: Transaction)
    requires
        holds_all(data, 0, wire::globals_fields(form, tx)),
        !(form is SingleSigned),
        wire::writable(form, tx),
        tx.num_inputs > 0,
        tx.num_outputs > 0,
    ensures
        ({
            let g = wire::globals(data, form is MultiSigned);
            &&& g.error is None
            &&& g.at == size(wire::globals_fields(form, tx))
            &&& same_globals(tx, g.value)
            &&& g.value.inputs == Transaction::blank().inputs
            &&& g.value.outputs == Transaction::blank().outputs
            &&& g.value.redeem_pool_used == 0
            &&& data.len() >= 6
            &&& data[4] == wire::form_version(form)
            &&& data[5] == wire::form_flags(form, tx)
        }),
{
    let version = bytes::le_bytes(tx.version as nat, 2);
    let locktime = bytes::le_bytes(tx.locktime as nat, 8);
    let gas = bytes::le_bytes(tx.gas as nat, 8);
    let len = bytes::le_bytes(tx.payload_len as nat, 2);
    let payload = tx.payload@.take(tx.payload_len as int);
    let p9 = seq![len] + seq![payload];
    let p8 = seq![gas] + p9;
    let p7 = seq![tx.subnetwork_id@] + p8;
    let p6 = seq![locktime] + p7;
    let p5 = seq![seq![tx.num_outputs as u8]] + p6;
    let p4 = seq![seq![tx.num_inputs as u8]] + p5;
    let p3 = seq![version] + p4;
    let p2 = seq![seq![wire::form_flags(form, tx)]] + p3;
    let p1 = seq![seq![wire::form_version(form)]] + p2;
    lemma_field(data, 0, wire::magic(), p1);
    assert(data.take(4) =~= data.subrange(0, 4));
    lemma_field(data, 4, seq![wire::form_version(form)], p2);
    lemma_holds_byte(data, 4, wire::form_version(form));
    lemma_field(data, 5, seq![wire::form_flags(form, tx)], p3);
    lemma_holds_byte(data, 5, wire::form_flags(form, tx));
    lemma_field(data, 6, version, p4);
    lemma_holds_le(data, 6, tx.version as nat, 2);
    lemma_field(data, 8, seq![tx.num_inputs as u8], p5);
    lemma_holds_byte(data, 8, tx.num_inputs as u8);
    lemma_field(data, 9, seq![tx.num_outputs as u8], p6);
    lemma_holds_byte(data, 9, tx.num_outputs as u8);
    lemma_field(data, 10, locktime, p7);
    lemma_holds_le(data, 10, tx.locktime as nat, 8);
    lemma_field(data, 18, tx.subnetwork_id@, p8);
    lemma_holds_array(data, 18, tx.subnetwork_id);
    lemma_field(data, 38, gas, p9);
    lemma_holds_le(data, 38, tx.gas as nat, 8);
    lemma_field(data, 46, len, seq![payload]);
    lemma_holds_le(data, 46, tx.payload_len as nat, 2);
    lemma_last(data, 48, payload);
    bytes::lemma_array_with(Transaction::blank().payload, payload);
    let g = wire::globals(data, form is MultiSigned);
    assert(g.value.payload@.take(tx.payload_len as int) =~= payload);
}

/// What the unsigned form carries of a transaction: all but signatures,
/// redeem scripts and hints.
pub open spec fn same_unsigned(a: Transaction, b: Transaction) -> bool {
    &&& same_globals(a, b)
    &&& forall|i: int|
        #![trigger b.inputs@[i]]
        0 <= i < a.num_inputs ==> same_input(a.inputs@[i], b.inputs@[i])
    &&& forall|i: int|
        #![trigger b.outputs@[i]]
        0 <= i < a.num_outputs ==> same_output(a.outputs@[i], b.outputs@[i]) && same_covenant(
            a.outputs@[i],
            b.outputs@[i],
        )
}

/// The empty transaction has no covenant bindings.
pub proof fn lemma_blank_outputs()
    ensures
        forall|j: int|
            0 <= j < MAX_OUTPUTS ==> !(#[trigger] Transaction::blank().outputs@[j]).has_covenant,
{
}

/// Inputs and outputs of the unsigned form, the global fields being read.
proof fn lemma_unsigned_body(data: Seq<u8>, tx: Transaction, g: Filled<Transaction>)
    requires
        wire::writable(Form::Unsigned, tx),
        g == wire::globals(data, false),
        g.error is None,
        same_globals(tx, g.value),
        g.value.outputs == Transaction::blank().outputs,
        data.len() >= 6,
        data[5] == wire::form_flags(Form::Unsigned, tx),
        holds_all(
            data,
            g.at,
            wire::inputs_fields(Form::Unsigned, tx, 0, tx.num_inputs as int) + wire::outputs_fields(
                tx,
                wire::has_covenants(tx),
                0,
                tx.num_outputs as int,
            ),
        ),
    ensures
        wire::body(data, false).error is None,
        wire::body(data, false).at == g.at + size(
            wire::inputs_fields(Form::Unsigned, tx, 0, tx.num_inputs as int) + wire::outputs_fields(
                tx,
                wire::has_covenants(tx),
                0,
                tx.num_outputs as int,
            ),
        ),
        same_unsigned(tx, wire::body(data, false).value),
{
    let inputs = wire::inputs_fields(Form::Unsigned, tx, 0, tx.num_inputs as int);
    let covenants = wire::has_covenants(tx);
    let outputs = wire::outputs_fields(tx, covenants, 0, tx.num_outputs as int);
    lemma_split(data, g.at, inputs, outputs);
    assert(0x00u8 & 0x02 == 0 && 0x04u8 & 0x02 == 0 && 0x00u8 & 0x04 == 0 && 0x04u8 & 0x04 != 0)
        by (bit_vector);
    lemma_unsigned_inputs(data, g.at, tx, g.value, 0, tx.num_inputs as int);
    let f = wire::inputs_field(data, false, g.at, g.value, 0, tx.num_inputs as int);
    assert forall|j: int|
        #![trigger tx.outputs@[j]]
        0 <= j < tx.num_outputs && !covenants implies !tx.outputs@[j].has_covenant by {
        if tx.outputs@[j].has_covenant {
            assert(wire::has_covenants(tx));
        }
    }
    lemma_blank_outputs();
    lemma_outputs(data, f.at, tx, f.value, false, covenants, 0, tx.num_outputs as int);
    let h = wire::outputs_field(data, false, f.at, f.value, 0, tx.num_outputs as int);
    assert(wire::body(data, false) == h);
    assert forall|i: int|
        #![trigger h.value.inputs@[i]]
        0 <= i < tx.num_inputs implies same_input(tx.inputs@[i], h.value.inputs@[i]) by {
        assert(h.value.inputs@[i] == f.value.inputs@[i]);
    }
    assert forall|i: int|
        #![trigger h.value.outputs@[i]]
        0 <= i < tx.num_outputs implies same_covenant(tx.outputs@[i], h.value.outputs@[i]) by {
        assert(tx.outputs@[i].has_covenant ==> covenants);
    }
}

/// A transaction in the unsigned form, with anything behind it.
pub proof fn lemma_unsigned_written(tx: Transaction, behind: Seq<u8>)
    requires
        wire::writable(Form::Unsigned, tx),
        tx.num_inputs > 0,
        tx.num_outputs > 0,
    ensures
        ({
            let all = wire::transaction_bytes(Form::Unsigned, tx);
            let f = wire::body(all + behind, false);
            f.error is None && f.at == all.len() && same_unsigned(tx, f.value)
        }),
{
    let globals = wire::globals_fields(Form::Unsigned, tx);
    let inputs = wire::inputs_fields(Form::Unsigned, tx, 0, tx.num_inputs as int);
    let outputs = wire::outputs_fields(tx, wire::has_covenants(tx), 0, tx.num_outputs as int);
    let all = wire::transaction_bytes(Form::Unsigned, tx);
    let data = all + behind;
    assert(wire::transaction_fields(Form::Unsigned, tx) == globals + (inputs + outputs));
    assert(data.subrange(0, all.len() as int) =~= all);
    lemma_split(data, 0, globals, inputs + outputs);
    lemma_globals(data, Form::Unsigned, tx);
    lemma_unsigned_body(data, tx, wire::globals(data, false));
}

/// A transaction that is serialised without signatures is read back, whatever
/// stands behind it. (One without inputs or outputs is written, and refused
/// on reading.)
pub proof fn law_unsigned_round_trip(tx: Transaction, behind: Seq<u8>)
    requires
        wire::writable(Form::Unsigned, tx),
        tx.num_inputs > 0,
        tx.num_outputs > 0,
    ensures
        wire::unsigned(wire::transaction_bytes(Form::Unsigned, tx) + behind).1 is None,
        same_unsigned(
            tx,
            wire::unsigned(wire::transaction_bytes(Form::Unsigned, tx) + behind).0,
        ),
{
    lemma_unsigned_written(tx, behind);
}

/// `a` and `b` are the same signature for the same key position.
pub open spec fn same_sig(a: InputSig, b: InputSig) -> bool {
    &&& a.signature == b.signature
    &&& a.sighash_type == b.sighash_type
    &&& a.pubkey_pos == b.pubkey_pos
    &&& a.present == b.present
}

/// The signatures of an input.
pub proof fn lemma_sigs(
    data: Seq<u8>,
    at: int,
    x: TransactionInput,
    y: TransactionInput,
    s: int,
    count: int,
)
    requires
        holds_all(data, at, wire::sigs_fields(x, s, count)),
        0 <= s <= count <= MAX_SIGS_PER_INPUT,
        forall|k: int| s <= k < count ==> (#[trigger] x.sigs@[k]).present,
    ensures
        ({
            let f = wire::sigs_field(data, at, y, s, count);
            &&& f.error is None
            &&& f.at == at + size(wire::sigs_fields(x, s, count))
            &&& f.value == TransactionInput { sigs: f.value.sigs, ..y }
            &&& forall|k: int| 0 <= k < s ==> #[trigger] f.value.sigs@[k] == y.sigs@[k]
            &&& forall|k: int|
                s <= k < count ==> same_sig(x.sigs@[k], #[trigger] f.value.sigs@[k])
        }),
    decreases count - s,
{
    if s < count {
        let slot = x.sigs@[s];
        let here = wire::sig_fields(slot);
        let rest = wire::sigs_fields(x, s + 1, count);
        lemma_split(data, at, here, rest);
        lemma_field(
            data,
            at,
            seq![slot.pubkey_pos],
            seq![seq![slot.sighash_type]] + seq![slot.signature@],
        );
        lemma_holds_byte(data, at, slot.pubkey_pos);
        lemma_field(data, at + 1, seq![slot.sighash_type], seq![slot.signature@]);
        lemma_last(data, at + 2, slot.signature@);
        lemma_holds_byte(data, at + 1, slot.sighash_type);
        lemma_holds_array(data, at + 2, slot.signature);
        let f = wire::sig_field(data, at, y.sigs@[s]);
        let next = TransactionInput {
            sigs: vstd::array::spec_array_update(y.sigs, s, f.value),
            ..y
        };
        lemma_sigs(data, at + 66, x, next, s + 1, count);
        let g = wire::sigs_field(data, at + 66, next, s + 1, count);
        assert(wire::sigs_field(data, at, y, s, count) == g);
        assert(g.value.sigs@[s] == next.sigs@[s]);
    }
}

/// `b` has the signatures of `a`, and the first of them in its fields for
/// single-signature readers.
pub open spec fn same_signatures(a: TransactionInput, b: TransactionInput) -> bool {
    &&& a.sig_count == b.sig_count
    &&& forall|k: int| 0 <= k < a.sig_count ==> same_sig(a.sigs@[k], #[trigger] b.sigs@[k])
    &&& a.sig_count > 0 ==> {
        &&& b.signature == a.sigs@[0].signature
        &&& b.sig_len == 64
        &&& b.sighash_type == a.sigs@[0].sighash_type
    }
    &&& a.sig_count == 0 ==> b.sig_len == 0
}

/// How much of the pool the redeem scripts of the inputs from `i` to `n` take.
pub open spec fn pool_need(tx: Transaction, i: int, n: int) -> int
    decreases n - i,
{
    if i >= n {
        0
    } else {
        (if tx.inputs@[i].redeem_script_len > MAX_SCRIPT_SIZE {
            tx.inputs@[i].redeem_script_len as int
        } else {
            0
        }) + pool_need(tx, i + 1, n)
    }
}

/// Nothing takes less than no room.
pub proof fn lemma_pool_need(tx: Transaction, i: int, n: int)
    ensures
        pool_need(tx, i, n) >= 0,
    decreases n - i,
{
    if i < n {
        lemma_pool_need(tx, i + 1, n);
    }
}

/// Input `i` can be read back from the multi-signature form.
spec fn carried(tx: Transaction, i: int) -> bool {
    let x = tx.inputs@[i];
    &&& x.utxo_entry.script_public_key.wf()
    &&& x.sig_count <= MAX_SIGS_PER_INPUT
    &&& forall|k: int| 0 <= k < x.sig_count ==> (#[trigger] x.sigs@[k]).present
    &&& tx.redeem_wf(i)
    &&& x.redeem_script_len <= MAX_REDEEM_SIZE
}

/// The redeem script of an input.
proof fn lemma_redeem(data: Seq<u8>, at: int, tx: Transaction, cur: Transaction, i: int)
    requires
        0 <= i < MAX_INPUTS,
        carried(tx, i),
        holds_all(
            data,
            at,
            seq![bytes::le_bytes(tx.inputs@[i].redeem_script_len as nat, 2)] + seq![tx.redeem(i)],
        ),
        transaction::pool_wf(cur),
        cur.inputs@[i].redeem_script_len == 0,
        tx.inputs@[i].redeem_script_len > MAX_SCRIPT_SIZE ==> cur.redeem_pool_used
            + tx.inputs@[i].redeem_script_len <= REDEEM_POOL_SIZE,
    ensures
        ({
            let f = wire::redeem_field(data, at, 2, cur, i);
            let len = tx.inputs@[i].redeem_script_len;
            &&& f.error is None
            &&& f.at == at + 2 + tx.redeem(i).len()
            &&& f.value == if len == 0 {
                cur
            } else {
                cur.with_redeem(i, tx.redeem(i)).unwrap()
            }
            &&& len > 0 ==> cur.with_redeem(i, tx.redeem(i)) is Some
            &&& f.value.redeem(i) == tx.redeem(i)
            &&& forall|j: int|
                0 <= j < MAX_INPUTS && j != i ==> #[trigger] f.value.redeem(j) == cur.redeem(j)
            &&& transaction::pool_wf(f.value)
        }),
{
    let len = tx.inputs@[i].redeem_script_len;
    let r = tx.redeem(i);
    assert(r.len() == len);
    lemma_field(data, at, bytes::le_bytes(len as nat, 2), seq![r]);
    lemma_holds_le(data, at, len as nat, 2);
    lemma_last(data, at + 2, r);
    if len > 0 {
        transaction::law_stored_redeem_reads_back(cur, i, r);
    } else {
        assert(cur.redeem(i) =~= r);
    }
}

/// `after` is `before` but for the redeem script of input `i`.
spec fn redeem_only(before: TransactionInput, after: TransactionInput) -> bool {
    after == TransactionInput {
        redeem_script: after.redeem_script,
        redeem_script_len: after.redeem_script_len,
        redeem_in_pool: after.redeem_in_pool,
        redeem_script_offset: after.redeem_script_offset,
        ..before
    }
}

/// One input of the multi-signature form.
proof fn lemma_signed_input(data: Seq<u8>, at: int, tx: Transaction, cur: Transaction, i: int)
    requires
        0 <= i < MAX_INPUTS,
        carried(tx, i),
        holds_all(
            data,
            at,
            wire::input_core_fields(tx.inputs@[i]) + wire::input_tail_fields(
                Form::MultiSigned,
                tx,
                i,
            ),
        ),
        data.len() >= 6,
        data[4] == 3,
        transaction::pool_wf(cur),
        cur.inputs@[i].redeem_script_len == 0,
        !cur.inputs@[i].redeem_in_pool,
        cur.inputs@[i].sig_len == 0,
        tx.inputs@[i].redeem_script_len > MAX_SCRIPT_SIZE ==> cur.redeem_pool_used
            + tx.inputs@[i].redeem_script_len <= REDEEM_POOL_SIZE,
    ensures
        ({
            let f = wire::input_field(data, true, at, cur, i);
            let len = tx.inputs@[i].redeem_script_len;
            &&& f.error is None
            &&& f.at == at + size(
                wire::input_core_fields(tx.inputs@[i]) + wire::input_tail_fields(
                    Form::MultiSigned,
                    tx,
                    i,
                ),
            )
            &&& same_input(tx.inputs@[i], f.value.inputs@[i])
            &&& same_signatures(tx.inputs@[i], f.value.inputs@[i])
            &&& f.value.redeem(i) == tx.redeem(i)
            &&& forall|j: int|
                0 <= j < MAX_INPUTS && j != i ==> #[trigger] f.value.redeem(j) == cur.redeem(j)
            &&& forall|j: int|
                0 <= j < MAX_INPUTS && j != i ==> #[trigger] f.value.inputs@[j] == cur.inputs@[j]
            &&& transaction::pool_wf(f.value)
            &&& f.value.redeem_pool_used == cur.redeem_pool_used + if len > MAX_SCRIPT_SIZE {
                len as int
            } else {
                0
            }
            &&& f.value == Transaction {
                inputs: f.value.inputs,
                redeem_pool: f.value.redeem_pool,
                redeem_pool_used: f.value.redeem_pool_used,
                ..cur
            }
        }),
{
    let x = tx.inputs@[i];
    let core = wire::input_core_fields(x);
    let tail = wire::input_tail_fields(Form::MultiSigned, tx, i);
    lemma_split(data, at, core, tail);
    lemma_input_core(data, at, x, cur.inputs@[i], true);
    let c = wire::input_core(data, at, cur.inputs@[i], true);
    let sigs = wire::sigs_fields(x, 0, x.sig_count as int);
    let len = bytes::le_bytes(x.redeem_script_len as nat, 2);
    let redeem = seq![len] + seq![tx.redeem(i)];
    lemma_field(data, c.at, seq![x.sig_count], sigs + redeem);
    lemma_holds_byte(data, c.at, x.sig_count);
    lemma_split(data, c.at + 1, sigs, redeem);
    lemma_size(seq![len], seq![tx.redeem(i)]);
    lemma_field_size(len);
    lemma_field_size(tx.redeem(i));
    let y = TransactionInput { sig_count: x.sig_count, ..c.value };
    lemma_sigs(data, c.at + 1, x, y, 0, x.sig_count as int);
    let s = wire::signatures_field(data, c.at, c.value);
    assert(s.error is None);
    assert(s.at == c.at + 1 + size(sigs));
    let mid = cur.with_input(i, s.value);
    assert(same_signatures(x, s.value));
    assert(transaction::pool_wf(mid)) by {
        assert forall|j: int|
            #![trigger mid.inputs@[j]]
            0 <= j < MAX_INPUTS implies {
            let y = mid.inputs@[j];
            if y.redeem_in_pool {
                y.redeem_script_offset + y.redeem_script_len <= mid.redeem_pool_used
            } else {
                y.redeem_script_len <= MAX_SCRIPT_SIZE
            }
        } by {
            if j != i {
                assert(mid.inputs@[j] == cur.inputs@[j]);
            }
        }
    }
    bytes::lemma_le_bytes_len(x.redeem_script_len as nat, 2);
    lemma_redeem(data, s.at, tx, mid, i);
    let f = wire::input_field(data, true, at, cur, i);
    assert(f == wire::redeem_field(data, s.at, 2, mid, i));
    assert(redeem_only(mid.inputs@[i], f.value.inputs@[i]));
    assert forall|j: int| 0 <= j < MAX_INPUTS && j != i implies #[trigger] f.value.inputs@[j]
        == cur.inputs@[j] by {
        assert(mid.inputs@[j] == cur.inputs@[j]);
    }
    assert forall|j: int| 0 <= j < MAX_INPUTS && j != i implies #[trigger] f.value.redeem(j)
        == cur.redeem(j) by {
        assert(mid.inputs@[j] == cur.inputs@[j]);
        assert(mid.redeem(j) == cur.redeem(j));
    }
}

/// The inputs of the multi-signature form.
proof fn lemma_signed_inputs(
    data: Seq<u8>,
    at: int,
    tx: Transaction,
    cur: Transaction,
    i: int,
    n: int,
)
    requires
        holds_all(data, at, wire::inputs_fields(Form::MultiSigned, tx, i, n)),
        data.len() >= 6,
        data[4] == 3,
        0 <= i <= n <= MAX_INPUTS,
        forall|j: int| i <= j < n ==> #[trigger] carried(tx, j),
        transaction::pool_wf(cur),
        forall|j: int|
            #![trigger cur.inputs@[j]]
            i <= j < n ==> {
                &&& cur.inputs@[j].redeem_script_len == 0
                &&& !cur.inputs@[j].redeem_in_pool
                &&& cur.inputs@[j].sig_len == 0
            },
        cur.redeem_pool_used + pool_need(tx, i, n) <= REDEEM_POOL_SIZE,
    ensures
        ({
            let f = wire::inputs_field(data, true, at, cur, i, n);
            &&& f.error is None
            &&& f.at == at + size(wire::inputs_fields(Form::MultiSigned, tx, i, n))
            &&& f.value == Transaction {
                inputs: f.value.inputs,
                redeem_pool: f.value.redeem_pool,
                redeem_pool_used: f.value.redeem_pool_used,
                ..cur
            }
            &&& forall|j: int|
                #![trigger f.value.inputs@[j]]
                0 <= j < i ==> f.value.inputs@[j] == cur.inputs@[j] && f.value.redeem(j)
                    == cur.redeem(j)
            &&& forall|j: int|
                #![trigger f.value.inputs@[j]]
                i <= j < n ==> {
                    &&& same_input(tx.inputs@[j], f.value.inputs@[j])
                    &&& same_signatures(tx.inputs@[j], f.value.inputs@[j])
                    &&& f.value.redeem(j) == tx.redeem(j)
                }
        }),
    decreases n - i,
{
    if i < n {
        let core = wire::input_core_fields(tx.inputs@[i]);
        let tail = wire::input_tail_fields(Form::MultiSigned, tx, i);
        let rest = wire::inputs_fields(Form::MultiSigned, tx, i + 1, n);
        assert(core + (tail + rest) =~= (core + tail) + rest);
        lemma_split(data, at, core + tail, rest);
        lemma_pool_need(tx, i + 1, n);
        assert(carried(tx, i));
        lemma_signed_input(data, at, tx, cur, i);
        let f = wire::input_field(data, true, at, cur, i);
        assert forall|j: int|
            #![trigger f.value.inputs@[j]]
            i + 1 <= j < n implies {
            &&& f.value.inputs@[j].redeem_script_len == 0
            &&& !f.value.inputs@[j].redeem_in_pool
            &&& f.value.inputs@[j].sig_len == 0
        } by {
            assert(f.value.inputs@[j] == cur.inputs@[j]);
        }
        lemma_signed_inputs(data, f.at, tx, f.value, i + 1, n);
        let g = wire::inputs_field(data, true, f.at, f.value, i + 1, n);
        assert(wire::inputs_field(data, true, at, cur, i, n) == g);
        assert forall|j: int|
            #![trigger g.value.inputs@[j]]
            0 <= j < i implies g.value.inputs@[j] == cur.inputs@[j] && g.value.redeem(j)
            == cur.redeem(j) by {
            assert(f.value.inputs@[j] == cur.inputs@[j]);
            assert(f.value.redeem(j) == cur.redeem(j));
        }
        assert(g.value.inputs@[i] == f.value.inputs@[i]);
    }
}

/// What the multi-signature form carries of a transaction: all but covenant
/// bindings, the stealth tweak, hints and compressed keys.
pub open spec fn same_signed(a: Transaction, b: Transaction) -> bool {
    &&& same_globals(a, b)
    &&& forall|i: int|
        #![trigger b.inputs@[i]]
        0 <= i < a.num_inputs ==> {
            &&& same_input(a.inputs@[i], b.inputs@[i])
            &&& same_signatures(a.inputs@[i], b.inputs@[i])
            &&& b.redeem(i) == a.redeem(i)
        }
    &&& forall|i: int|
        #![trigger b.outputs@[i]]
        0 <= i < a.num_outputs ==> same_output(a.outputs@[i], b.outputs@[i])
}

/// A partly or fully signed transaction can be handed on: the slots that
/// count hold signatures, and the redeem scripts have room at the other end.
pub open spec fn transferable(tx: Transaction) -> bool {
    &&& wire::writable(Form::MultiSigned, tx)
    &&& tx.num_inputs > 0
    &&& tx.num_outputs > 0
    &&& forall|i: int, k: int|
        0 <= i < tx.num_inputs && 0 <= k < tx.inputs@[i].sig_count
            ==> (#[trigger] tx.inputs@[i].sigs@[k]).present
    &&& forall|i: int|
        0 <= i < tx.num_inputs ==> (#[trigger] tx.inputs@[i]).redeem_script_len <= MAX_REDEEM_SIZE
    &&& pool_need(tx, 0, tx.num_inputs as int) <= REDEEM_POOL_SIZE
}

pub proof fn lemma_blank_inputs()
    ensures
        forall|j: int|
            #![trigger Transaction::blank().inputs@[j]]
            0 <= j < MAX_INPUTS ==> {
                &&& Transaction::blank().inputs@[j].redeem_script_len == 0
                &&& !Transaction::blank().inputs@[j].redeem_in_pool
                &&& Transaction::blank().inputs@[j].sig_len == 0
            },
{
}

/// Inputs and outputs of the multi-signature form, the global fields being
/// read.
proof fn lemma_signed_body(data: Seq<u8>, tx: Transaction, g: Filled<Transaction>)
    requires
        transferable(tx),
        g == wire::globals(data, true),
        g.error is None,
        same_globals(tx, g.value),
        g.value.inputs == Transaction::blank().inputs,
        g.value.outputs == Transaction::blank().outputs,
        g.value.redeem_pool_used == 0,
        data.len() >= 6,
        data[4] == 3,
        holds_all(
            data,
            g.at,
            wire::inputs_fields(Form::MultiSigned, tx, 0, tx.num_inputs as int)
                + wire::outputs_fields(tx, false, 0, tx.num_outputs as int),
        ),
    ensures
        wire::body(data, true).error is None,
        wire::body(data, true).at == g.at + size(
            wire::inputs_fields(Form::MultiSigned, tx, 0, tx.num_inputs as int)
                + wire::outputs_fields(tx, false, 0, tx.num_outputs as int),
        ),
        same_signed(tx, wire::body(data, true).value),
{
    let inputs = wire::inputs_fields(Form::MultiSigned, tx, 0, tx.num_inputs as int);
    let outputs = wire::outputs_fields(tx, false, 0, tx.num_outputs as int);
    lemma_split(data, g.at, inputs, outputs);
    lemma_blank_inputs();
    lemma_blank_outputs();
    assert forall|j: int| 0 <= j < tx.num_inputs implies #[trigger] carried(tx, j) by {
        assert(tx.inputs@[j].utxo_entry.script_public_key.wf());
    }
    lemma_signed_inputs(data, g.at, tx, g.value, 0, tx.num_inputs as int);
    let f = wire::inputs_field(data, true, g.at, g.value, 0, tx.num_inputs as int);
    lemma_outputs(data, f.at, tx, f.value, true, false, 0, tx.num_outputs as int);
    let h = wire::outputs_field(data, true, f.at, f.value, 0, tx.num_outputs as int);
    assert(wire::body(data, true) == h);
    assert forall|i: int|
        #![trigger h.value.inputs@[i]]
        0 <= i < tx.num_inputs implies {
        &&& same_input(tx.inputs@[i], h.value.inputs@[i])
        &&& same_signatures(tx.inputs@[i], h.value.inputs@[i])
        &&& h.value.redeem(i) == tx.redeem(i)
    } by {
        assert(h.value.inputs@[i] == f.value.inputs@[i]);
        assert(h.value.redeem(i) == f.value.redeem(i));
    }
}

/// A transaction in the multi-signature form, with anything behind it.
pub proof fn lemma_signed_written(tx: Transaction, behind: Seq<u8>)
    requires
        transferable(tx),
    ensures
        ({
            let all = wire::transaction_bytes(Form::MultiSigned, tx);
            let f = wire::body(all + behind, true);
            f.error is None && f.at == all.len() && same_signed(tx, f.value)
        }),
{
    let globals = wire::globals_fields(Form::MultiSigned, tx);
    let inputs = wire::inputs_fields(Form::MultiSigned, tx, 0, tx.num_inputs as int);
    let outputs = wire::outputs_fields(tx, false, 0, tx.num_outputs as int);
    let all = wire::transaction_bytes(Form::MultiSigned, tx);
    let data = all + behind;
    assert(wire::transaction_fields(Form::MultiSigned, tx) == globals + (inputs + outputs));
    assert(data.subrange(0, all.len() as int) =~= all);
    lemma_split(data, 0, globals, inputs + outputs);
    lemma_globals(data, Form::MultiSigned, tx);
    lemma_signed_body(data, tx, wire::globals(data, true));
}

/// A partly or fully signed transaction reaches the next signer with all its
/// signatures and redeem scripts.
pub proof fn law_signed_round_trip(tx: Transaction)
    requires
        transferable(tx),
    ensures
        wire::multi_signed(wire::transaction_bytes(Form::MultiSigned, tx)).1 is None,
        same_signed(tx, wire::multi_signed(wire::transaction_bytes(Form::MultiSigned, tx)).0),
{
    let data = wire::transaction_bytes(Form::MultiSigned, tx);
    lemma_signed_written(tx, Seq::empty());
    assert(data + Seq::<u8>::empty() =~= data);
}

/// The kind of a script and its multisig parts depend on its bytes alone.
proof fn lemma_script_kind(a: Seq<u8>, b: Seq<u8>, len: int)
    requires
        0 <= len <= a.len(),
        len <= b.len(),
        a.take(len) == b.take(len),
    ensures
        script::script_type(a, len) == script::script_type(b, len),
        script::multisig_info(a, len) == script::multisig_info(b, len),
{
    assert forall|k: int| 0 <= k < len implies a[k] == b[k] by {
        assert(a[k] == a.take(len)[k]);
        assert(b[k] == b.take(len)[k]);
    }
    if script::is_multisig(a, len) || script::is_multisig(b, len) {
        let n = a[len - 2] - script::OP_1 + 1;
        assert forall|i: int| 0 <= i < n && len == 1 + n * 33 + 2 implies #[trigger] a[1 + i * 33] == b[1
            + i * 33] by {
            assert(0 <= 1 + i * 33 < len);
        }
        if script::is_multisig(a, len) {
            assert forall|i: int| 0 <= i < n implies #[trigger] b[1 + i * 33]
                == script::OP_DATA_32 by {
                assert(a[1 + i * 33] == script::OP_DATA_32);
            }
        } else {
            assert forall|i: int| 0 <= i < n implies #[trigger] a[1 + i * 33]
                == script::OP_DATA_32 by {
                assert(b[1 + i * 33] == script::OP_DATA_32);
            }
        }
        assert forall|i: int| 0 <= i < 5 implies #[trigger] script::script_key(a, n, i)
            == script::script_key(b, n, i) by {
            if i < n {
                assert(a.subrange(2 + i * 33, 34 + i * 33) =~= b.subrange(2 + i * 33, 34 + i * 33));
            }
        }
        assert(script::script_key(a, n, 0) == script::script_key(b, n, 0));
        assert(script::script_key(a, n, 1) == script::script_key(b, n, 1));
        assert(script::script_key(a, n, 2) == script::script_key(b, n, 2));
        assert(script::script_key(a, n, 3) == script::script_key(b, n, 3));
        assert(script::script_key(a, n, 4) == script::script_key(b, n, 4));
    }
}

/// What input `i` asks for, and what it has, is the same in both.
proof fn lemma_same_progress(a: Transaction, b: Transaction, i: int)
    requires
        same_signed(a, b),
        0 <= i < a.num_inputs <= MAX_INPUTS,
        status::analyzable(a, i),
        status::analyzable(b, i),
        a.redeem_wf(i),
        b.redeem_wf(i),
        a.inputs@[i].sig_len > 0 <==> a.inputs@[i].sig_count > 0,
    ensures
        status::analysis(a, i) == status::analysis(b, i),
        status::required_sigs(a, i) == status::required_sigs(b, i),
        status::present_sigs(a, i) == status::present_sigs(b, i),
{
    let x = a.inputs@[i];
    let y = b.inputs@[i];
    let p = x.utxo_entry.script_public_key;
    let q = y.utxo_entry.script_public_key;
    assert(same_input(x, y));
    lemma_script_kind(p.script@, q.script@, p.script_len as int);
    assert(a.redeem(i) == b.redeem(i));
    assert(a.redeem(i).len() == x.redeem_script_len);
    assert(b.redeem(i).len() == y.redeem_script_len);
}

proof fn lemma_same_totals(a: Transaction, b: Transaction, n: nat)
    requires
        forall|i: int|
            #![trigger status::required_sigs(a, i)]
            0 <= i < n ==> status::required_sigs(a, i) == status::required_sigs(b, i)
                && status::present_sigs(a, i) == status::present_sigs(b, i),
    ensures
        status::required_total(a, n) == status::required_total(b, n),
        status::present_total(a, n) == status::present_total(b, n),
    decreases n,
{
    if n > 0 {
        lemma_same_totals(a, b, (n - 1) as nat);
        assert(status::required_sigs(a, n - 1) == status::required_sigs(b, n - 1));
    }
}

/// The next signer finds the signing as far as the last one left it: as many
/// signatures are there, and as many are needed. (A signature that is only in
/// the fields for single-signature readers is not handed on.)
pub proof fn law_progress_survives_transfer(a: Transaction, b: Transaction)
    requires
        same_signed(a, b),
        a.wf(),
        b.wf(),
        forall|i: int|
            #![trigger a.inputs@[i]]
            0 <= i < a.num_inputs ==> (a.inputs@[i].sig_len > 0 <==> a.inputs@[i].sig_count > 0),
    ensures
        status::required_total(a, a.num_inputs as nat) == status::required_total(
            b,
            b.num_inputs as nat,
        ),
        status::present_total(a, a.num_inputs as nat) == status::present_total(
            b,
            b.num_inputs as nat,
        ),
        status::fully_signed(a) == status::fully_signed(b),
{
    assert forall|i: int|
        #![trigger status::required_sigs(a, i)]
        0 <= i < a.num_inputs implies status::required_sigs(a, i) == status::required_sigs(b, i)
        && status::present_sigs(a, i) == status::present_sigs(b, i) by {
        assert(a.inputs@[i].utxo_entry.script_public_key.wf());
        assert(b.inputs@[i].utxo_entry.script_public_key.wf());
        lemma_same_progress(a, b, i);
    }
    lemma_same_totals(a, b, a.num_inputs as nat);
    status::law_fully_signed_iff_status_complete(a);
    status::law_fully_signed_iff_status_complete(b);
}

/// The signatures of a response.
proof fn lemma_records(data: Seq<u8>, r: SignedResponse, i: int, n: int)
    requires
        holds_all(data, 6 + 66 * i, response::signatures_fields(r, i, n)),
        0 <= i <= n <= MAX_SIGNATURES,
        forall|j: int|
            i <= j < n ==> !((#[trigger] r.signatures@[j]).sighash_type is AnyOneCanPay),
    ensures
        size(response::signatures_fields(r, i, n)) == 66 * (n - i),
        response::records_error(data, i, n) is None,
        n == data[5] ==> forall|j: int|
            i <= j < n ==> #[trigger] response::record(data, j) == r.signatures@[j],
    decreases n - i,
{
    if i < n {
        let sig = r.signatures@[i];
        let at = 6 + 66 * i;
        let rest = response::signatures_fields(r, i + 1, n);
        lemma_split(data, at, response::signature_fields(sig), rest);
        lemma_field(
            data,
            at,
            seq![sig.input_index],
            seq![seq![sig.sighash_type.byte()]] + seq![sig.signature@],
        );
        lemma_holds_byte(data, at, sig.input_index);
        lemma_field(data, at + 1, seq![sig.sighash_type.byte()], seq![sig.signature@]);
        lemma_last(data, at + 2, sig.signature@);
        lemma_holds_byte(data, at + 1, sig.sighash_type.byte());
        lemma_holds_array(data, at + 2, sig.signature);
        transaction::law_sighash_byte_round_trip(sig.sighash_type);
        lemma_records(data, r, i + 1, n);
    }
}

/// The signatures of a response are its records.
proof fn lemma_record_at(data: Seq<u8>, j: int)
    requires
        0 <= j < MAX_SIGNATURES,
    ensures
        response::response_value(data).signatures@[j] == response::record(data, j),
{
}

/// A response that is serialised reads back, and has six bytes and 66 for
/// every signature. (A signature of a bare "anyone can pay" type is written,
/// and refused on reading.)
#[verifier::spinoff_prover]
#[verifier::rlimit(50)]
pub proof fn law_response_round_trip(r: SignedResponse, behind: Seq<u8>)
    requires
        r.num_signatures <= MAX_SIGNATURES,
        forall|j: int|
            0 <= j < r.num_signatures ==> !((#[trigger] r.signatures@[j]).sighash_type
                is AnyOneCanPay),
    ensures
        response::response_bytes(r).len() == 6 + 66 * r.num_signatures,
        response::response_error(response::response_bytes(r) + behind) is None,
        response::response_value(response::response_bytes(r) + behind).num_signatures
            == r.num_signatures,
        forall|j: int|
            0 <= j < r.num_signatures ==> #[trigger] response::response_value(
                response::response_bytes(r) + behind,
            ).signatures@[j] == r.signatures@[j],
{
    let n = r.num_signatures as int;
    let all = response::response_bytes(r);
    let data = all + behind;
    let sigs = response::signatures_fields(r, 0, n);
    assert(data.subrange(0, all.len() as int) =~= all);
    let counted = seq![seq![r.num_signatures as u8]] + sigs;
    lemma_field(data, 0, response::response_magic(), seq![seq![1u8]] + counted);
    assert(data.take(4) =~= data.subrange(0, 4));
    lemma_field(data, 4, seq![1u8], counted);
    lemma_holds_byte(data, 4, 1);
    lemma_field(data, 5, seq![r.num_signatures as u8], sigs);
    lemma_holds_byte(data, 5, r.num_signatures as u8);
    lemma_records(data, r, 0, n);
    assert(response::response_error(data) == response::records_error(data, 0, n));
    assert forall|j: int| 0 <= j < n implies #[trigger] response::response_value(
        data,
    ).signatures@[j] == r.signatures@[j] by {
        lemma_record_at(data, j);
    }
}

} // verus!
