//! How the form with single signatures goes together with the unsigned one.
use crate::wallet::roundtrip;
use crate::wallet::transaction::{Transaction, TransactionInput};
use crate::wallet::wire;
use crate::wallet::wire::Form;
use vstd::prelude::*;

verus! {

/// What stands behind the script of an input that has at most one signature:
/// its length, and if there is one, its bytes and sighash type.
pub open spec fn signature_block(x: TransactionInput) -> Seq<u8> {
    seq![x.sig_len] + if x.sig_len > 0 {
        x.signature@.take(x.sig_len as int) + seq![x.sighash_type]
    } else {
        Seq::empty()
    }
}

/// How many bytes the signature blocks of the inputs from `i` to `n` take.
pub open spec fn blocks_size(tx: Transaction, i: int, n: int) -> int
    decreases n - i,
{
    if i >= n {
        0
    } else {
        (if tx.inputs@[i].sig_len > 0 {
            tx.inputs@[i].sig_len + 2
        } else {
            1
        }) + blocks_size(tx, i + 1, n)
    }
}

/// How many bytes an input takes up to the end of its script.
pub open spec fn core_size(tx: Transaction, i: int) -> int {
    roundtrip::size(wire::input_core_fields(tx.inputs@[i]))
}

/// The signature blocks of the inputs from `i` to `n` stand behind their
/// scripts, the first of these inputs being at `at`.
pub open spec fn has_blocks(tx: Transaction, data: Seq<u8>, at: int, i: int, n: int) -> bool
    decreases n - i,
{
    if i >= n {
        true
    } else {
        let start = at + core_size(tx, i);
        let end = start + signature_block(tx.inputs@[i]).len();
        &&& end <= data.len()
        &&& data.subrange(start, end) == signature_block(tx.inputs@[i])
        &&& has_blocks(tx, data, end, i + 1, n)
    }
}

/// The bytes from `at` on, where the inputs from `i` to `n` begin, without
/// their signature blocks.
pub open spec fn without_blocks(tx: Transaction, data: Seq<u8>, at: int, i: int, n: int) -> Seq<u8>
    decreases n - i,
{
    if i >= n {
        data.skip(at)
    } else {
        let start = at + core_size(tx, i);
        let end = start + signature_block(tx.inputs@[i]).len();
        data.subrange(at, start) + without_blocks(tx, data, end, i + 1, n)
    }
}

proof fn lemma_block(x: TransactionInput)
    requires
        x.sig_len <= 64,
    ensures
        wire::single_sig_fields(x).flatten() == signature_block(x),
        signature_block(x).len() == if x.sig_len > 0 {
            x.sig_len + 2
        } else {
            1
        },
{
    let len = seq![x.sig_len];
    let rest = if x.sig_len > 0 {
        seq![x.signature@.take(x.sig_len as int)] + seq![seq![x.sighash_type]]
    } else {
        Seq::empty()
    };
    roundtrip::lemma_field_size(len);
    vstd::seq_lib::lemma_flatten_concat(seq![len], rest);
    if x.sig_len > 0 {
        let signature = x.signature@.take(x.sig_len as int);
        roundtrip::lemma_field_size(signature);
        roundtrip::lemma_field_size(seq![x.sighash_type]);
        vstd::seq_lib::lemma_flatten_concat(seq![signature], seq![seq![x.sighash_type]]);
    }
}

proof fn lemma_without_blocks(
    tx: Transaction,
    data: Seq<u8>,
    at: int,
    i: int,
    n: int,
    tail: Seq<u8>,
)
    requires
        0 <= at <= data.len(),
        0 <= i,
        data.skip(at) == wire::inputs_fields(Form::SingleSigned, tx, i, n).flatten() + tail,
        forall|j: int| i <= j < n ==> (#[trigger] tx.inputs@[j]).sig_len <= 64,
    ensures
        has_blocks(tx, data, at, i, n),
        without_blocks(tx, data, at, i, n) == wire::inputs_fields(
            Form::Unsigned,
            tx,
            i,
            n,
        ).flatten() + tail,
        wire::inputs_fields(Form::SingleSigned, tx, i, n).flatten().len()
            == wire::inputs_fields(Form::Unsigned, tx, i, n).flatten().len() + blocks_size(
            tx,
            i,
            n,
        ),
    decreases n - i,
{
    if i < n {
        let x = tx.inputs@[i];
        let core = wire::input_core_fields(x);
        let block = wire::single_sig_fields(x);
        let rest = wire::inputs_fields(Form::SingleSigned, tx, i + 1, n);
        let plain = wire::inputs_fields(Form::Unsigned, tx, i + 1, n);
        lemma_block(x);
        vstd::seq_lib::lemma_flatten_concat(core, block + rest);
        vstd::seq_lib::lemma_flatten_concat(block, rest);
        assert(Seq::<Seq<u8>>::empty() + plain =~= plain);
        vstd::seq_lib::lemma_flatten_concat(core, plain);
        let (c, b, r) = (core.flatten(), block.flatten(), rest.flatten());
        let all = data.skip(at);
        assert(all =~= c + b + r + tail);
        let start = at + c.len();
        let end = start + b.len();
        assert(all.len() == data.len() - at);
        assert(data.subrange(at, start) =~= c) by {
            assert(data.subrange(at, start) =~= all.subrange(0, c.len() as int));
        }
        assert(data.subrange(start, end) =~= b) by {
            assert(data.subrange(start, end) =~= all.subrange(
                c.len() as int,
                c.len() + b.len() as int,
            ));
        }
        assert(data.skip(end) =~= r + tail) by {
            assert(data.skip(end) =~= all.skip(c.len() + b.len() as int));
        }
        lemma_without_blocks(tx, data, end, i + 1, n, tail);
        assert(c + (plain.flatten() + tail) =~= (c + plain.flatten()) + tail);
    } else {
        assert(Seq::<Seq<u8>>::empty().flatten() + tail =~= tail);
    }
}

/// Header and global fields of the two forms differ in the flags.
proof fn lemma_globals(tx: Transaction)
    ensures
        ({
            let signed = wire::globals_fields(Form::SingleSigned, tx).flatten();
            let plain = wire::globals_fields(Form::Unsigned, tx).flatten();
            &&& signed.len() == plain.len() >= 6
            &&& signed == plain.update(5, wire::form_flags(Form::SingleSigned, tx))
            &&& plain[5] == wire::form_flags(Form::Unsigned, tx)
        }),
{
    let signed = wire::globals_fields(Form::SingleSigned, tx);
    let plain = wire::globals_fields(Form::Unsigned, tx);
    let rest = signed.skip(3);
    let head = seq![wire::magic()] + seq![seq![1u8]];
    let f = wire::form_flags(Form::SingleSigned, tx);
    let g = wire::form_flags(Form::Unsigned, tx);
    assert(signed =~= head + (seq![seq![f]] + rest));
    assert(plain =~= head + (seq![seq![g]] + rest));
    roundtrip::lemma_field_size(wire::magic());
    roundtrip::lemma_field_size(seq![1u8]);
    roundtrip::lemma_field_size(seq![f]);
    roundtrip::lemma_field_size(seq![g]);
    vstd::seq_lib::lemma_flatten_concat(seq![wire::magic()], seq![seq![1u8]]);
    vstd::seq_lib::lemma_flatten_concat(head, seq![seq![f]] + rest);
    vstd::seq_lib::lemma_flatten_concat(head, seq![seq![g]] + rest);
    vstd::seq_lib::lemma_flatten_concat(seq![seq![f]], rest);
    vstd::seq_lib::lemma_flatten_concat(seq![seq![g]], rest);
    assert(signed.flatten() =~= plain.flatten().update(5, f));
}

/// The form with single signatures is the unsigned one with flag 0x01 set and
/// one signature block behind the script of each input: without the blocks,
/// and with the flags of the unsigned form, the same bytes are left.
pub proof fn law_single_signed_is_unsigned_with_blocks(tx: Transaction)
    requires
        wire::writable(Form::SingleSigned, tx),
    ensures
        ({
            let signed = wire::transaction_bytes(Form::SingleSigned, tx);
            let plain = wire::transaction_bytes(Form::Unsigned, tx);
            let at = roundtrip::size(wire::globals_fields(Form::Unsigned, tx));
            let n = tx.num_inputs as int;
            &&& wire::writable(Form::Unsigned, tx)
            &&& signed.len() == plain.len() + blocks_size(tx, 0, n)
            &&& signed[5] == plain[5] | 0x01
            &&& !wire::has_covenants(tx) ==> signed[5] == 0x01
            &&& has_blocks(tx, signed, at, 0, n)
            &&& plain == signed.take(at).update(5, plain[5]) + without_blocks(
                tx,
                signed,
                at,
                0,
                n,
            )
        }),
{
    let n = tx.num_inputs as int;
    let outputs = wire::outputs_fields(tx, wire::has_covenants(tx), 0, tx.num_outputs as int);
    let (g, h) = (
        wire::globals_fields(Form::SingleSigned, tx),
        wire::globals_fields(Form::Unsigned, tx),
    );
    let (a, b) = (
        wire::inputs_fields(Form::SingleSigned, tx, 0, n),
        wire::inputs_fields(Form::Unsigned, tx, 0, n),
    );
    vstd::seq_lib::lemma_flatten_concat(g, a + outputs);
    vstd::seq_lib::lemma_flatten_concat(h, b + outputs);
    vstd::seq_lib::lemma_flatten_concat(a, outputs);
    vstd::seq_lib::lemma_flatten_concat(b, outputs);
    lemma_globals(tx);
    let signed = wire::transaction_bytes(Form::SingleSigned, tx);
    let plain = wire::transaction_bytes(Form::Unsigned, tx);
    let at = h.flatten().len() as int;
    assert(signed.take(at) =~= g.flatten());
    assert(signed.skip(at) =~= a.flatten() + outputs.flatten());
    lemma_without_blocks(tx, signed, at, 0, n, outputs.flatten());
    assert(signed[5] == g.flatten()[5]);
    assert(plain[5] == h.flatten()[5]);
    assert(0x00u8 | 0x01 == 0x01 && 0x04u8 | 0x01 == 0x05) by (bit_vector);
    assert(g.flatten().update(5, plain[5]) =~= h.flatten());
    assert(plain =~= h.flatten() + (b.flatten() + outputs.flatten()));
}

} // verus!
