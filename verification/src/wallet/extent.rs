//! Where a transaction ends in a buffer: what is cut off and what stands
//! behind.
use crate::bytes;
use crate::wallet::pskt::PsktError;
use crate::wallet::roundtrip;
use crate::wallet::transaction::{
    ScriptPublicKey, Transaction, TransactionInput, TransactionOutput, MAX_OUTPUTS,
};
use crate::wallet::wire;
use crate::wallet::wire::{Filled, Form};
use vstd::prelude::*;

verus! {

/// What the first `k` bytes give of a part that is read from all of them
/// without an error: the same, or too short a buffer. What they give without
/// an error is what all of them give.
spec fn cut<T>(whole: Filled<T>, part: Filled<T>, k: int) -> bool {
    &&& whole.error is None ==> if whole.at <= k {
        part == whole
    } else {
        part.error == Some(PsktError::BufferTooShort)
    }
    &&& part.error is None ==> whole == part
}

/// A part that is read without an error lies within the buffer.
spec fn within<T>(f: Filled<T>, at: int, len: nat) -> bool {
    f.error is None ==> at <= f.at <= len
}

/// The first `k` bytes are those of the whole.
proof fn lemma_same_bytes(data: Seq<u8>, k: int)
    requires
        0 <= k <= data.len(),
    ensures
        forall|a: int, b: int|
            0 <= a <= b <= k ==> #[trigger] data.take(k).subrange(a, b) == data.subrange(a, b),
{
    assert forall|a: int, b: int| 0 <= a <= b <= k implies #[trigger] data.take(k).subrange(a, b)
        == data.subrange(a, b) by {
        assert(data.take(k).subrange(a, b) =~= data.subrange(a, b));
    }
}

proof fn lemma_cut_globals(data: Seq<u8>, signed: bool, k: int)
    requires
        0 <= k <= data.len(),
    ensures
        cut(wire::globals(data, signed), wire::globals(data.take(k), signed), k),
{
    lemma_same_bytes(data, k);
    if k >= 4 {
        assert(data.take(k).take(4) =~= data.take(4));
    }
}

proof fn lemma_cut_script(data: Seq<u8>, at: int, spk: ScriptPublicKey, signed: bool, k: int)
    requires
        0 <= at <= k <= data.len(),
    ensures
        cut(
            wire::script_field(data, at, spk, signed),
            wire::script_field(data.take(k), at, spk, signed),
            k,
        ),
        within(wire::script_field(data, at, spk, signed), at, data.len()),
{
    lemma_same_bytes(data, k);
}

proof fn lemma_cut_core(data: Seq<u8>, at: int, x: TransactionInput, signed: bool, k: int)
    requires
        0 <= at <= k <= data.len(),
    ensures
        cut(
            wire::input_core(data, at, x, signed),
            wire::input_core(data.take(k), at, x, signed),
            k,
        ),
        within(wire::input_core(data, at, x, signed), at, data.len()),
{
    lemma_same_bytes(data, k);
    let head = wire::input_head(data, at, x);
    if head.error is None {
        if head.at <= k {
            assert(wire::input_head(data.take(k), at, x) == head);
            lemma_cut_script(data, head.at, x.utxo_entry.script_public_key, signed, k);
        } else {
            lemma_cut_script(
                data,
                head.at,
                x.utxo_entry.script_public_key,
                signed,
                data.len() as int,
            );
        }
    }
}

proof fn lemma_cut_redeem(data: Seq<u8>, at: int, width: int, tx: Transaction, i: int, k: int)
    requires
        0 <= at <= k <= data.len(),
        width == 1 || width == 2,
    ensures
        cut(
            wire::redeem_field(data, at, width, tx, i),
            wire::redeem_field(data.take(k), at, width, tx, i),
            k,
        ),
        within(wire::redeem_field(data, at, width, tx, i), at, data.len()),
{
    lemma_same_bytes(data, k);
}

proof fn lemma_cut_sigs(
    data: Seq<u8>,
    at: int,
    x: TransactionInput,
    s: int,
    count: int,
    k: int,
)
    requires
        0 <= at <= k <= data.len(),
    ensures
        cut(
            wire::sigs_field(data, at, x, s, count),
            wire::sigs_field(data.take(k), at, x, s, count),
            k,
        ),
        within(wire::sigs_field(data, at, x, s, count), at, data.len()),
    decreases count - s,
{
    lemma_same_bytes(data, k);
    let f = wire::sig_field(data, at, x.sigs@[s]);
    if s < count && f.error is None {
        let y = TransactionInput {
            sigs: vstd::array::spec_array_update(x.sigs, s, f.value),
            ..x
        };
        if f.at <= k {
            assert(wire::sig_field(data.take(k), at, x.sigs@[s]) == f);
            lemma_cut_sigs(data, f.at, y, s + 1, count, k);
        } else {
            lemma_cut_sigs(data, f.at, y, s + 1, count, data.len() as int);
        }
    }
}

proof fn lemma_cut_signatures(data: Seq<u8>, at: int, x: TransactionInput, k: int)
    requires
        0 <= at <= k <= data.len(),
    ensures
        cut(
            wire::signatures_field(data, at, x),
            wire::signatures_field(data.take(k), at, x),
            k,
        ),
        within(wire::signatures_field(data, at, x), at, data.len()),
{
    if at < data.len() {
        let y = TransactionInput { sig_count: data[at], ..x };
        let j = if at < k {
            k
        } else {
            data.len() as int
        };
        lemma_cut_sigs(data, at + 1, y, 0, data[at] as int, j);
    }
}

/// What follows the script of an input in the multi-signature form.
spec fn signed_tail(data: Seq<u8>, at: int, x: TransactionInput, tx: Transaction, i: int) -> Filled<
    Transaction,
> {
    let sigs = wire::signatures_field(data, at, x);
    let tx1 = tx.with_input(i, sigs.value);
    if sigs.error is Some {
        Filled { value: tx1, at: sigs.at, error: sigs.error }
    } else {
        wire::redeem_field(
            data,
            sigs.at,
            if data[4] == 3 {
                2
            } else {
                1
            },
            tx1,
            i,
        )
    }
}

proof fn lemma_cut_tail(
    data: Seq<u8>,
    at: int,
    x: TransactionInput,
    tx: Transaction,
    i: int,
    k: int,
)
    requires
        6 <= at <= k <= data.len(),
    ensures
        cut(signed_tail(data, at, x, tx, i), signed_tail(data.take(k), at, x, tx, i), k),
        within(signed_tail(data, at, x, tx, i), at, data.len()),
{
    lemma_cut_signatures(data, at, x, k);
    let sigs = wire::signatures_field(data, at, x);
    if sigs.error is None {
        let width = if data[4] == 3 {
            2int
        } else {
            1
        };
        let j = if sigs.at <= k {
            k
        } else {
            data.len() as int
        };
        lemma_cut_redeem(data, sigs.at, width, tx.with_input(i, sigs.value), i, j);
    }
}

proof fn lemma_cut_input(data: Seq<u8>, signed: bool, at: int, tx: Transaction, i: int, k: int)
    requires
        6 <= at <= k <= data.len(),
    ensures
        cut(
            wire::input_field(data, signed, at, tx, i),
            wire::input_field(data.take(k), signed, at, tx, i),
            k,
        ),
        within(wire::input_field(data, signed, at, tx, i), at, data.len()),
{
    let n = data.len() as int;
    lemma_cut_core(data, at, tx.inputs@[i], signed, k);
    let core = wire::input_core(data, at, tx.inputs@[i], signed);
    if core.error is None {
        let j = if core.at <= k {
            k
        } else {
            n
        };
        if !signed {
            let tx1 = tx.with_input(i, TransactionInput { redeem_script_len: 0, ..core.value });
            lemma_cut_redeem(data, core.at, 1, tx1, i, j);
        } else {
            lemma_cut_tail(data, core.at, core.value, tx, i, j);
        }
    }
}

proof fn lemma_cut_inputs(
    data: Seq<u8>,
    signed: bool,
    at: int,
    tx: Transaction,
    i: int,
    n: int,
    k: int,
)
    requires
        6 <= at <= k <= data.len(),
    ensures
        cut(
            wire::inputs_field(data, signed, at, tx, i, n),
            wire::inputs_field(data.take(k), signed, at, tx, i, n),
            k,
        ),
        within(wire::inputs_field(data, signed, at, tx, i, n), at, data.len()),
    decreases n - i,
{
    if i < n {
        lemma_cut_input(data, signed, at, tx, i, k);
        let f = wire::input_field(data, signed, at, tx, i);
        if f.error is None {
            lemma_cut_inputs(
                data,
                signed,
                f.at,
                f.value,
                i + 1,
                n,
                if f.at <= k {
                    k
                } else {
                    data.len() as int
                },
            );
        }
    }
}

proof fn lemma_cut_output(data: Seq<u8>, signed: bool, at: int, x: TransactionOutput, k: int)
    requires
        6 <= at <= k <= data.len(),
    ensures
        cut(
            wire::output_field(data, signed, at, x),
            wire::output_field(data.take(k), signed, at, x),
            k,
        ),
        within(wire::output_field(data, signed, at, x), at, data.len()),
{
    lemma_same_bytes(data, k);
    let n = data.len() as int;
    if at + 8 <= n {
        lemma_cut_script(
            data,
            at + 8,
            x.script_public_key,
            signed,
            if at + 8 <= k {
                k
            } else {
                n
            },
        );
    }
}

proof fn lemma_cut_outputs(
    data: Seq<u8>,
    signed: bool,
    at: int,
    tx: Transaction,
    i: int,
    n: int,
    k: int,
)
    requires
        6 <= at <= k <= data.len(),
    ensures
        cut(
            wire::outputs_field(data, signed, at, tx, i, n),
            wire::outputs_field(data.take(k), signed, at, tx, i, n),
            k,
        ),
        within(wire::outputs_field(data, signed, at, tx, i, n), at, data.len()),
    decreases n - i,
{
    if i < n {
        lemma_cut_output(data, signed, at, tx.outputs@[i], k);
        let f = wire::output_field(data, signed, at, tx.outputs@[i]);
        if f.error is None {
            lemma_cut_outputs(
                data,
                signed,
                f.at,
                tx.with_output(i, f.value),
                i + 1,
                n,
                if f.at <= k {
                    k
                } else {
                    data.len() as int
                },
            );
        }
    }
}

/// All but the trailers.
proof fn lemma_cut_body(data: Seq<u8>, signed: bool, k: int)
    requires
        0 <= k <= data.len(),
    ensures
        cut(wire::body(data, signed), wire::body(data.take(k), signed), k),
        within(wire::body(data, signed), 0, data.len()),
{
    let n = data.len() as int;
    lemma_same_bytes(data, k);
    lemma_cut_globals(data, signed, k);
    let g = wire::globals(data, signed);
    if g.error is None {
        let inputs = g.value.num_inputs as int;
        let outputs = g.value.num_outputs as int;
        lemma_cut_inputs(
            data,
            signed,
            g.at,
            g.value,
            0,
            inputs,
            if g.at <= k {
                k
            } else {
                n
            },
        );
        let ins = wire::inputs_field(data, signed, g.at, g.value, 0, inputs);
        if ins.error is None {
            lemma_cut_outputs(
                data,
                signed,
                ins.at,
                ins.value,
                0,
                outputs,
                if ins.at <= k {
                    k
                } else {
                    n
                },
            );
        }
    }
}

/// A buffer that holds a transaction in the unsigned form is refused as too
/// short wherever it is cut inside the transaction, and gives the very same
/// transaction wherever it is cut behind.
pub proof fn law_unsigned_extent(data: Seq<u8>, k: int)
    requires
        wire::unsigned(data).1 is None,
        0 <= k <= data.len(),
    ensures
        wire::body(data, false).at <= data.len(),
        k < wire::body(data, false).at ==> wire::unsigned(data.take(k)).1 == Some(
            PsktError::BufferTooShort,
        ),
        k >= wire::body(data, false).at ==> wire::unsigned(data.take(k)) == wire::unsigned(data),
{
    lemma_cut_body(data, false, k);
}

/// Every strict prefix of a transaction that is serialised without signatures
/// is too short, and what stands behind it changes nothing of what is read.
pub proof fn law_unsigned_is_self_delimiting(tx: Transaction, behind: Seq<u8>, k: int)
    requires
        wire::writable(Form::Unsigned, tx),
        tx.num_inputs > 0,
        tx.num_outputs > 0,
        0 <= k < wire::transaction_bytes(Form::Unsigned, tx).len(),
    ensures
        ({
            let all = wire::transaction_bytes(Form::Unsigned, tx);
            &&& wire::unsigned(all.take(k)).1 == Some(PsktError::BufferTooShort)
            &&& wire::unsigned(all).1 is None
            &&& wire::unsigned(all + behind) == wire::unsigned(all)
        }),
{
    let all = wire::transaction_bytes(Form::Unsigned, tx);
    roundtrip::lemma_unsigned_written(tx, behind);
    lemma_cut_body(all + behind, false, all.len() as int);
    lemma_cut_body(all + behind, false, k);
    assert((all + behind).take(all.len() as int) =~= all);
    assert((all + behind).take(k) =~= all.take(k));
}

/// A covenant binding: the output, the binding input and the covenant id.
pub type Binding = (u8, u16, [u8; 32]);

/// A covenant trailer.
pub open spec fn binding_bytes(b: Binding) -> Seq<u8> {
    seq![0x43u8, b.0] + bytes::le_bytes(b.1 as nat, 2) + b.2@
}

/// Covenant trailers.
pub open spec fn bindings_bytes(bindings: Seq<Binding>) -> Seq<u8>
    decreases bindings.len(),
{
    if bindings.len() == 0 {
        Seq::empty()
    } else {
        binding_bytes(bindings[0]) + bindings_bytes(bindings.skip(1))
    }
}

/// All trailers of a transaction: the stealth tweak, if there is one, and the
/// covenant bindings.
pub open spec fn trailer_bytes(tweak: Option<[u8; 32]>, bindings: Seq<Binding>) -> Seq<u8> {
    (match tweak {
        Some(t) => seq![0x53u8] + t@,
        None => Seq::empty(),
    }) + bindings_bytes(bindings)
}

/// A transaction with a stealth tweak.
pub open spec fn tweaked(tx: Transaction, tweak: Option<[u8; 32]>) -> Transaction {
    match tweak {
        Some(t) => Transaction { has_stealth_tweak: true, stealth_tweak: t, ..tx },
        None => tx,
    }
}

/// A transaction with an output bound to a covenant, if it has that output.
pub open spec fn bound(tx: Transaction, b: Binding) -> Transaction {
    if b.0 < tx.num_outputs {
        tx.with_output(
            b.0 as int,
            TransactionOutput {
                has_covenant: true,
                covenant_auth_input: b.1,
                covenant_id: b.2,
                ..tx.outputs@[b.0 as int]
            },
        )
    } else {
        tx
    }
}

/// A transaction with several bindings, one after the other.
pub open spec fn all_bound(tx: Transaction, bindings: Seq<Binding>) -> Transaction
    decreases bindings.len(),
{
    if bindings.len() == 0 {
        tx
    } else {
        all_bound(bound(tx, bindings[0]), bindings.skip(1))
    }
}

/// A transaction without a stealth tweak and without covenant bindings.
pub open spec fn untrailed(tx: Transaction) -> bool {
    &&& !tx.has_stealth_tweak
    &&& forall|j: int| 0 <= j < MAX_OUTPUTS ==> !(#[trigger] tx.outputs@[j]).has_covenant
}

proof fn lemma_bindings(data: Seq<u8>, at: int, tx: Transaction, bindings: Seq<Binding>)
    requires
        0 <= at <= data.len(),
        data.skip(at) == bindings_bytes(bindings),
    ensures
        wire::covenants_field(data, at, tx) == all_bound(tx, bindings),
    decreases bindings.len(),
{
    if bindings.len() > 0 {
        let b = bindings[0];
        let here = binding_bytes(b);
        let rest = bindings_bytes(bindings.skip(1));
        reveal_with_fuel(vstd::arithmetic::power::pow, 3);
        bytes::lemma_le_bytes_len(b.1 as nat, 2);
        bytes::lemma_le_round_trip(b.1 as nat, 2);
        let tail = data.skip(at);
        assert(tail == here + rest);
        assert(here.len() == 36);
        assert(tail.len() == data.len() - at);
        assert(data[at] == tail[0]);
        assert(data[at + 1] == tail[1]);
        assert(data.subrange(at + 2, at + 4) =~= bytes::le_bytes(b.1 as nat, 2)) by {
            assert(data.subrange(at + 2, at + 4) =~= tail.subrange(2, 4));
        }
        assert(data.subrange(at + 4, at + 36) =~= b.2@) by {
            assert(data.subrange(at + 4, at + 36) =~= tail.subrange(4, 36));
        }
        bytes::lemma_array_with(bytes::zero_array::<32>(), b.2@);
        assert(bytes::array_of::<32>(b.2@) =~= b.2);
        assert(data.skip(at + 36) =~= tail.skip(36));
        assert(tail.skip(36) =~= rest);
        lemma_bindings(data, at + 36, bound(tx, b), bindings.skip(1));
    } else {
        assert(data.skip(at).len() == data.len() - at);
    }
}

proof fn lemma_trailers(
    data: Seq<u8>,
    at: int,
    tx: Transaction,
    tweak: Option<[u8; 32]>,
    bindings: Seq<Binding>,
)
    requires
        0 <= at <= data.len(),
        data.skip(at) == trailer_bytes(tweak, bindings),
    ensures
        ({
            let s = wire::stealth_field(data, at, tx);
            wire::covenants_field(data, s.at, s.value) == all_bound(tweaked(tx, tweak), bindings)
        }),
{
    let tail = data.skip(at);
    let rest = bindings_bytes(bindings);
    assert(tail.len() == data.len() - at);
    match tweak {
        Some(t) => {
            assert(tail == (seq![0x53u8] + t@) + rest);
            assert(data[at] == tail[0]);
            assert(data.subrange(at + 1, at + 33) =~= t@) by {
                assert(data.subrange(at + 1, at + 33) =~= tail.subrange(1, 33));
            }
            bytes::lemma_array_with(bytes::zero_array::<32>(), t@);
            assert(bytes::array_of::<32>(t@) =~= t);
            assert(data.skip(at + 33) =~= tail.skip(33));
            assert(tail.skip(33) =~= rest);
            lemma_bindings(data, at + 33, tweaked(tx, tweak), bindings);
        },
        None => {
            assert(tail =~= rest);
            if bindings.len() > 0 {
                assert(data[at] == tail[0]);
                assert(tail[0] == binding_bytes(bindings[0])[0]);
            }
            lemma_bindings(data, at, tx, bindings);
        },
    }
}

proof fn lemma_inputs_untrailed(data: Seq<u8>, at: int, tx: Transaction, i: int, n: int)
    ensures
        ({
            let f = wire::inputs_field(data, true, at, tx, i, n);
            f.value.outputs == tx.outputs && f.value.has_stealth_tweak == tx.has_stealth_tweak
        }),
    decreases n - i,
{
    if i < n {
        let f = wire::input_field(data, true, at, tx, i);
        if f.error is None {
            lemma_inputs_untrailed(data, f.at, f.value, i + 1, n);
        }
    }
}

proof fn lemma_outputs_untrailed(data: Seq<u8>, at: int, tx: Transaction, i: int, n: int)
    requires
        untrailed(tx),
        0 <= i,
        n <= MAX_OUTPUTS,
    ensures
        untrailed(wire::outputs_field(data, true, at, tx, i, n).value),
    decreases n - i,
{
    if i < n {
        let f = wire::output_field(data, true, at, tx.outputs@[i]);
        let next = tx.with_output(i, f.value);
        assert(!tx.outputs@[i].has_covenant);
        assert forall|j: int| 0 <= j < MAX_OUTPUTS implies !(
        #[trigger] next.outputs@[j]).has_covenant by {
            assert(!tx.outputs@[j].has_covenant);
        }
        if f.error is None {
            lemma_outputs_untrailed(data, f.at, next, i + 1, n);
        }
    }
}

/// Trailers behind a buffer that a transaction in a multi-signature form
/// fills are read: the tweak and the bindings are taken over, and all else is
/// as without them.
pub proof fn law_trailers_are_read(
    data: Seq<u8>,
    tweak: Option<[u8; 32]>,
    bindings: Seq<Binding>,
)
    requires
        wire::body(data, true).error is None,
        wire::body(data, true).at == data.len(),
    ensures
        wire::multi_signed(data).1 is None,
        untrailed(wire::multi_signed(data).0),
        wire::multi_signed(data + trailer_bytes(tweak, bindings)) == (
            all_bound(tweaked(wire::multi_signed(data).0, tweak), bindings),
            None::<PsktError>,
        ),
{
    let f = wire::body(data, true);
    let g = wire::globals(data, true);
    let n = data.len() as int;
    assert forall|j: int| 0 <= j < MAX_OUTPUTS implies !(
    #[trigger] g.value.outputs@[j]).has_covenant by {}
    lemma_inputs_untrailed(data, g.at, g.value, 0, g.value.num_inputs as int);
    let ins = wire::inputs_field(data, true, g.at, g.value, 0, g.value.num_inputs as int);
    lemma_outputs_untrailed(data, ins.at, ins.value, 0, g.value.num_outputs as int);
    let all = data + trailer_bytes(tweak, bindings);
    assert(all.take(n) =~= data);
    lemma_cut_body(all, true, n);
    assert(all.skip(n) =~= trailer_bytes(tweak, bindings));
    lemma_trailers(all, n, f.value, tweak, bindings);
}

/// Every strict prefix of a transaction that is serialised in the
/// multi-signature form is too short.
pub proof fn law_signed_prefix_is_too_short(tx: Transaction, k: int)
    requires
        roundtrip::transferable(tx),
        0 <= k < wire::transaction_bytes(Form::MultiSigned, tx).len(),
    ensures
        wire::multi_signed(wire::transaction_bytes(Form::MultiSigned, tx).take(k)).1 == Some(
            PsktError::BufferTooShort,
        ),
{
    let all = wire::transaction_bytes(Form::MultiSigned, tx);
    roundtrip::lemma_signed_written(tx, Seq::empty());
    assert(all + Seq::<u8>::empty() =~= all);
    lemma_cut_body(all, true, k);
}

/// One tweak and one binding, in bytes.
proof fn lemma_two_trailers(tweak: [u8; 32], output: u8, auth_input: u16, id: [u8; 32])
    ensures
        trailer_bytes(Some(tweak), seq![(output, auth_input, id)]) == seq![0x53u8] + tweak@ + seq![
            0x43u8,
            output,
        ] + bytes::le_bytes(auth_input as nat, 2) + id@,
{
    let b: Binding = (output, auth_input, id);
    assert(seq![b].skip(1) =~= Seq::empty());
    reveal_with_fuel(bindings_bytes, 2);
    assert(trailer_bytes(Some(tweak), seq![b]) =~= seq![0x53u8] + tweak@ + seq![0x43u8, output]
        + bytes::le_bytes(auth_input as nat, 2) + id@);
}

/// What one tweak and one binding make of a transaction.
pub open spec fn trailed(
    plain: Transaction,
    t: Transaction,
    tweak: [u8; 32],
    b: Binding,
) -> bool {
    &&& t == Transaction {
        has_stealth_tweak: true,
        stealth_tweak: tweak,
        outputs: t.outputs,
        ..plain
    }
    &&& forall|j: int|
        0 <= j < MAX_OUTPUTS ==> #[trigger] t.outputs@[j] == if j == b.0 && b.0
            < plain.num_outputs {
            TransactionOutput {
                has_covenant: true,
                covenant_auth_input: b.1,
                covenant_id: b.2,
                ..plain.outputs@[j]
            }
        } else {
            plain.outputs@[j]
        }
}

proof fn lemma_trailed(plain: Transaction, tweak: [u8; 32], b: Binding)
    requires
        plain.num_outputs <= MAX_OUTPUTS,
    ensures
        trailed(plain, all_bound(tweaked(plain, Some(tweak)), seq![b]), tweak, b),
{
    assert(seq![b].skip(1) =~= Seq::empty());
    reveal_with_fuel(all_bound, 2);
}

/// A stealth tweak and a covenant binding behind a transaction that is
/// serialised in the multi-signature form reach the next signer with it: the
/// tweak is there, the output, if there is one with that number, is bound, no
/// other output is, and all else is as without the trailers.
pub proof fn law_signed_trailers_are_read(
    tx: Transaction,
    tweak: [u8; 32],
    output: u8,
    auth_input: u16,
    id: [u8; 32],
)
    requires
        roundtrip::transferable(tx),
    ensures
        ({
            let all = wire::transaction_bytes(Form::MultiSigned, tx);
            let trailers = seq![0x53u8] + tweak@ + seq![0x43u8, output] + bytes::le_bytes(
                auth_input as nat,
                2,
            ) + id@;
            let plain = wire::multi_signed(all).0;
            let (t, error) = wire::multi_signed(all + trailers);
            &&& wire::multi_signed(all).1 is None
            &&& untrailed(plain)
            &&& error is None
            &&& trailed(plain, t, tweak, (output, auth_input, id))
        }),
{
    let all = wire::transaction_bytes(Form::MultiSigned, tx);
    let b: Binding = (output, auth_input, id);
    roundtrip::lemma_signed_written(tx, Seq::empty());
    assert(all + Seq::<u8>::empty() =~= all);
    law_trailers_are_read(all, Some(tweak), seq![b]);
    lemma_two_trailers(tweak, output, auth_input, id);
    roundtrip::law_signed_round_trip(tx);
    lemma_trailed(wire::multi_signed(all).0, tweak, b);
}

} // verus!
