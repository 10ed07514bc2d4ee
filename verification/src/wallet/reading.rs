//! What stands in the packed format is read, in all its variants.
use crate::bytes;
use crate::wallet::cursor;
use crate::wallet::layout;
use crate::wallet::pskt::PsktError;
use crate::wallet::roundtrip;
use crate::wallet::transaction;
use crate::wallet::transaction::{
    ScriptPublicKey, Transaction, TransactionInput, MAX_INPUTS, MAX_SCRIPT_SIZE, REDEEM_POOL_SIZE,
};
use crate::wallet::wire;
use crate::wallet::wire::Filled;
use vstd::prelude::*;

verus! {

/// The form with this version carries signatures.
pub open spec fn has_signatures(version: u8) -> bool {
    version != 1
}

/// Redeem scripts stand in the packed form: always with signatures, and in the
/// unsigned form where flag 0x02 is set.
pub open spec fn has_redeems(version: u8, flags: u8) -> bool {
    version != 1 || flags & 0x02 != 0
}

/// Input `i` in the form with this version and these flags. Version 1 has no
/// signatures. The length of a redeem script has two bytes in version 3, and
/// else one.
pub open spec fn carried_block(version: u8, flags: u8, tx: Transaction, i: int) -> Seq<u8> {
    let x = tx.inputs@[i];
    let signatures = if version == 1 {
        Seq::empty()
    } else {
        seq![x.sig_count] + Seq::new(
            x.sig_count as nat,
            |s: int| layout::slot_block(x.sigs@[s]),
        ).flatten()
    };
    let redeem = if has_redeems(version, flags) {
        bytes::le_bytes(
            x.redeem_script_len as nat,
            if version == 3 {
                2
            } else {
                1
            },
        ) + layout::redeem_block(tx, i)
    } else {
        Seq::empty()
    };
    layout::core_block(x) + signatures + redeem
}

/// Covenant bindings stand in the packed form: only without signatures, and
/// where flag 0x04 is set.
pub open spec fn has_bindings(version: u8, flags: u8) -> bool {
    version == 1 && flags & 0x04 != 0
}

/// A transaction in the form with this version and these flags.
pub open spec fn packed(version: u8, flags: u8, tx: Transaction) -> Seq<u8> {
    layout::head_block(version, flags, tx) + tx.payload@.take(tx.payload_len as int) + Seq::new(
        tx.num_inputs as nat,
        |i: int| carried_block(version, flags, tx, i),
    ).flatten() + Seq::new(
        tx.num_outputs as nat,
        |i: int| layout::output_block(tx.outputs@[i], has_bindings(version, flags)),
    ).flatten()
}

/// Input `i` has a place in the form with this version and these flags: up to
/// five signatures, and a redeem script of up to 255 bytes, or 1024 in version
/// 3.
pub open spec fn fits(version: u8, flags: u8, tx: Transaction, i: int) -> bool {
    let x = tx.inputs@[i];
    &&& x.utxo_entry.script_public_key.wf()
    &&& version != 1 ==> x.sig_count <= 5 && forall|k: int|
        0 <= k < x.sig_count ==> (#[trigger] x.sigs@[k]).present
    &&& has_redeems(version, flags) ==> {
        &&& tx.redeem_wf(i)
        &&& x.redeem_script_len <= if version == 3 {
            1024int
        } else {
            255
        }
    }
}

/// A transaction has a place in the form with this version and these flags.
pub open spec fn packable(version: u8, flags: u8, tx: Transaction) -> bool {
    &&& version == 1 || version == 2 || version == 3
    &&& 1 <= tx.num_inputs <= 8 && 1 <= tx.num_outputs <= 8
    &&& tx.payload_len <= 768
    &&& forall|i: int| 0 <= i < tx.num_inputs ==> #[trigger] fits(version, flags, tx, i)
    &&& has_redeems(version, flags) ==> roundtrip::pool_need(tx, 0, tx.num_inputs as int) <= 2048
    &&& forall|i: int|
        #![trigger tx.outputs@[i]]
        0 <= i < tx.num_outputs ==> tx.outputs@[i].script_public_key.wf() && (version == 1
            && tx.outputs@[i].has_covenant ==> has_bindings(version, flags))
}

proof fn lemma_cut(data: Seq<u8>, at: int, a: Seq<u8>, b: Seq<u8>)
    requires
        roundtrip::holds(data, at, a + b),
    ensures
        roundtrip::holds(data, at, a),
        roundtrip::holds(data, at + a.len(), b),
{
    let whole = data.subrange(at, at + (a + b).len());
    assert(data.subrange(at, at + a.len()) =~= whole.take(a.len() as int));
    assert((a + b).take(a.len() as int) =~= a);
    assert(data.subrange(at + a.len(), at + a.len() + b.len()) =~= whole.skip(a.len() as int));
    assert((a + b).skip(a.len() as int) =~= b);
}

proof fn lemma_number(data: Seq<u8>, at: int, v: nat, n: nat)
    requires
        roundtrip::holds(data, at, bytes::le_bytes(v, n)),
        n == 1 && v < 0x100 || n == 2 && v < 0x1_0000 || n == 8 && v < 0x1_0000_0000_0000_0000,
    ensures
        cursor::le_at(data, at, n as int) == v,
        bytes::le_bytes(v, n).len() == n,
        at + n <= data.len(),
{
    assert(vstd::arithmetic::power::pow(256, 1) == 0x100 && vstd::arithmetic::power::pow(256, 2)
        == 0x1_0000 && vstd::arithmetic::power::pow(256, 8) == 0x1_0000_0000_0000_0000) by {
        reveal_with_fuel(vstd::arithmetic::power::pow, 9);
    }
    bytes::lemma_le_bytes_len(v, n);
    bytes::lemma_le_round_trip(v, n);
}

proof fn lemma_array<const N: usize>(data: Seq<u8>, at: int, a: [u8; N])
    requires
        roundtrip::holds(data, at, a@),
    ensures
        bytes::array_of::<N>(data.subrange(at, at + N)) == a,
{
    bytes::lemma_array_with(bytes::zero_array::<N>(), a@);
    assert(bytes::array_of::<N>(a@) =~= a);
}

proof fn lemma_head(data: Seq<u8>, version: u8, flags: u8, tx: Transaction)
    requires
        roundtrip::holds(
            data,
            0,
            layout::head_block(version, flags, tx) + tx.payload@.take(tx.payload_len as int),
        ),
        version == 1 || version == 2 || version == 3,
        1 <= tx.num_inputs <= 8 && 1 <= tx.num_outputs <= 8,
        tx.payload_len <= 768,
    ensures
        ({
            let g = wire::globals(data, has_signatures(version));
            &&& g.error is None
            &&& g.at == 48 + tx.payload_len
            &&& layout::head_block(version, flags, tx).len() == 48
            &&& roundtrip::same_globals(tx, g.value)
            &&& g.value.inputs == Transaction::blank().inputs
            &&& g.value.outputs == Transaction::blank().outputs
            &&& g.value.redeem_pool_used == 0
            &&& data.len() >= 48
            &&& data[4] == version
            &&& data[5] == flags
        }),
{
    let a = seq![0x4Bu8, 0x53u8, 0x50u8, 0x54u8, version, flags];
    let b = bytes::le_bytes(tx.version as nat, 2);
    let c = seq![tx.num_inputs as u8, tx.num_outputs as u8];
    let d = bytes::le_bytes(tx.locktime as nat, 8);
    let e = tx.subnetwork_id@;
    let f = bytes::le_bytes(tx.gas as nat, 8);
    let h = bytes::le_bytes(tx.payload_len as nat, 2);
    let p = tx.payload@.take(tx.payload_len as int);
    bytes::lemma_le_bytes_len(tx.version as nat, 2);
    bytes::lemma_le_bytes_len(tx.locktime as nat, 8);
    bytes::lemma_le_bytes_len(tx.gas as nat, 8);
    bytes::lemma_le_bytes_len(tx.payload_len as nat, 2);
    lemma_cut(data, 0, a + b + c + d + e + f + h, p);
    lemma_cut(data, 0, a + b + c + d + e + f, h);
    lemma_cut(data, 0, a + b + c + d + e, f);
    lemma_cut(data, 0, a + b + c + d, e);
    lemma_cut(data, 0, a + b + c, d);
    lemma_cut(data, 0, a + b, c);
    lemma_cut(data, 0, a, b);
    let front = data.subrange(0, 6);
    assert(front == a);
    assert(data[4] == front[4] && data[5] == front[5]);
    assert(data.take(4) =~= front.take(4));
    assert(a.take(4) =~= wire::magic());
    let counts = data.subrange(8, 10);
    assert(counts == c);
    assert(data[8] == counts[0] && data[9] == counts[1]);
    lemma_number(data, 6, tx.version as nat, 2);
    lemma_number(data, 10, tx.locktime as nat, 8);
    lemma_array(data, 18, tx.subnetwork_id);
    lemma_number(data, 38, tx.gas as nat, 8);
    lemma_number(data, 46, tx.payload_len as nat, 2);
    bytes::lemma_array_with(Transaction::blank().payload, p);
    let g = wire::globals(data, has_signatures(version));
    assert(g.value.payload@.take(tx.payload_len as int) =~= p);
}

proof fn lemma_redeem(
    data: Seq<u8>,
    at: int,
    width: nat,
    tx: Transaction,
    cur: Transaction,
    i: int,
)
    requires
        0 <= i < MAX_INPUTS,
        tx.redeem_wf(i),
        width == 1 && tx.inputs@[i].redeem_script_len <= 255 || width == 2
            && tx.inputs@[i].redeem_script_len <= 1024,
        roundtrip::holds(
            data,
            at,
            bytes::le_bytes(tx.inputs@[i].redeem_script_len as nat, width) + layout::redeem_block(
                tx,
                i,
            ),
        ),
        transaction::pool_wf(cur),
        cur.inputs@[i].redeem_script_len == 0,
        tx.inputs@[i].redeem_script_len > MAX_SCRIPT_SIZE ==> cur.redeem_pool_used
            + tx.inputs@[i].redeem_script_len <= REDEEM_POOL_SIZE,
    ensures
        ({
            let f = wire::redeem_field(data, at, width as int, cur, i);
            let len = tx.inputs@[i].redeem_script_len;
            &&& f.error is None
            &&& f.at == at + width + len
            &&& f.value == if len == 0 {
                cur
            } else {
                cur.with_redeem(i, tx.redeem(i)).unwrap()
            }
            &&& len > 0 ==> cur.with_redeem(i, tx.redeem(i)) is Some
            &&& f.value.redeem(i) == tx.redeem(i)
            &&& forall|j: int|
                0 <= j < MAX_INPUTS && j != i ==> #[trigger] f.value.redeem(j) == cur.redeem(j)
            &&& transaction::pool_wf(f.value)
        }),
{
    let len = tx.inputs@[i].redeem_script_len;
    let r = tx.redeem(i);
    assert(r =~= layout::redeem_block(tx, i));
    assert(r.len() == len);
    lemma_cut(data, at, bytes::le_bytes(len as nat, width), r);
    lemma_number(data, at, len as nat, width);
    assert(roundtrip::holds(data, at + width, r));
    if len > 0 {
        transaction::law_stored_redeem_reads_back(cur, i, r);
    } else {
        assert(cur.redeem(i) =~= r);
    }
}

/// `after` is `before` but for the inputs and the pool.
spec fn inputs_only(before: Transaction, after: Transaction) -> bool {
    after == Transaction {
        inputs: after.inputs,
        redeem_pool: after.redeem_pool,
        redeem_pool_used: after.redeem_pool_used,
        ..before
    }
}

/// Input `i` has been read: all that the form carries of it is there.
pub open spec fn input_read(
    version: u8,
    flags: u8,
    tx: Transaction,
    value: Transaction,
    i: int,
) -> bool {
    &&& roundtrip::same_input(tx.inputs@[i], value.inputs@[i])
    &&& version != 1 ==> roundtrip::same_signatures(tx.inputs@[i], value.inputs@[i])
    &&& value.redeem(i) == if has_redeems(version, flags) {
        tx.redeem(i)
    } else {
        Seq::empty()
    }
}

/// Input `i` is untouched.
spec fn fresh(cur: Transaction, i: int) -> bool {
    let x = cur.inputs@[i];
    x.redeem_script_len == 0 && !x.redeem_in_pool && x.sig_len == 0
}

/// What input `i` takes of the pool.
spec fn pool_share(version: u8, flags: u8, tx: Transaction, i: int) -> int {
    let len = tx.inputs@[i].redeem_script_len;
    if has_redeems(version, flags) && len > MAX_SCRIPT_SIZE {
        len as int
    } else {
        0
    }
}

proof fn lemma_with_input(cur: Transaction, i: int, x: TransactionInput)
    requires
        0 <= i < MAX_INPUTS,
        transaction::pool_wf(cur),
        x.redeem_script_len == 0,
        !x.redeem_in_pool,
    ensures
        transaction::pool_wf(cur.with_input(i, x)),
        forall|j: int|
            0 <= j < MAX_INPUTS && j != i ==> #[trigger] cur.with_input(i, x).inputs@[j]
                == cur.inputs@[j],
        forall|j: int|
            0 <= j < MAX_INPUTS && j != i ==> #[trigger] cur.with_input(i, x).redeem(j)
                == cur.redeem(j),
        cur.with_input(i, x).inputs@[i] == x,
{
    let mid = cur.with_input(i, x);
    assert forall|j: int|
        #![trigger mid.inputs@[j]]
        0 <= j < MAX_INPUTS implies {
        let y = mid.inputs@[j];
        if y.redeem_in_pool {
            y.redeem_script_offset + y.redeem_script_len <= mid.redeem_pool_used
        } else {
            y.redeem_script_len <= MAX_SCRIPT_SIZE
        }
    } by {
        if j != i {
            assert(mid.inputs@[j] == cur.inputs@[j]);
        }
    }
    assert forall|j: int| 0 <= j < MAX_INPUTS && j != i implies #[trigger] mid.redeem(j)
        == cur.redeem(j) by {
        assert(mid.inputs@[j] == cur.inputs@[j]);
    }
}

proof fn lemma_signatures(data: Seq<u8>, at: int, x: TransactionInput, y: TransactionInput)
    requires
        x.sig_count <= 5,
        forall|k: int| 0 <= k < x.sig_count ==> (#[trigger] x.sigs@[k]).present,
        roundtrip::holds(
            data,
            at,
            seq![x.sig_count] + Seq::new(
                x.sig_count as nat,
                |s: int| layout::slot_block(x.sigs@[s]),
            ).flatten(),
        ),
        y.sig_len == 0,
    ensures
        ({
            let f = wire::signatures_field(data, at, y);
            &&& f.error is None
            &&& f.at == at + 1 + Seq::new(
                x.sig_count as nat,
                |s: int| layout::slot_block(x.sigs@[s]),
            ).flatten().len()
            &&& roundtrip::same_signatures(x, f.value)
            &&& f.value == TransactionInput {
                sig_count: f.value.sig_count,
                sigs: f.value.sigs,
                signature: f.value.signature,
                sig_len: f.value.sig_len,
                sighash_type: f.value.sighash_type,
                ..y
            }
        }),
{
    let n = x.sig_count as int;
    let slots = Seq::new(n as nat, |s: int| layout::slot_block(x.sigs@[s]));
    let count = seq![x.sig_count];
    lemma_cut(data, at, count, slots.flatten());
    assert(data[at] == data.subrange(at, at + 1)[0]);
    layout::lemma_slots(x, 0, n);
    assert(Seq::new((n - 0) as nat, |k: int| layout::slot_block(x.sigs@[0 + k])) =~= slots);
    let z = TransactionInput { sig_count: x.sig_count, ..y };
    roundtrip::lemma_sigs(data, at + 1, x, z, 0, n);
}

/// One input.
proof fn lemma_input(
    data: Seq<u8>,
    at: int,
    version: u8,
    flags: u8,
    tx: Transaction,
    cur: Transaction,
    i: int,
)
    requires
        version == 1 || version == 2 || version == 3,
        0 <= i < MAX_INPUTS,
        data.len() >= 6 && data[4] == version && data[5] == flags,
        fits(version, flags, tx, i),
        roundtrip::holds(data, at, carried_block(version, flags, tx, i)),
        transaction::pool_wf(cur),
        fresh(cur, i),
        cur.redeem_pool_used + pool_share(version, flags, tx, i) <= REDEEM_POOL_SIZE,
    ensures
        ({
            let f = wire::input_field(data, has_signatures(version), at, cur, i);
            &&& f.error is None
            &&& f.at == at + carried_block(version, flags, tx, i).len()
            &&& input_read(version, flags, tx, f.value, i)
            &&& forall|j: int|
                0 <= j < MAX_INPUTS && j != i ==> #[trigger] f.value.redeem(j) == cur.redeem(j)
            &&& forall|j: int|
                0 <= j < MAX_INPUTS && j != i ==> #[trigger] f.value.inputs@[j] == cur.inputs@[j]
            &&& transaction::pool_wf(f.value)
            &&& f.value.redeem_pool_used == cur.redeem_pool_used + pool_share(
                version,
                flags,
                tx,
                i,
            )
            &&& inputs_only(cur, f.value)
        }),
{
    let x = tx.inputs@[i];
    let signed = has_signatures(version);
    let slots = Seq::new(x.sig_count as nat, |s: int| layout::slot_block(x.sigs@[s])).flatten();
    let signatures = if signed {
        seq![x.sig_count] + slots
    } else {
        Seq::empty()
    };
    let width: nat = if version == 3 {
        2
    } else {
        1
    };
    let core = layout::core_block(x);
    let redeem = if has_redeems(version, flags) {
        bytes::le_bytes(x.redeem_script_len as nat, width) + layout::redeem_block(tx, i)
    } else {
        Seq::empty()
    };
    assert(carried_block(version, flags, tx, i) == core + signatures + redeem);
    lemma_cut(data, at, core + signatures, redeem);
    lemma_cut(data, at, core, signatures);
    layout::lemma_core_block(x);
    roundtrip::lemma_input_core(data, at, x, cur.inputs@[i], signed);
    let c = wire::input_core(data, at, cur.inputs@[i], signed);
    assert(c.at == at + core.len());
    if signed {
        lemma_signatures(data, c.at, x, c.value);
    }
    let s = wire::signatures_field(data, c.at, c.value);
    let y = if signed {
        s.value
    } else {
        TransactionInput { redeem_script_len: 0, ..c.value }
    };
    let end = c.at + signatures.len();
    lemma_with_input(cur, i, y);
    let mid = cur.with_input(i, y);
    let f = wire::input_field(data, signed, at, cur, i);
    if has_redeems(version, flags) {
        lemma_redeem(data, end, width, tx, mid, i);
        assert(f == wire::redeem_field(data, end, width as int, mid, i));
        bytes::lemma_le_bytes_len(x.redeem_script_len as nat, width);
        assert(layout::redeem_block(tx, i).len() == x.redeem_script_len);
        let z = f.value.inputs@[i];
        assert(z == TransactionInput {
            redeem_script: z.redeem_script,
            redeem_script_len: z.redeem_script_len,
            redeem_in_pool: z.redeem_in_pool,
            redeem_script_offset: z.redeem_script_offset,
            ..y
        });
    } else {
        assert(f == Filled { value: mid, at: end, error: None });
    }
    assert forall|j: int| 0 <= j < MAX_INPUTS && j != i implies #[trigger] f.value.inputs@[j]
        == cur.inputs@[j] by {
        assert(mid.inputs@[j] == cur.inputs@[j]);
    }
    assert forall|j: int| 0 <= j < MAX_INPUTS && j != i implies #[trigger] f.value.redeem(j)
        == cur.redeem(j) by {
        assert(mid.redeem(j) == cur.redeem(j));
    }
}

/// The inputs.
#[verifier::spinoff_prover]
#[verifier::rlimit(50)]
proof fn lemma_inputs(
    data: Seq<u8>,
    at: int,
    version: u8,
    flags: u8,
    tx: Transaction,
    cur: Transaction,
    i: int,
    n: int,
)
    requires
        version == 1 || version == 2 || version == 3,
        0 <= i <= n <= MAX_INPUTS,
        data.len() >= 6 && data[4] == version && data[5] == flags,
        forall|j: int| i <= j < n ==> #[trigger] fits(version, flags, tx, j),
        roundtrip::holds(
            data,
            at,
            Seq::new(
                (n - i) as nat,
                |k: int| carried_block(version, flags, tx, i + k),
            ).flatten(),
        ),
        transaction::pool_wf(cur),
        forall|j: int| i <= j < n ==> #[trigger] fresh(cur, j),
        has_redeems(version, flags) ==> cur.redeem_pool_used + roundtrip::pool_need(tx, i, n)
            <= REDEEM_POOL_SIZE,
    ensures
        ({
            let f = wire::inputs_field(data, has_signatures(version), at, cur, i, n);
            &&& f.error is None
            &&& f.at == at + Seq::new(
                (n - i) as nat,
                |k: int| carried_block(version, flags, tx, i + k),
            ).flatten().len()
            &&& forall|j: int| 0 <= j < i ==> #[trigger] f.value.inputs@[j] == cur.inputs@[j]
            &&& forall|j: int| 0 <= j < i ==> #[trigger] f.value.redeem(j) == cur.redeem(j)
            &&& forall|j: int|
                i <= j < n ==> #[trigger] input_read(version, flags, tx, f.value, j)
            &&& inputs_only(cur, f.value)
        }),
    decreases n - i,
{
    let blocks = Seq::new((n - i) as nat, |k: int| carried_block(version, flags, tx, i + k));
    let signed = has_signatures(version);
    if i < n {
        let here = carried_block(version, flags, tx, i);
        let rest = Seq::new(
            (n - i - 1) as nat,
            |k: int| carried_block(version, flags, tx, i + 1 + k),
        );
        assert(blocks =~= seq![here] + rest);
        roundtrip::lemma_field_size(here);
        vstd::seq_lib::lemma_flatten_concat(seq![here], rest);
        lemma_cut(data, at, here, rest.flatten());
        assert(fits(version, flags, tx, i) && fresh(cur, i));
        roundtrip::lemma_pool_need(tx, i + 1, n);
        lemma_input(data, at, version, flags, tx, cur, i);
        let f = wire::input_field(data, signed, at, cur, i);
        assert forall|j: int| i + 1 <= j < n implies #[trigger] fresh(f.value, j) by {
            assert(fresh(cur, j));
            assert(f.value.inputs@[j] == cur.inputs@[j]);
        }
        lemma_inputs(data, f.at, version, flags, tx, f.value, i + 1, n);
        let g = wire::inputs_field(data, signed, f.at, f.value, i + 1, n);
        assert(wire::inputs_field(data, signed, at, cur, i, n) == g);
        assert forall|j: int| 0 <= j < i implies #[trigger] g.value.inputs@[j]
            == cur.inputs@[j] by {
            assert(f.value.inputs@[j] == cur.inputs@[j]);
        }
        assert forall|j: int| 0 <= j < i implies #[trigger] g.value.redeem(j)
            == cur.redeem(j) by {
            assert(f.value.redeem(j) == cur.redeem(j));
        }
        assert(g.value.inputs@[i] == f.value.inputs@[i]);
        assert(input_read(version, flags, tx, g.value, i));
    } else {
        assert(blocks =~= Seq::empty());
    }
}

/// A transaction in the form with this version and these flags is read, and
/// nothing behind it is: the global fields, every input and every output in
/// use, the signatures, the redeem scripts and the covenant bindings, as far
/// as the form carries them.
#[verifier::spinoff_prover]
#[verifier::rlimit(50)]
pub proof fn law_packed_is_read(version: u8, flags: u8, tx: Transaction, behind: Seq<u8>)
    requires
        packable(version, flags, tx),
    ensures
        ({
            let f = wire::body(packed(version, flags, tx) + behind, has_signatures(version));
            &&& f.error is None
            &&& f.at == packed(version, flags, tx).len()
            &&& roundtrip::same_globals(tx, f.value)
            &&& forall|i: int|
                0 <= i < tx.num_inputs ==> #[trigger] input_read(version, flags, tx, f.value, i)
            &&& forall|i: int|
                #![trigger f.value.outputs@[i]]
                0 <= i < tx.num_outputs ==> {
                    &&& roundtrip::same_output(tx.outputs@[i], f.value.outputs@[i])
                    &&& has_bindings(version, flags) ==> roundtrip::same_covenant(
                        tx.outputs@[i],
                        f.value.outputs@[i],
                    )
                    &&& !has_bindings(version, flags) ==> !f.value.outputs@[i].has_covenant
                }
        }),
{
    let (n, m) = (tx.num_inputs as int, tx.num_outputs as int);
    let signed = has_signatures(version);
    let bindings = has_bindings(version, flags);
    let all = packed(version, flags, tx);
    let data = all + behind;
    let front = layout::head_block(version, flags, tx) + tx.payload@.take(tx.payload_len as int);
    let ins = Seq::new(n as nat, |i: int| carried_block(version, flags, tx, i));
    let outs = Seq::new(m as nat, |i: int| layout::output_block(tx.outputs@[i], bindings));
    assert(data.subrange(0, all.len() as int) =~= all);
    lemma_cut(data, 0, front + ins.flatten(), outs.flatten());
    lemma_cut(data, 0, front, ins.flatten());
    lemma_head(data, version, flags, tx);
    let g = wire::globals(data, signed);
    roundtrip::lemma_blank_inputs();
    roundtrip::lemma_blank_outputs();
    assert(Seq::new((n - 0) as nat, |k: int| carried_block(version, flags, tx, 0 + k)) =~= ins);
    assert forall|j: int| 0 <= j < n implies #[trigger] fresh(g.value, j) by {
        assert(g.value.inputs@[j] == Transaction::blank().inputs@[j]);
    }
    assert(transaction::pool_wf(g.value)) by {
        assert forall|j: int|
            #![trigger g.value.inputs@[j]]
            0 <= j < MAX_INPUTS implies g.value.inputs@[j].redeem_script_len == 0
            && !g.value.inputs@[j].redeem_in_pool by {
            assert(g.value.inputs@[j] == Transaction::blank().inputs@[j]);
        }
    }
    lemma_inputs(data, g.at, version, flags, tx, g.value, 0, n);
    let f = wire::inputs_field(data, signed, g.at, g.value, 0, n);
    layout::lemma_outputs_blocks(tx, bindings, 0, m);
    assert(Seq::new(
        (m - 0) as nat,
        |k: int| layout::output_block(tx.outputs@[0 + k], bindings),
    ) =~= outs);
    roundtrip::lemma_outputs(data, f.at, tx, f.value, signed, bindings, 0, m);
    let h = wire::outputs_field(data, signed, f.at, f.value, 0, m);
    assert(wire::body(data, signed) == h);
    assert forall|i: int| 0 <= i < n implies #[trigger] input_read(
        version,
        flags,
        tx,
        h.value,
        i,
    ) by {
        assert(input_read(version, flags, tx, f.value, i));
        assert(h.value.inputs@[i] == f.value.inputs@[i]);
        assert(h.value.redeem(i) == f.value.redeem(i));
    }
}

/// What is refused for its first 48 bytes, and why: another magic than "KSPT",
/// a version other than 1, or with signatures other than 2 and 3, no input or
/// more than eight, no output or more than eight, a payload of more than 768
/// bytes, and too few bytes. The first of these that holds is the error.
pub proof fn law_refused_heads(data: Seq<u8>, signed: bool)
    ensures
        ({
            let error = wire::body(data, signed).error;
            let known = data.take(4) == seq![0x4Bu8, 0x53u8, 0x50u8, 0x54u8];
            let version = if signed {
                data[4] == 2 || data[4] == 3
            } else {
                data[4] == 1
            };
            let payload = layout::number2(data, 46);
            &&& data.len() < 4 ==> error == Some(PsktError::BufferTooShort)
            &&& data.len() >= 4 && !known ==> error == Some(PsktError::InvalidMagic)
            &&& known && data.len() == 4 ==> error == Some(PsktError::BufferTooShort)
            &&& known && data.len() >= 5 && !version ==> error == Some(
                PsktError::UnsupportedVersion,
            )
            &&& known && version && 5 <= data.len() < 10 ==> error == Some(
                PsktError::BufferTooShort,
            )
            &&& known && version && data.len() >= 10 ==> {
                &&& data[8] == 0 ==> error == Some(PsktError::NoInputs)
                &&& data[8] > 8 ==> error == Some(PsktError::TooManyInputs)
                &&& 1 <= data[8] <= 8 && data[9] == 0 ==> error == Some(PsktError::NoOutputs)
                &&& 1 <= data[8] <= 8 && data[9] > 8 ==> error == Some(PsktError::TooManyOutputs)
                &&& 1 <= data[8] <= 8 && 1 <= data[9] <= 8 ==> {
                    &&& data.len() < 48 ==> error == Some(PsktError::BufferTooShort)
                    &&& data.len() >= 48 && payload > 768 ==> error == Some(
                        PsktError::PayloadTooLong,
                    )
                    &&& data.len() >= 48 && payload <= 768 && data.len() < 48 + payload
                        ==> error == Some(PsktError::BufferTooShort)
                }
            }
        }),
{
    if data.len() >= 48 {
        bytes::lemma_le2(data.subrange(46, 48));
    }
    assert(wire::magic() =~= seq![0x4Bu8, 0x53u8, 0x50u8, 0x54u8]);
    assert(data.len() < 4 ==> wire::header_error(data, signed) is Some);
}

/// A script is refused as too long where its length is above 512, and as cut
/// off where its version, its length or its bytes are not all there. Else its
/// version, its length and its bytes are taken over.
pub proof fn law_scripts_are_read(data: Seq<u8>, at: int, spk: ScriptPublicKey, signed: bool)
    requires
        0 <= at <= data.len(),
    ensures
        ({
            let f = wire::script_field(data, at, spk, signed);
            let wide = at + 2 < data.len() && data[at + 2] == 0xFF;
            let start = if wide {
                at + 5
            } else {
                at + 3
            };
            let len = if wide {
                layout::number2(data, at + 3)
            } else {
                data[at + 2] as int
            };
            &&& start > data.len() ==> f.error == Some(PsktError::BufferTooShort)
            &&& start <= data.len() && len > 512 ==> f.error == Some(PsktError::ScriptTooLong)
            &&& start <= data.len() && len <= 512 && start + len > data.len() ==> f.error == Some(
                PsktError::BufferTooShort,
            )
            &&& start <= data.len() && len <= 512 && start + len <= data.len() ==> {
                &&& f.error is None
                &&& f.at == start + len
                &&& f.value.version == layout::number2(data, at)
                &&& f.value.script_len == len
                &&& f.value.script@.take(len) == data.subrange(start, start + len)
            }
        }),
{
    if at + 2 <= data.len() {
        bytes::lemma_le2(data.subrange(at, at + 2));
    }
    if at + 5 <= data.len() {
        bytes::lemma_le2(data.subrange(at + 3, at + 5));
    }
    let f = wire::script_field(data, at, spk, signed);
    if f.error is None {
        let len = f.value.script_len as int;
        let piece = data.subrange(f.at - len, f.at);
        bytes::lemma_array_with(spk.script, piece);
        assert(f.value.script@.take(len) =~= piece);
    }
}

/// A redeem script is refused as too long above 1024 bytes, or where the pool
/// has no room for it, and as cut off where its length or its bytes are not
/// all there.
pub proof fn law_redeems_are_refused(data: Seq<u8>, at: int, wide: bool, tx: Transaction, i: int)
    requires
        0 <= at <= data.len(),
        0 <= i < 8,
    ensures
        ({
            let start = if wide {
                at + 2
            } else {
                at + 1
            };
            let f = wire::redeem_field(data, at, start - at, tx, i);
            let len = if wide {
                layout::number2(data, at)
            } else {
                data[at] as int
            };
            &&& start > data.len() ==> f.error == Some(PsktError::BufferTooShort)
            &&& start <= data.len() && len > 1024 ==> f.error == Some(PsktError::ScriptTooLong)
            &&& start <= data.len() && len <= 1024 && start + len > data.len() ==> f.error == Some(
                PsktError::BufferTooShort,
            )
            &&& start <= data.len() && len <= 1024 && start + len <= data.len() ==> {
                f.error == if len > 512 && tx.redeem_pool_used + len > 2048 {
                    Some(PsktError::ScriptTooLong)
                } else {
                    None
                }
            }
        }),
{
    if at + 2 <= data.len() {
        bytes::lemma_le2(data.subrange(at, at + 2));
    }
    if at + 1 <= data.len() {
        let one = data.subrange(at, at + 1);
        assert(one.skip(1) =~= Seq::<u8>::empty());
        assert(bytes::le_nat(one.skip(1)) == 0);
        assert(bytes::le_nat(one) == data[at]);
    }
}

/// More than five signatures for one input are refused.
pub proof fn law_sixth_signature_is_refused(data: Seq<u8>, at: int, x: TransactionInput)
    requires
        0 <= at < data.len(),
        data[at] > 5,
        data.len() >= at + 1 + 5 * 66,
    ensures
        wire::signatures_field(data, at, x).error == Some(PsktError::TooManyInputs),
{
    reveal_with_fuel(wire::sigs_field, 7);
}

/// Signatures that are cut off are refused.
pub proof fn law_cut_signatures_are_refused(data: Seq<u8>, at: int, x: TransactionInput)
    requires
        0 <= at < data.len(),
        data[at] <= 5,
        data.len() < at + 1 + 66 * data[at],
    ensures
        wire::signatures_field(data, at, x).error == Some(PsktError::BufferTooShort),
{
    reveal_with_fuel(wire::sigs_field, 7);
}

} // verus!
