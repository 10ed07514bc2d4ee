//! What an input asks for, and how far a transaction is signed.
use crate::wallet::script;
use crate::wallet::script::{
    detect_script_type, parse_multisig_script, MultisigInfo, ScriptType,
};
use crate::wallet::transaction::{Transaction, MAX_INPUTS};
use vstd::prelude::*;

verus! {

/// The script of input `i`, and the redeem script where it is needed, can be
/// read.
pub open spec fn analyzable(tx: Transaction, i: int) -> bool {
    let spk = tx.inputs@[i].utxo_entry.script_public_key;
    &&& 0 <= i < MAX_INPUTS
    &&& spk.wf()
    &&& script::is_p2sh(spk.script@, spk.script_len as int) ==> tx.redeem_wf(i)
}

/// All inputs in use are analyzable.
pub open spec fn all_analyzable(tx: Transaction) -> bool {
    &&& tx.num_inputs <= MAX_INPUTS
    &&& forall|i: int| 0 <= i < tx.num_inputs ==> #[trigger] analyzable(tx, i)
}

/// The kind of script that input `i` spends, and the multisig parameters: of
/// the script itself, or of the redeem script behind a script hash.
pub open spec fn analysis(tx: Transaction, i: int) -> (ScriptType, Option<MultisigInfo>) {
    let spk = tx.inputs@[i].utxo_entry.script_public_key;
    let st = script::script_type(spk.script@, spk.script_len as int);
    if st == ScriptType::P2SH && tx.inputs@[i].redeem_script_len > 0 {
        (ScriptType::P2SH, script::multisig_info(tx.redeem(i), tx.redeem(i).len() as int))
    } else {
        (st, script::multisig_info(spk.script@, spk.script_len as int))
    }
}

/// Tells what kind of script an input spends. For a script hash whose redeem
/// script is known, the multisig parameters are those of the redeem script.
pub fn analyze_input_script(tx: &Transaction, input_idx: usize) -> (r: (
    ScriptType,
    Option<MultisigInfo>,
))
    requires
        analyzable(*tx, input_idx as int),
    ensures
        r == analysis(*tx, input_idx as int),
{
    let spk = &tx.inputs[input_idx].utxo_entry.script_public_key;
    let st = detect_script_type(spk.script.as_slice(), spk.script_len);
    if st == ScriptType::P2SH && tx.inputs[input_idx].redeem_script_len > 0 {
        let rs = tx.redeem_bytes(input_idx);
        let rs_len = rs.len();
        let rs_type = detect_script_type(rs, rs_len);
        let ms = if rs_type == ScriptType::Multisig {
            parse_multisig_script(rs, rs_len)
        } else {
            None
        };
        return (ScriptType::P2SH, ms);
    }
    let ms = if st == ScriptType::Multisig {
        parse_multisig_script(spk.script.as_slice(), spk.script_len)
    } else {
        None
    };
    (st, ms)
}

/// How many signatures input `i` needs: one per required key of a multisig
/// script, one for any other.
pub open spec fn required_sigs(tx: Transaction, i: int) -> nat {
    match analysis(tx, i).1 {
        Some(ms) => ms.m as nat,
        None => 1,
    }
}

/// How many of those it has. An unknown script counts none.
pub open spec fn present_sigs(tx: Transaction, i: int) -> nat {
    let input = tx.inputs@[i];
    match analysis(tx, i) {
        (ScriptType::P2PK, _) => if input.sig_len > 0 {
            1
        } else {
            0
        },
        (ScriptType::Unknown, _) => 0,
        (_, Some(ms)) => if input.sig_count < ms.m {
            input.sig_count as nat
        } else {
            ms.m as nat
        },
        (_, None) => if input.sig_count > 0 {
            1
        } else {
            0
        },
    }
}

/// Input `i` has all the signatures it needs. An unknown script never has.
pub open spec fn input_signed(tx: Transaction, i: int) -> bool {
    let input = tx.inputs@[i];
    match analysis(tx, i) {
        (ScriptType::P2PK, _) => input.sig_len > 0,
        (ScriptType::Unknown, _) => false,
        (_, Some(ms)) => input.sig_count >= ms.m,
        (_, None) => input.sig_count > 0,
    }
}

/// Every input has all the signatures it needs.
pub open spec fn fully_signed(tx: Transaction) -> bool {
    forall|i: int| 0 <= i < tx.num_inputs ==> #[trigger] input_signed(tx, i)
}

/// Signatures needed by the first `n` inputs.
pub open spec fn required_total(tx: Transaction, n: nat) -> nat
    decreases n,
{
    if n == 0 {
        0
    } else {
        required_total(tx, (n - 1) as nat) + required_sigs(tx, n - 1)
    }
}

/// Signatures that the first `n` inputs have.
pub open spec fn present_total(tx: Transaction, n: nat) -> nat
    decreases n,
{
    if n == 0 {
        0
    } else {
        present_total(tx, (n - 1) as nat) + present_sigs(tx, n - 1)
    }
}

/// A script is of one kind only, and only multisig scripts have parameters.
proof fn lemma_analysis(tx: Transaction, i: int)
    ensures
        analysis(tx, i).1 matches Some(ms) ==> 1 <= ms.m <= 5,
        analysis(tx, i).0 is P2PK || analysis(tx, i).0 is Unknown ==> analysis(tx, i).1 is None,
        present_sigs(tx, i) <= required_sigs(tx, i) <= 5,
{
}

/// Checks whether every input has enough signatures.
pub fn is_fully_signed(tx: &Transaction) -> (r: bool)
    requires
        all_analyzable(*tx),
    ensures
        r == fully_signed(*tx),
{
    let mut i: usize = 0;
    while i < tx.num_inputs
        invariant
            i <= tx.num_inputs,
            all_analyzable(*tx),
            forall|j: int| 0 <= j < i ==> #[trigger] input_signed(*tx, j),
        decreases tx.num_inputs - i,
    {
        assert(analyzable(*tx, i as int));
        let (script_type, ms_info) = analyze_input_script(tx, i);
        match script_type {
            ScriptType::P2PK => {
                if tx.inputs[i].sig_len == 0 {
                    assert(!input_signed(*tx, i as int));
                    return false;
                }
            },
            ScriptType::Multisig | ScriptType::P2SH => {
                if let Some(ms) = ms_info {
                    if tx.inputs[i].sig_count < ms.m {
                        assert(!input_signed(*tx, i as int));
                        return false;
                    }
                } else {
                    // Every covenant spend path is satisfied by one signature.
                    if tx.inputs[i].sig_count == 0 {
                        assert(!input_signed(*tx, i as int));
                        return false;
                    }
                }
            },
            ScriptType::Unknown => {
                assert(!input_signed(*tx, i as int));
                return false;
            },
        }
        i += 1;
    }
    true
}

/// Counts signatures: those that are there, and those that are needed.
pub fn signature_status(tx: &Transaction) -> (r: (u8, u8))
    requires
        all_analyzable(*tx),
    ensures
        r.0 == present_total(*tx, tx.num_inputs as nat),
        r.1 == required_total(*tx, tx.num_inputs as nat),
{
    let mut present: u8 = 0;
    let mut required: u8 = 0;
    let mut i: usize = 0;
    while i < tx.num_inputs
        invariant
            i <= tx.num_inputs,
            all_analyzable(*tx),
            present == present_total(*tx, i as nat),
            required == required_total(*tx, i as nat),
            present <= 5 * i,
            required <= 5 * i,
        decreases tx.num_inputs - i,
    {
        assert(analyzable(*tx, i as int));
        let (script_type, ms_info) = analyze_input_script(tx, i);
        proof {
            lemma_analysis(*tx, i as int);
        }
        match script_type {
            ScriptType::P2PK => {
                required = required + 1;
                if tx.inputs[i].sig_len > 0 {
                    present = present + 1;
                }
            },
            ScriptType::Multisig | ScriptType::P2SH => {
                if let Some(ms) = ms_info {
                    required = required + ms.m;
                    let have = tx.inputs[i].sig_count;
                    present = present + if have < ms.m {
                        have
                    } else {
                        ms.m
                    };
                } else {
                    required = required + 1;
                    if tx.inputs[i].sig_count > 0 {
                        present = present + 1;
                    }
                }
            },
            ScriptType::Unknown => {
                required = required + 1;
            },
        }
        i += 1;
    }
    (present, required)
}

/// A transaction is fully signed exactly when as many signatures are present
/// as are required.
pub proof fn law_fully_signed_iff_status_complete(tx: Transaction)
    ensures
        fully_signed(tx) <==> present_total(tx, tx.num_inputs as nat) == required_total(
            tx,
            tx.num_inputs as nat,
        ),
        present_total(tx, tx.num_inputs as nat) <= required_total(tx, tx.num_inputs as nat),
{
    lemma_totals(tx, tx.num_inputs as nat);
}

proof fn lemma_totals(tx: Transaction, n: nat)
    ensures
        present_total(tx, n) <= required_total(tx, n),
        (forall|i: int| 0 <= i < n ==> #[trigger] input_signed(tx, i)) <==> present_total(tx, n)
            == required_total(tx, n),
    decreases n,
{
    if n > 0 {
        lemma_totals(tx, (n - 1) as nat);
        lemma_analysis(tx, n - 1);
        assert(input_signed(tx, n - 1) <==> present_sigs(tx, n - 1) == required_sigs(tx, n - 1));
    }
}

/// The script that decides how an input is spent: the redeem script behind a
/// script hash, where it is known, and the script itself otherwise.
pub proof fn law_redeem_script_decides(tx: Transaction, i: int)
    requires
        analyzable(tx, i),
    ensures
        ({
            let x = tx.inputs@[i];
            let s = x.utxo_entry.script_public_key.script@;
            let len = x.utxo_entry.script_public_key.script_len as int;
            &&& analysis(tx, i).0 == script::script_type(s, len)
            &&& analysis(tx, i).1 == if len == 35 && s[0] == 0xAA && s[1] == 0x20 && s[34] == 0x87
                && x.redeem_script_len > 0 {
                script::multisig_info(tx.redeem(i), tx.redeem(i).len() as int)
            } else {
                script::multisig_info(s, len)
            }
        }),
{
}

/// A multisig input, direct or behind a script hash, whose script starts with
/// OP_m asks for `m` signatures: it adds `m` to those required and what it
/// has, up to `m`, to those present, and the transaction is fully signed only
/// with that many.
pub proof fn law_multisig_input_needs_its_threshold(
    tx: Transaction,
    i: int,
    code: Seq<u8>,
    m: int,
    n: int,
)
    requires
        0 <= i < tx.num_inputs,
        analyzable(tx, i),
        ({
            let x = tx.inputs@[i];
            let s = x.utxo_entry.script_public_key.script@;
            let len = x.utxo_entry.script_public_key.script_len as int;
            ||| code == s.take(len)
            ||| len == 35 && s[0] == 0xAA && s[1] == 0x20 && s[34] == 0x87 && x.redeem_script_len
                > 0 && code == tx.redeem(i)
        }),
        1 <= m <= n <= 5,
        code.len() == 3 + 33 * n,
        code[0] == 0x50 + m,
        code[code.len() - 2] == 0x50 + n,
        code[code.len() - 1] == 0xAE,
        forall|k: int| 0 <= k < n ==> #[trigger] code[1 + k * 33] == 0x20,
    ensures
        required_total(tx, (i + 1) as nat) == required_total(tx, i as nat) + m,
        present_total(tx, (i + 1) as nat) == present_total(tx, i as nat) + if tx.inputs@[i].sig_count
            < m {
            tx.inputs@[i].sig_count as int
        } else {
            m
        },
        fully_signed(tx) ==> tx.inputs@[i].sig_count >= m,
        tx.num_inputs == 1 && i == 0 ==> {
            &&& required_total(tx, 1) == m
            &&& fully_signed(tx) <==> tx.inputs@[i].sig_count >= m
        },
{
    let x = tx.inputs@[i];
    let s = x.utxo_entry.script_public_key.script@;
    let len = x.utxo_entry.script_public_key.script_len as int;
    script::law_multisig_script(code, code.len() as int, m, n);
    if code == s.take(len) {
        assert(s[0] == code[0]);
        assert(s[len - 2] == code[len - 2]);
        assert(s[len - 1] == code[len - 1]);
        assert forall|k: int| 0 <= k < n implies #[trigger] s[1 + k * 33] == 0x20 by {
            assert(code[1 + k * 33] == 0x20);
        }
        script::law_multisig_script(s, len, m, n);
    }
    law_redeem_script_decides(tx, i);
    assert(input_signed(tx, i) <==> x.sig_count >= m);
    if tx.num_inputs == 1 && i == 0 {
        reveal_with_fuel(required_total, 2);
    }
}

/// An input that pays to a single key asks for one signature.
pub proof fn law_single_key_input_needs_one(tx: Transaction, i: int)
    requires
        0 <= i < tx.num_inputs,
        analyzable(tx, i),
        tx.inputs@[i].utxo_entry.script_public_key.script_len == 34,
        tx.inputs@[i].utxo_entry.script_public_key.script@[0] == 0x20,
        tx.inputs@[i].utxo_entry.script_public_key.script@[33] == 0xAC,
    ensures
        required_total(tx, (i + 1) as nat) == required_total(tx, i as nat) + 1,
        present_total(tx, (i + 1) as nat) == present_total(tx, i as nat) + if tx.inputs@[i].sig_len
            > 0 {
            1int
        } else {
            0
        },
        fully_signed(tx) ==> tx.inputs@[i].sig_len > 0,
{
    assert(input_signed(tx, i) <==> tx.inputs@[i].sig_len > 0);
}

/// An input behind a script hash whose redeem script is not known, or not
/// multisig, asks for one signature.
pub proof fn law_covenant_input_needs_one(tx: Transaction, i: int)
    requires
        0 <= i < tx.num_inputs,
        analyzable(tx, i),
        tx.inputs@[i].utxo_entry.script_public_key.script_len == 35,
        tx.inputs@[i].utxo_entry.script_public_key.script@[0] == 0xAA,
        tx.inputs@[i].utxo_entry.script_public_key.script@[1] == 0x20,
        tx.inputs@[i].utxo_entry.script_public_key.script@[34] == 0x87,
        tx.inputs@[i].redeem_script_len == 0 || !(script::script_type(
            tx.redeem(i),
            tx.redeem(i).len() as int,
        ) is Multisig),
    ensures
        required_total(tx, (i + 1) as nat) == required_total(tx, i as nat) + 1,
        present_total(tx, (i + 1) as nat) == present_total(tx, i as nat) + if tx.inputs@[i].sig_count
            > 0 {
            1int
        } else {
            0
        },
        fully_signed(tx) ==> tx.inputs@[i].sig_count > 0,
{
    assert(analysis(tx, i).1 is None);
    assert(input_signed(tx, i) <==> tx.inputs@[i].sig_count > 0);
}

/// An input with a script of no known kind asks for a signature that it never
/// has.
pub proof fn law_unknown_input_is_never_signed(tx: Transaction, i: int)
    requires
        0 <= i < tx.num_inputs,
        analyzable(tx, i),
        script::script_type(
            tx.inputs@[i].utxo_entry.script_public_key.script@,
            tx.inputs@[i].utxo_entry.script_public_key.script_len as int,
        ) is Unknown,
    ensures
        required_total(tx, (i + 1) as nat) == required_total(tx, i as nat) + 1,
        present_total(tx, (i + 1) as nat) == present_total(tx, i as nat),
        !fully_signed(tx),
{
    assert(!input_signed(tx, i));
}

/// Nothing is asked of no inputs.
pub proof fn law_nothing_is_required_of_no_inputs(tx: Transaction)
    ensures
        required_total(tx, 0) == 0,
        present_total(tx, 0) == 0,
        tx.num_inputs == 0 ==> fully_signed(tx),
{
}

} // verus!
