//! Signing with one key, or with the keys of one account.
//!
//! Signatures come from functions that are handed in. A signature may differ
//! from call to call, so a contract here relates the transaction before and
//! after to the outcomes of those calls, in the order in which they are made.
use crate::bytes;
use crate::crypto;
use crate::wallet::keys;
use crate::wallet::keys::{ExtendedPrivKey, KeySource};
use crate::wallet::pskt::PsktError;
use crate::wallet::response::{InputSignature, SignedResponse, MAX_SIGNATURES};
use crate::wallet::script;
use crate::wallet::transaction::{
    InputSig, SigHashType, Transaction, TransactionInput, MAX_INPUTS,
};
use vstd::prelude::*;

verus! {

/// A slot that holds a signature. Without a public key the old one stays.
pub open spec fn filled(
    slot: InputSig,
    signature: [u8; 64],
    sighash_type: SigHashType,
    pos: u8,
    key: Option<[u8; 33]>,
) -> InputSig {
    InputSig {
        signature,
        sighash_type: sighash_type.byte(),
        pubkey_pos: pos,
        present: true,
        pubkey_compressed: match key {
            Some(k) => k,
            None => slot.pubkey_compressed,
        },
    }
}

/// An input with a signature in the fields for single-signature readers.
pub open spec fn legacy_signed(
    input: TransactionInput,
    signature: [u8; 64],
    sighash_type: SigHashType,
) -> TransactionInput {
    TransactionInput { signature, sig_len: 64, sighash_type: sighash_type.byte(), ..input }
}

/// An input with one signature, in the first slot and in the fields for
/// single-signature readers.
pub open spec fn single_signed(
    input: TransactionInput,
    signature: [u8; 64],
    sighash_type: SigHashType,
    pos: u8,
    key: Option<[u8; 33]>,
) -> TransactionInput {
    TransactionInput {
        sigs: vstd::array::spec_array_update(
            input.sigs,
            0,
            filled(input.sigs@[0], signature, sighash_type, pos, key),
        ),
        sig_count: 1,
        ..legacy_signed(input, signature, sighash_type)
    }
}

/// `after` is `before` but for its signatures.
pub open spec fn resigned(before: TransactionInput, after: TransactionInput) -> bool {
    after == TransactionInput {
        sigs: after.sigs,
        sig_count: after.sig_count,
        signature: after.signature,
        sig_len: after.sig_len,
        sighash_type: after.sighash_type,
        ..before
    }
}

/// `after` is `before` but for the signatures of its inputs.
pub open spec fn only_signatures(before: Transaction, after: Transaction) -> bool {
    &&& after == Transaction { inputs: after.inputs, ..before }
    &&& forall|i: int|
        #![trigger after.inputs@[i]]
        0 <= i < MAX_INPUTS ==> resigned(before.inputs@[i], after.inputs@[i])
}

/// Puts a signature into a slot.
pub(crate) fn fill(
    slot: &mut InputSig,
    signature: &[u8; 64],
    sighash_type: SigHashType,
    pos: u8,
    key: Option<[u8; 33]>,
)
    ensures
        *final(slot) == filled(*old(slot), *signature, sighash_type, pos, key),
{
    slot.signature = *signature;
    slot.sighash_type = sighash_type.to_byte();
    slot.pubkey_pos = pos;
    slot.present = true;
    if let Some(k) = key {
        slot.pubkey_compressed = k;
    }
}

/// Gives an input its one signature.
pub(crate) fn sign_single(
    input: &mut TransactionInput,
    signature: &[u8; 64],
    sighash_type: SigHashType,
    pos: u8,
    key: Option<[u8; 33]>,
)
    ensures
        *final(input) == single_signed(*old(input), *signature, sighash_type, pos, key),
{
    input.signature = *signature;
    input.sig_len = 64;
    input.sighash_type = sighash_type.to_byte();
    fill(&mut input.sigs[0], signature, sighash_type, pos, key);
    input.sig_count = 1;
}

/// Signs every input with one key. The signatures go into a response; the
/// transaction stays as it is.
pub fn sign_transaction<S>(
    tx: &Transaction,
    private_key: &[u8; 32],
    sighash_type: SigHashType,
    sign_input: &S,
) -> (r: Result<SignedResponse, PsktError>) where
    S: Fn(&Transaction, usize, &[u8; 32], SigHashType) -> Result<[u8; 64], ()>,

    requires
        tx.num_inputs <= MAX_INPUTS,
        forall|i: usize|
            i < tx.num_inputs ==> #[trigger] call_requires(
                *sign_input,
                (tx, i, private_key, sighash_type),
            ),
    ensures
        match r {
            Ok(response) => {
                &&& response.num_signatures == tx.num_inputs
                &&& forall|i: usize|
                    #![trigger response.signatures@[i as int]]
                    i < tx.num_inputs ==> {
                        let record = response.signatures@[i as int];
                        &&& record.input_index == i
                        &&& record.sighash_type == sighash_type
                        &&& call_ensures(
                            *sign_input,
                            (tx, i, private_key, sighash_type),
                            Ok(record.signature),
                        )
                    }
                &&& forall|i: int|
                    tx.num_inputs <= i < MAX_SIGNATURES ==> #[trigger] response.signatures@[i]
                        == InputSignature::blank()
            },
            Err(e) => {
                &&& e == PsktError::NoInputs
                &&& exists|i: usize|
                    i < tx.num_inputs && #[trigger] call_ensures(
                        *sign_input,
                        (tx, i, private_key, sighash_type),
                        Err(()),
                    )
            },
        },
{
    let mut response = SignedResponse::new();
    let mut i: usize = 0;
    while i < tx.num_inputs
        invariant
            i <= tx.num_inputs <= MAX_INPUTS,
            forall|i: usize|
                i < tx.num_inputs ==> #[trigger] call_requires(
                    *sign_input,
                    (tx, i, private_key, sighash_type),
                ),
            response.num_signatures == i,
            forall|j: usize|
                #![trigger response.signatures@[j as int]]
                j < i ==> {
                    let record = response.signatures@[j as int];
                    &&& record.input_index == j
                    &&& record.sighash_type == sighash_type
                    &&& call_ensures(
                        *sign_input,
                        (tx, j, private_key, sighash_type),
                        Ok(record.signature),
                    )
                },
            forall|j: int|
                i <= j < MAX_SIGNATURES ==> #[trigger] response.signatures@[j]
                    == InputSignature::blank(),
        decreases tx.num_inputs - i,
    {
        match sign_input(tx, i, private_key, sighash_type) {
            Ok(signature) => {
                response.add_signature(i as u8, sighash_type, &signature)?;
            },
            Err(e) => {
                assert(e == ());
                return Err(PsktError::NoInputs);
            },
        }
        i += 1;
    }
    Ok(response)
}

/// Signing the inputs from `i` on in place can lead from `tx` to `after` and
/// `r`.
pub open spec fn signs_in_place<S>(
    sign_input: S,
    private_key: [u8; 32],
    sighash_type: SigHashType,
    tx: Transaction,
    i: int,
    after: Transaction,
    r: Result<usize, PsktError>,
) -> bool where S: Fn(&Transaction, usize, &[u8; 32], SigHashType) -> Result<[u8; 64], ()>
    decreases tx.num_inputs - i,
{
    if i >= tx.num_inputs {
        after == tx && r == Ok::<usize, PsktError>(tx.num_inputs)
    } else {
        exists|g: Result<[u8; 64], ()>|
            #![trigger call_ensures(sign_input, (&tx, i as usize, &private_key, sighash_type), g)]
            {
                &&& call_ensures(sign_input, (&tx, i as usize, &private_key, sighash_type), g)
                &&& match g {
                    Ok(signature) => {
                        let next = tx.with_input(
                            i,
                            legacy_signed(tx.inputs@[i], signature, sighash_type),
                        );
                        signs_in_place(
                            sign_input,
                            private_key,
                            sighash_type,
                            next,
                            i + 1,
                            after,
                            r,
                        )
                    },
                    Err(_) => after == tx && r == Err::<usize, PsktError>(PsktError::NoInputs),
                }
            }
    }
}

/// Signs every input with one key and stores the signatures in the
/// transaction. Returns the number of inputs.
pub fn sign_transaction_in_place<S>(
    tx: &mut Transaction,
    private_key: &[u8; 32],
    sighash_type: SigHashType,
    sign_input: &S,
) -> (r: Result<usize, PsktError>) where
    S: Fn(&Transaction, usize, &[u8; 32], SigHashType) -> Result<[u8; 64], ()>,

    requires
        old(tx).num_inputs <= MAX_INPUTS,
        forall|t: &Transaction, i: usize|
            i < old(tx).num_inputs ==> #[trigger] call_requires(
                *sign_input,
                (t, i, private_key, sighash_type),
            ),
    ensures
        signs_in_place(*sign_input, *private_key, sighash_type, *old(tx), 0, *final(tx), r),
        only_signatures(*old(tx), *final(tx)),
{
    let mut i: usize = 0;
    while i < tx.num_inputs
        invariant
            i <= tx.num_inputs <= MAX_INPUTS,
            tx.num_inputs == old(tx).num_inputs,
            forall|t: &Transaction, i: usize|
                i < old(tx).num_inputs ==> #[trigger] call_requires(
                    *sign_input,
                    (t, i, private_key, sighash_type),
                ),
            forall|after: Transaction, r: Result<usize, PsktError>|
                signs_in_place(*sign_input, *private_key, sighash_type, *tx, i as int, after, r)
                    ==> #[trigger] signs_in_place(
                    *sign_input,
                    *private_key,
                    sighash_type,
                    *old(tx),
                    0,
                    after,
                    r,
                ),
        decreases tx.num_inputs - i,
    {
        let ghost before = *tx;
        match sign_input(tx, i, private_key, sighash_type) {
            Ok(signature) => {
                tx.inputs[i].signature = signature;
                tx.inputs[i].sig_len = 64;
                tx.inputs[i].sighash_type = sighash_type.to_byte();
                assert(*tx =~= before.with_input(
                    i as int,
                    legacy_signed(before.inputs@[i as int], signature, sighash_type),
                )) by {
                    broadcast use bytes::lemma_update_twice;

                }
            },
            Err(_) => {
                let r = Err(PsktError::NoInputs);
                proof {
                    law_in_place_signs_every_input(
                        *sign_input,
                        *private_key,
                        sighash_type,
                        *old(tx),
                        *tx,
                        r,
                    );
                }
                return r;
            },
        }
        i += 1;
    }
    let r = Ok(tx.num_inputs);
    proof {
        law_in_place_signs_every_input(
            *sign_input,
            *private_key,
            sighash_type,
            *old(tx),
            *tx,
            r,
        );
    }
    r
}

/// What became of one input.
#[derive(Debug, Clone, Copy, PartialEq, Eq, Structural)]
pub enum InputOutcome {
    /// The input is not ours, or its key cannot be derived.
    Skipped,
    Signed,
    /// The whole transaction fails.
    Failed,
}

/// The number of the account key that has a public key with an even y
/// coordinate: the account key itself, or its negation.
pub open spec fn even_base(account: Seq<u8>) -> nat {
    let n = crypto::group_order();
    if crypto::generator_multiple(account)[0] == 3 {
        (n - bytes::be_nat(account)) as nat % n
    } else {
        bytes::be_nat(account)
    }
}

/// The number of the key that spends a stealth output.
pub open spec fn stealth_scalar(account: Seq<u8>, tweak: Seq<u8>) -> nat {
    (even_base(account) + bytes::be_nat(tweak)) % crypto::group_order()
}

impl<A, F, T, D, C, S> KeySource<A, F, T, D, C, S> where
    A: Fn(&[u8; 64]) -> Result<ExtendedPrivKey, ()>,
    F: Fn(&ExtendedPrivKey, &[u8; 32]) -> Option<(u32, bool)>,
    T: Fn(&ExtendedPrivKey, &[u8; 32]) -> Option<(u32, bool)>,
    D: Fn(&ExtendedPrivKey, u32) -> Result<ExtendedPrivKey, ()>,
    C: Fn(&ExtendedPrivKey, u32) -> Result<ExtendedPrivKey, ()>,
    S: Fn(&Transaction, usize, &[u8; 32], SigHashType) -> Result<[u8; 64], ()>,
 {
    /// Signing input `i` with one key, whose public key is `key`, can lead
    /// from `tx` to `after`: it is signed, or the transaction fails.
    pub open spec fn signs_one(
        &self,
        tx: Transaction,
        i: int,
        private_key: [u8; 32],
        key: Option<[u8; 33]>,
        sighash_type: SigHashType,
        after: Transaction,
        outcome: InputOutcome,
    ) -> bool {
        exists|g: Result<[u8; 64], ()>|
            #![trigger call_ensures(self.sign_input, (&tx, i as usize, &private_key, sighash_type), g)]
            {
                &&& call_ensures(self.sign_input, (&tx, i as usize, &private_key, sighash_type), g)
                &&& match g {
                    Ok(signature) => {
                        &&& outcome == InputOutcome::Signed
                        &&& after == tx.with_input(
                            i,
                            single_signed(tx.inputs@[i], signature, sighash_type, 0, key),
                        )
                    },
                    Err(_) => outcome == InputOutcome::Failed && after == tx,
                }
            }
    }

    /// Trying input `i` as a stealth output of the account can lead from `tx`
    /// to `after`. It is ours when the account key and the tweak together
    /// make the key that the output pays to.
    pub open spec fn signs_stealth(
        &self,
        account: ExtendedPrivKey,
        target: [u8; 32],
        tx: Transaction,
        i: int,
        sighash_type: SigHashType,
        after: Transaction,
        outcome: InputOutcome,
    ) -> bool {
        let base = account.private_key@;
        let tweak = tx.stealth_tweak@;
        if bytes::be_nat(base) >= crypto::group_order() || bytes::be_nat(tweak)
            >= crypto::group_order() {
            outcome == InputOutcome::Failed && after == tx
        } else if stealth_scalar(base, tweak) == 0 {
            outcome == InputOutcome::Skipped && after == tx
        } else {
            exists|k: [u8; 32]|
                #![trigger bytes::be_nat(k@)]
                {
                    let public: [u8; 33] = bytes::array_of(crypto::generator_multiple(k@));
                    &&& bytes::be_nat(k@) == stealth_scalar(base, tweak)
                    &&& if keys::x_only(public) == target {
                        self.signs_one(tx, i, k, Some(public), sighash_type, after, outcome)
                    } else {
                        outcome == InputOutcome::Skipped && after == tx
                    }
                }
        }
    }

    /// Signing input `i` with the keys of an account can lead from `tx` to
    /// `after`.
    pub open spec fn signs_input(
        &self,
        account: ExtendedPrivKey,
        tx: Transaction,
        i: int,
        sighash_type: SigHashType,
        after: Transaction,
        outcome: InputOutcome,
    ) -> bool {
        let spk = tx.inputs@[i].utxo_entry.script_public_key;
        let target: [u8; 32] = bytes::array_of(spk.script@.subrange(1, 33));
        if !script::is_p2pk(spk.script@, spk.script_len as int) {
            outcome == InputOutcome::Skipped && after == tx
        } else {
            exists|found: Option<(u32, bool)>|
                #![trigger call_ensures(self.find_address_index_for_pubkey, (&account, &target), found)]
                {
                    &&& call_ensures(
                        self.find_address_index_for_pubkey,
                        (&account, &target),
                        found,
                    )
                    &&& match found {
                        Some((index, is_change)) => exists|k: Result<ExtendedPrivKey, ()>| #[trigger]
                            self.derives(account, index, is_change, k) && match k {
                                Ok(key) => self.signs_one(
                                    tx,
                                    i,
                                    key.private_key,
                                    keys::compressed_key(key.private_key@),
                                    sighash_type,
                                    after,
                                    outcome,
                                ),
                                Err(_) => outcome == InputOutcome::Skipped && after == tx,
                            },
                        None => if tx.has_stealth_tweak {
                            self.signs_stealth(
                                account,
                                target,
                                tx,
                                i,
                                sighash_type,
                                after,
                                outcome,
                            )
                        } else {
                            outcome == InputOutcome::Skipped && after == tx
                        },
                    }
                }
        }
    }

    /// Signing the inputs from `i` on with the keys of an account, after
    /// `count` others, can lead from `tx` to `after` and `r`.
    pub open spec fn signs_from(
        &self,
        account: ExtendedPrivKey,
        sighash_type: SigHashType,
        tx: Transaction,
        i: int,
        n: int,
        count: int,
        after: Transaction,
        r: Result<usize, PsktError>,
    ) -> bool
        decreases n - i,
    {
        if i >= n {
            &&& after == tx
            &&& r == if count == 0 {
                Err::<usize, PsktError>(PsktError::NoInputs)
            } else {
                Ok(count as usize)
            }
        } else {
            exists|mid: Transaction, outcome: InputOutcome| #[trigger]
                self.signs_input(account, tx, i, sighash_type, mid, outcome) && match outcome {
                    InputOutcome::Failed => after == mid && r == Err::<usize, PsktError>(
                        PsktError::NoInputs,
                    ),
                    InputOutcome::Skipped => self.signs_from(
                        account,
                        sighash_type,
                        mid,
                        i + 1,
                        n,
                        count,
                        after,
                        r,
                    ),
                    InputOutcome::Signed => self.signs_from(
                        account,
                        sighash_type,
                        mid,
                        i + 1,
                        n,
                        count + 1,
                        after,
                        r,
                    ),
                }
        }
    }

    fn sign_one(
        &self,
        tx: &mut Transaction,
        i: usize,
        private_key: &[u8; 32],
        key: Option<[u8; 33]>,
        sighash_type: SigHashType,
    ) -> (outcome: InputOutcome)
        requires
            self.total(),
            i < MAX_INPUTS,
        ensures
            self.signs_one(
                *old(tx),
                i as int,
                *private_key,
                key,
                sighash_type,
                *final(tx),
                outcome,
            ),
    {
        match (self.sign_input)(tx, i, private_key, sighash_type) {
            Ok(signature) => {
                sign_single(&mut tx.inputs[i], &signature, sighash_type, 0, key);
                InputOutcome::Signed
            },
            Err(_) => InputOutcome::Failed,
        }
    }

    fn sign_stealth(
        &self,
        account: &ExtendedPrivKey,
        target: &[u8; 32],
        tx: &mut Transaction,
        i: usize,
        sighash_type: SigHashType,
    ) -> (outcome: InputOutcome)
        requires
            self.total(),
            i < MAX_INPUTS,
        ensures
            self.signs_stealth(
                *account,
                *target,
                *old(tx),
                i as int,
                sighash_type,
                *final(tx),
                outcome,
            ),
    {
        let base = account.private_key_bytes();
        if !crypto::is_scalar(base) || !crypto::is_scalar(&tx.stealth_tweak) {
            return InputOutcome::Failed;
        }
        // The output's key is built on the account key with an even y
        // coordinate, so an odd one is negated first.
        let point = crypto::generator_times(base);
        let even: [u8; 32] = if point[0] == 3 {
            crypto::scalar_negate(base)
        } else {
            *base
        };
        let mut combined = crypto::scalar_add(&even, &tx.stealth_tweak);
        let encoded = crypto::generator_times(&combined);
        if encoded.len() != 33 {
            return InputOutcome::Skipped;
        }
        let public: [u8; 33] = bytes::to_array(encoded.as_slice());
        let x: [u8; 32] = bytes::to_array(vstd::slice::slice_subrange(public.as_slice(), 1, 33));
        assert(x == keys::x_only(public));
        if bytes::slice_eq(x.as_slice(), target.as_slice()) {
            assert(x =~= *target);
            let outcome = self.sign_one(tx, i, &combined, Some(public), sighash_type);
            bytes::wipe(&mut combined);
            outcome
        } else {
            InputOutcome::Skipped
        }
    }

    fn sign_account_input(
        &self,
        account: &ExtendedPrivKey,
        tx: &mut Transaction,
        i: usize,
        sighash_type: SigHashType,
    ) -> (outcome: InputOutcome)
        requires
            self.total(),
            i < MAX_INPUTS,
        ensures
            self.signs_input(
                *account,
                *old(tx),
                i as int,
                sighash_type,
                *final(tx),
                outcome,
            ),
            final(tx).num_inputs == old(tx).num_inputs,
    {
        let spk = &tx.inputs[i].utxo_entry.script_public_key;
        if spk.script_len != 34 || spk.script[0] != script::OP_DATA_32 || spk.script[33]
            != script::OP_CHECKSIG {
            return InputOutcome::Skipped;
        }
        let target: [u8; 32] = bytes::to_array(
            vstd::slice::slice_subrange(spk.script.as_slice(), 1, 33),
        );
        match (self.find_address_index_for_pubkey)(account, &target) {
            Some((index, is_change)) => match self.derive_key(account, index, is_change) {
                Ok(key) => {
                    let public = match key.public_key_compressed() {
                        Ok(k) => Some(k),
                        Err(_) => None,
                    };
                    self.sign_one(tx, i, key.private_key_bytes(), public, sighash_type)
                },
                Err(_) => InputOutcome::Skipped,
            },
            None => if tx.has_stealth_tweak {
                self.sign_stealth(account, &target, tx, i, sighash_type)
            } else {
                InputOutcome::Skipped
            },
        }
    }
}

/// Signs the inputs that belong to an account: each may pay to another of its
/// addresses, or to a stealth address. Other inputs are left alone. Returns
/// the number of inputs signed, and fails when there is none.
pub fn sign_transaction_multi_addr<A, F, T, D, C, S>(
    tx: &mut Transaction,
    seed: &[u8; 64],
    sighash_type: SigHashType,
    keys: &KeySource<A, F, T, D, C, S>,
) -> (r: Result<usize, PsktError>) where
    A: Fn(&[u8; 64]) -> Result<ExtendedPrivKey, ()>,
    F: Fn(&ExtendedPrivKey, &[u8; 32]) -> Option<(u32, bool)>,
    T: Fn(&ExtendedPrivKey, &[u8; 32]) -> Option<(u32, bool)>,
    D: Fn(&ExtendedPrivKey, u32) -> Result<ExtendedPrivKey, ()>,
    C: Fn(&ExtendedPrivKey, u32) -> Result<ExtendedPrivKey, ()>,
    S: Fn(&Transaction, usize, &[u8; 32], SigHashType) -> Result<[u8; 64], ()>,

    requires
        old(tx).num_inputs <= MAX_INPUTS,
        keys.total(),
    ensures
        only_signatures(*old(tx), *final(tx)),
        exists|a: Result<ExtendedPrivKey, ()>|
            #![trigger call_ensures(keys.derive_account_key, (seed,), a)]
            {
                &&& call_ensures(keys.derive_account_key, (seed,), a)
                &&& match a {
                    Ok(account) => keys.signs_from(
                        account,
                        sighash_type,
                        *old(tx),
                        0,
                        old(tx).num_inputs as int,
                        0,
                        *final(tx),
                        r,
                    ),
                    Err(_) => *final(tx) == *old(tx) && r == Err::<usize, PsktError>(
                        PsktError::NoInputs,
                    ),
                }
            },
{
    let account = match (keys.derive_account_key)(seed) {
        Ok(account) => account,
        Err(_) => {
            return Err(PsktError::NoInputs);
        },
    };
    let n = tx.num_inputs;
    let mut count: usize = 0;
    let mut i: usize = 0;
    while i < n
        invariant
            i <= n <= MAX_INPUTS,
            n == old(tx).num_inputs,
            count <= i,
            keys.total(),
            call_ensures(keys.derive_account_key, (seed,), Ok(account)),
            forall|after: Transaction, r: Result<usize, PsktError>|
                keys.signs_from(
                    account,
                    sighash_type,
                    *tx,
                    i as int,
                    n as int,
                    count as int,
                    after,
                    r,
                ) ==> #[trigger] keys.signs_from(
                    account,
                    sighash_type,
                    *old(tx),
                    0,
                    n as int,
                    0,
                    after,
                    r,
                ),
        decreases n - i,
    {
        let ghost before = *tx;
        let outcome = keys.sign_account_input(&account, tx, i, sighash_type);
        assert(keys.signs_input(account, before, i as int, sighash_type, *tx, outcome));
        match outcome {
            InputOutcome::Failed => {
                let r = Err(PsktError::NoInputs);
                proof {
                    law_account_signing_changes_only_signatures(
                        keys,
                        account,
                        sighash_type,
                        *old(tx),
                        *tx,
                        r,
                    );
                }
                return r;
            },
            InputOutcome::Skipped => {},
            InputOutcome::Signed => {
                count += 1;
            },
        }
        i += 1;
    }
    let r = if count == 0 {
        Err(PsktError::NoInputs)
    } else {
        Ok(count)
    };
    proof {
        law_account_signing_changes_only_signatures(
            keys,
            account,
            sighash_type,
            *old(tx),
            *tx,
            r,
        );
    }
    r
}

/// `t` is the transaction when input `j` is about to be signed, on the way
/// from `tx` to `after`: the inputs in front are done, the others as they
/// were.
pub open spec fn stage(tx: Transaction, after: Transaction, j: int, t: Transaction) -> bool {
    &&& t == Transaction { inputs: t.inputs, ..tx }
    &&& forall|k: int|
        0 <= k < MAX_INPUTS ==> #[trigger] t.inputs@[k] == if k < j {
            after.inputs@[k]
        } else {
            tx.inputs@[k]
        }
}

/// The signer may return `r` when it is asked for input `j` with this key.
pub open spec fn signer_returns<S>(
    sign_input: S,
    private_key: [u8; 32],
    sighash_type: SigHashType,
    tx: Transaction,
    after: Transaction,
    j: int,
    r: Result<[u8; 64], ()>,
) -> bool where S: Fn(&Transaction, usize, &[u8; 32], SigHashType) -> Result<[u8; 64], ()> {
    exists|t: Transaction| #[trigger]
        stage(tx, after, j, t) && call_ensures(
            sign_input,
            (&t, j as usize, &private_key, sighash_type),
            r,
        )
}

/// Input `j` carries a signature that the signer may return for it, and is
/// else as it was.
pub open spec fn signed_in_place<S>(
    sign_input: S,
    private_key: [u8; 32],
    sighash_type: SigHashType,
    tx: Transaction,
    after: Transaction,
    j: int,
) -> bool where S: Fn(&Transaction, usize, &[u8; 32], SigHashType) -> Result<[u8; 64], ()> {
    let signature = after.inputs@[j].signature;
    &&& after.inputs@[j] == legacy_signed(tx.inputs@[j], signature, sighash_type)
    &&& signer_returns(sign_input, private_key, sighash_type, tx, after, j, Ok(signature))
}

/// Signing stopped at input `k`: those in front are signed, the signer failed
/// on this one, and it and all behind are as they were.
pub open spec fn stopped_at<S>(
    sign_input: S,
    private_key: [u8; 32],
    sighash_type: SigHashType,
    tx: Transaction,
    after: Transaction,
    k: int,
) -> bool where S: Fn(&Transaction, usize, &[u8; 32], SigHashType) -> Result<[u8; 64], ()> {
    &&& forall|j: int|
        0 <= j < k ==> #[trigger] signed_in_place(
            sign_input,
            private_key,
            sighash_type,
            tx,
            after,
            j,
        )
    &&& forall|j: int| k <= j < MAX_INPUTS ==> #[trigger] after.inputs@[j] == tx.inputs@[j]
    &&& signer_returns(sign_input, private_key, sighash_type, tx, after, k, Err(()))
}

/// A signature returned at a later stage is one of the whole way.
proof fn lemma_stage<S>(
    sign_input: S,
    private_key: [u8; 32],
    sighash_type: SigHashType,
    tx: Transaction,
    next: Transaction,
    after: Transaction,
    i: int,
    j: int,
    r: Result<[u8; 64], ()>,
) where S: Fn(&Transaction, usize, &[u8; 32], SigHashType) -> Result<[u8; 64], ()>
    requires
        0 <= i < j,
        i < MAX_INPUTS,
        next == tx.with_input(i, next.inputs@[i]),
        signer_returns(sign_input, private_key, sighash_type, next, after, j, r),
    ensures
        signer_returns(sign_input, private_key, sighash_type, tx, after, j, r),
{
    let t = choose|t: Transaction| #[trigger]
        stage(next, after, j, t) && call_ensures(
            sign_input,
            (&t, j as usize, &private_key, sighash_type),
            r,
        );
    assert forall|k: int| 0 <= k < MAX_INPUTS implies #[trigger] t.inputs@[k] == if k < j {
        after.inputs@[k]
    } else {
        tx.inputs@[k]
    } by {
        if k >= j {
            assert(next.inputs@[k] == tx.inputs@[k]);
        }
    }
    assert(stage(tx, after, j, t));
}

/// The inputs from `i` on: all signed, or stopped at one.
proof fn lemma_in_place<S>(
    sign_input: S,
    private_key: [u8; 32],
    sighash_type: SigHashType,
    tx: Transaction,
    i: int,
    after: Transaction,
    r: Result<usize, PsktError>,
) -> (stop: int) where
    S: Fn(&Transaction, usize, &[u8; 32], SigHashType) -> Result<[u8; 64], ()>,

    requires
        0 <= i <= tx.num_inputs <= MAX_INPUTS,
        signs_in_place(sign_input, private_key, sighash_type, tx, i, after, r),
    ensures
        only_signatures(tx, after),
        i <= stop <= tx.num_inputs,
        forall|j: int|
            0 <= j < MAX_INPUTS && (j < i || j >= stop) ==> #[trigger] after.inputs@[j]
                == tx.inputs@[j],
        forall|j: int|
            i <= j < stop ==> #[trigger] signed_in_place(
                sign_input,
                private_key,
                sighash_type,
                tx,
                after,
                j,
            ),
        match r {
            Ok(n) => n == tx.num_inputs && stop == n,
            Err(e) => {
                &&& e == PsktError::NoInputs
                &&& stop < tx.num_inputs
                &&& signer_returns(
                    sign_input,
                    private_key,
                    sighash_type,
                    tx,
                    after,
                    stop,
                    Err(()),
                )
            },
        },
    decreases tx.num_inputs - i,
{
    if i < tx.num_inputs {
        let g = choose|g: Result<[u8; 64], ()>|
            #![trigger call_ensures(sign_input, (&tx, i as usize, &private_key, sighash_type), g)]
            {
                &&& call_ensures(sign_input, (&tx, i as usize, &private_key, sighash_type), g)
                &&& match g {
                    Ok(signature) => {
                        let next = tx.with_input(
                            i,
                            legacy_signed(tx.inputs@[i], signature, sighash_type),
                        );
                        signs_in_place(
                            sign_input,
                            private_key,
                            sighash_type,
                            next,
                            i + 1,
                            after,
                            r,
                        )
                    },
                    Err(_) => after == tx && r == Err::<usize, PsktError>(PsktError::NoInputs),
                }
            };
        match g {
            Ok(signature) => {
                let next = tx.with_input(i, legacy_signed(tx.inputs@[i], signature, sighash_type));
                let stop = lemma_in_place(
                    sign_input,
                    private_key,
                    sighash_type,
                    next,
                    i + 1,
                    after,
                    r,
                );
                assert(after.inputs@[i] == next.inputs@[i]);
                assert forall|j: int| 0 <= j < MAX_INPUTS implies resigned(
                    tx.inputs@[j],
                    #[trigger] after.inputs@[j],
                ) by {
                    assert(resigned(next.inputs@[j], after.inputs@[j]));
                }
                assert(stage(tx, after, i, tx));
                assert forall|j: int| i <= j < stop implies #[trigger] signed_in_place(
                    sign_input,
                    private_key,
                    sighash_type,
                    tx,
                    after,
                    j,
                ) by {
                    if j > i {
                        assert(signed_in_place(
                            sign_input,
                            private_key,
                            sighash_type,
                            next,
                            after,
                            j,
                        ));
                        assert(next.inputs@[j] == tx.inputs@[j]);
                        lemma_stage(
                            sign_input,
                            private_key,
                            sighash_type,
                            tx,
                            next,
                            after,
                            i,
                            j,
                            Ok(after.inputs@[j].signature),
                        );
                    }
                }
                if r is Err {
                    lemma_stage(
                        sign_input,
                        private_key,
                        sighash_type,
                        tx,
                        next,
                        after,
                        i,
                        stop,
                        Err(()),
                    );
                }
                stop
            },
            Err(e) => {
                assert(e == ());
                assert(stage(tx, after, i, tx));
                i
            },
        }
    } else {
        i
    }
}

/// Signing in place changes nothing but signatures. When it succeeds, every
/// input carries a signature that the signer may return for it, and the count
/// is that of the inputs. When it fails, the signer failed on some input: those
/// in front of it are signed, and it and those behind are as they were.
pub proof fn law_in_place_signs_every_input<S>(
    sign_input: S,
    private_key: [u8; 32],
    sighash_type: SigHashType,
    tx: Transaction,
    after: Transaction,
    r: Result<usize, PsktError>,
) where S: Fn(&Transaction, usize, &[u8; 32], SigHashType) -> Result<[u8; 64], ()>
    requires
        tx.num_inputs <= MAX_INPUTS,
        signs_in_place(sign_input, private_key, sighash_type, tx, 0, after, r),
    ensures
        only_signatures(tx, after),
        match r {
            Ok(n) => n == tx.num_inputs && forall|j: int|
                0 <= j < n ==> #[trigger] signed_in_place(
                    sign_input,
                    private_key,
                    sighash_type,
                    tx,
                    after,
                    j,
                ),
            Err(e) => e == PsktError::NoInputs && exists|k: int|
                0 <= k < tx.num_inputs && #[trigger] stopped_at(
                    sign_input,
                    private_key,
                    sighash_type,
                    tx,
                    after,
                    k,
                ),
        },
{
    let stop = lemma_in_place(sign_input, private_key, sighash_type, tx, 0, after, r);
    if r is Err {
        assert(stopped_at(sign_input, private_key, sighash_type, tx, after, stop));
    }
}

/// An input that was signed in place has the 64 bytes that the signer may have
/// returned for it, their type, and nothing else that it did not have.
pub proof fn law_signed_in_place<S>(
    sign_input: S,
    private_key: [u8; 32],
    sighash_type: SigHashType,
    tx: Transaction,
    after: Transaction,
    j: int,
) where S: Fn(&Transaction, usize, &[u8; 32], SigHashType) -> Result<[u8; 64], ()>
    requires
        signed_in_place(sign_input, private_key, sighash_type, tx, after, j),
    ensures
        ({
            let (x, y) = (tx.inputs@[j], after.inputs@[j]);
            &&& y.sig_len == 64
            &&& y.sighash_type == sighash_type.byte()
            &&& y == TransactionInput {
                signature: y.signature,
                sig_len: y.sig_len,
                sighash_type: y.sighash_type,
                ..x
            }
            &&& exists|t: Transaction| #[trigger]
                stage(tx, after, j, t) && call_ensures(
                    sign_input,
                    (&t, j as usize, &private_key, sighash_type),
                    Ok(y.signature),
                )
        }),
{
}

/// Where only signatures change, all that a transaction says of itself stays:
/// what it spends, how, and whom it pays.
pub proof fn law_only_signatures_change(before: Transaction, after: Transaction, i: int)
    requires
        only_signatures(before, after),
        0 <= i < 8,
    ensures
        ({
            let (x, y) = (before.inputs@[i], after.inputs@[i]);
            &&& after.version == before.version && after.locktime == before.locktime
            &&& after.num_inputs == before.num_inputs && after.num_outputs == before.num_outputs
            &&& after.outputs == before.outputs && after.gas == before.gas
            &&& after.subnetwork_id == before.subnetwork_id
            &&& after.payload == before.payload && after.payload_len == before.payload_len
            &&& after.stealth_tweak == before.stealth_tweak
            &&& after.has_stealth_tweak == before.has_stealth_tweak
            &&& after.redeem_pool == before.redeem_pool
            &&& after.redeem_pool_used == before.redeem_pool_used
            &&& y.previous_outpoint == x.previous_outpoint && y.sequence == x.sequence
            &&& y.sig_op_count == x.sig_op_count && y.utxo_entry == x.utxo_entry
            &&& y.redeem_script == x.redeem_script && y.redeem_script_len == x.redeem_script_len
            &&& y.redeem_in_pool == x.redeem_in_pool
            &&& y.redeem_script_offset == x.redeem_script_offset
            &&& y.incoming_partial_sigs == x.incoming_partial_sigs
            &&& y.incoming_partial_sigs_count == x.incoming_partial_sigs_count
            &&& y.derivation_chain == x.derivation_chain
            &&& y.derivation_index == x.derivation_index
        }),
{
    assert(resigned(before.inputs@[i], after.inputs@[i]));
}

/// How many of the marks from `i` to `n` are set.
pub open spec fn tally(marks: Seq<bool>, i: int, n: int) -> int
    decreases n - i,
{
    if i >= n {
        0
    } else {
        tally(marks, i + 1, n) + if marks[i] {
            1int
        } else {
            0
        }
    }
}

/// How many of the inputs from `i` to `n` carry a signature.
pub open spec fn signed_inputs(tx: Transaction, i: int, n: int) -> int
    decreases n - i,
{
    if i >= n {
        0
    } else {
        signed_inputs(tx, i + 1, n) + if tx.inputs@[i].sig_len > 0 {
            1int
        } else {
            0
        }
    }
}

/// An input pays to a single key.
pub open spec fn single_key(input: TransactionInput) -> bool {
    let spk = input.utxo_entry.script_public_key;
    script::is_p2pk(spk.script@, spk.script_len as int)
}

/// Input `j`, which pays to a single key, carries one signature, that the
/// signer may return for it, and is else as it was.
pub open spec fn signed_singly<S>(
    sign_input: S,
    sighash_type: SigHashType,
    tx: Transaction,
    after: Transaction,
    j: int,
) -> bool where S: Fn(&Transaction, usize, &[u8; 32], SigHashType) -> Result<[u8; 64], ()> {
    let signature = after.inputs@[j].signature;
    &&& single_key(tx.inputs@[j])
    &&& exists|key: Option<[u8; 33]>|
        after.inputs@[j] == #[trigger] single_signed(
            tx.inputs@[j],
            signature,
            sighash_type,
            0,
            key,
        )
    &&& exists|private_key: [u8; 32]| #[trigger]
        signer_returns(sign_input, private_key, sighash_type, tx, after, j, Ok(signature))
}

/// The inputs from `i` to `n` that are marked are signed, the others are as
/// they were.
pub open spec fn signed_where<S>(
    sign_input: S,
    sighash_type: SigHashType,
    tx: Transaction,
    after: Transaction,
    marks: Seq<bool>,
    i: int,
    n: int,
) -> bool where S: Fn(&Transaction, usize, &[u8; 32], SigHashType) -> Result<[u8; 64], ()> {
    &&& marks.len() == n
    &&& forall|j: int|
        i <= j < n ==> if #[trigger] marks[j] {
            signed_singly(sign_input, sighash_type, tx, after, j)
        } else {
            after.inputs@[j] == tx.inputs@[j]
        }
}

/// An input of an account that is signed.
proof fn lemma_signed_singly<A, F, T, D, C, S>(
    source: &KeySource<A, F, T, D, C, S>,
    account: ExtendedPrivKey,
    sighash_type: SigHashType,
    tx: Transaction,
    i: int,
    mid: Transaction,
    outcome: InputOutcome,
) where
    A: Fn(&[u8; 64]) -> Result<ExtendedPrivKey, ()>,
    F: Fn(&ExtendedPrivKey, &[u8; 32]) -> Option<(u32, bool)>,
    T: Fn(&ExtendedPrivKey, &[u8; 32]) -> Option<(u32, bool)>,
    D: Fn(&ExtendedPrivKey, u32) -> Result<ExtendedPrivKey, ()>,
    C: Fn(&ExtendedPrivKey, u32) -> Result<ExtendedPrivKey, ()>,
    S: Fn(&Transaction, usize, &[u8; 32], SigHashType) -> Result<[u8; 64], ()>,

    requires
        0 <= i < MAX_INPUTS,
        source.signs_input(account, tx, i, sighash_type, mid, outcome),
    ensures
        mid == tx.with_input(i, mid.inputs@[i]),
        resigned(tx.inputs@[i], mid.inputs@[i]),
        !(outcome is Signed) ==> mid == tx,
        outcome is Signed ==> signed_singly(source.sign_input, sighash_type, tx, mid, i),
{
    assert(tx.with_input(i, tx.inputs@[i]).inputs =~= tx.inputs);
    if outcome is Signed {
        let (k, key) = choose|k: [u8; 32], key: Option<[u8; 33]>| #[trigger]
            source.signs_one(tx, i, k, key, sighash_type, mid, outcome);
        let g = choose|g: Result<[u8; 64], ()>|
            #![trigger call_ensures(source.sign_input, (&tx, i as usize, &k, sighash_type), g)]
            {
                &&& call_ensures(source.sign_input, (&tx, i as usize, &k, sighash_type), g)
                &&& match g {
                    Ok(signature) => {
                        &&& outcome == InputOutcome::Signed
                        &&& mid == tx.with_input(
                            i,
                            single_signed(tx.inputs@[i], signature, sighash_type, 0, key),
                        )
                    },
                    Err(_) => outcome == InputOutcome::Failed && mid == tx,
                }
            };
        let signature = g.unwrap();
        assert(mid.inputs@[i] == single_signed(tx.inputs@[i], signature, sighash_type, 0, key));
        assert(stage(tx, mid, i, tx));
        assert(signer_returns(
            source.sign_input,
            k,
            sighash_type,
            tx,
            mid,
            i,
            Ok(signature),
        ));
    }
}

/// A later input that is signed on the way is signed as from the start.
proof fn lemma_later_singly<S>(
    sign_input: S,
    sighash_type: SigHashType,
    tx: Transaction,
    mid: Transaction,
    after: Transaction,
    i: int,
    j: int,
) where S: Fn(&Transaction, usize, &[u8; 32], SigHashType) -> Result<[u8; 64], ()>
    requires
        0 <= i < j < MAX_INPUTS,
        mid == tx.with_input(i, mid.inputs@[i]),
        signed_singly(sign_input, sighash_type, mid, after, j),
    ensures
        signed_singly(sign_input, sighash_type, tx, after, j),
{
    let signature = after.inputs@[j].signature;
    assert(mid.inputs@[j] == tx.inputs@[j]);
    let k = choose|k: [u8; 32]| #[trigger]
        signer_returns(sign_input, k, sighash_type, mid, after, j, Ok(signature));
    lemma_stage(sign_input, k, sighash_type, tx, mid, after, i, j, Ok(signature));
}

proof fn lemma_multi_addr<A, F, T, D, C, S>(
    source: &KeySource<A, F, T, D, C, S>,
    account: ExtendedPrivKey,
    sighash_type: SigHashType,
    tx: Transaction,
    i: int,
    n: int,
    count: int,
    after: Transaction,
    r: Result<usize, PsktError>,
) -> (marks: Seq<bool>) where
    A: Fn(&[u8; 64]) -> Result<ExtendedPrivKey, ()>,
    F: Fn(&ExtendedPrivKey, &[u8; 32]) -> Option<(u32, bool)>,
    T: Fn(&ExtendedPrivKey, &[u8; 32]) -> Option<(u32, bool)>,
    D: Fn(&ExtendedPrivKey, u32) -> Result<ExtendedPrivKey, ()>,
    C: Fn(&ExtendedPrivKey, u32) -> Result<ExtendedPrivKey, ()>,
    S: Fn(&Transaction, usize, &[u8; 32], SigHashType) -> Result<[u8; 64], ()>,

    requires
        0 <= i <= n <= MAX_INPUTS,
        0 <= count <= i,
        source.signs_from(account, sighash_type, tx, i, n, count, after, r),
    ensures
        only_signatures(tx, after),
        r matches Ok(c) ==> 1 <= c <= n && c == count + tally(marks, i, n),
        r matches Err(e) ==> e == PsktError::NoInputs,
        signed_where(source.sign_input, sighash_type, tx, after, marks, i, n),
        forall|j: int|
            0 <= j < MAX_INPUTS && (j < i || j >= n) ==> #[trigger] after.inputs@[j]
                == tx.inputs@[j],
    decreases n - i,
{
    if i >= n {
        Seq::new(n as nat, |j: int| false)
    } else {
        let (mid, outcome) = choose|mid: Transaction, outcome: InputOutcome| #[trigger]
            source.signs_input(account, tx, i, sighash_type, mid, outcome) && match outcome {
                InputOutcome::Failed => after == mid && r == Err::<usize, PsktError>(
                    PsktError::NoInputs,
                ),
                InputOutcome::Skipped => source.signs_from(
                    account,
                    sighash_type,
                    mid,
                    i + 1,
                    n,
                    count,
                    after,
                    r,
                ),
                InputOutcome::Signed => source.signs_from(
                    account,
                    sighash_type,
                    mid,
                    i + 1,
                    n,
                    count + 1,
                    after,
                    r,
                ),
            };
        lemma_signed_singly(source, account, sighash_type, tx, i, mid, outcome);
        if outcome is Failed {
            Seq::new(n as nat, |j: int| false)
        } else {
            let signed = outcome is Signed;
            let later = lemma_multi_addr(
                source,
                account,
                sighash_type,
                mid,
                i + 1,
                n,
                if signed {
                    count + 1
                } else {
                    count
                },
                after,
                r,
            );
            let marks = later.update(i, signed);
            lemma_tally(later, marks, i + 1, n);
            assert(after.inputs@[i] == mid.inputs@[i]);
            assert forall|j: int| 0 <= j < MAX_INPUTS implies resigned(
                tx.inputs@[j],
                #[trigger] after.inputs@[j],
            ) by {
                assert(resigned(mid.inputs@[j], after.inputs@[j]));
            }
            assert forall|j: int| i <= j < n implies if #[trigger] marks[j] {
                signed_singly(source.sign_input, sighash_type, tx, after, j)
            } else {
                after.inputs@[j] == tx.inputs@[j]
            } by {
                if j == i {
                    if signed {
                        let signature = mid.inputs@[i].signature;
                        let k = choose|k: [u8; 32]| #[trigger]
                            signer_returns(
                                source.sign_input,
                                k,
                                sighash_type,
                                tx,
                                mid,
                                i,
                                Ok(signature),
                            );
                        lemma_stage_until(
                            source.sign_input,
                            k,
                            sighash_type,
                            tx,
                            mid,
                            after,
                            i,
                            Ok(signature),
                        );
                    }
                } else {
                    assert(mid.inputs@[j] == tx.inputs@[j]);
                    assert(marks[j] == later[j]);
                    if marks[j] {
                        lemma_later_singly(
                            source.sign_input,
                            sighash_type,
                            tx,
                            mid,
                            after,
                            i,
                            j,
                        );
                    }
                }
            }
            marks
        }
    }
}

/// What the signer returned for an input does not depend on what happens
/// later.
proof fn lemma_stage_until<S>(
    sign_input: S,
    private_key: [u8; 32],
    sighash_type: SigHashType,
    tx: Transaction,
    mid: Transaction,
    after: Transaction,
    j: int,
    r: Result<[u8; 64], ()>,
) where S: Fn(&Transaction, usize, &[u8; 32], SigHashType) -> Result<[u8; 64], ()>
    requires
        forall|k: int| 0 <= k < j ==> #[trigger] after.inputs@[k] == mid.inputs@[k],
        signer_returns(sign_input, private_key, sighash_type, tx, mid, j, r),
    ensures
        signer_returns(sign_input, private_key, sighash_type, tx, after, j, r),
{
    let t = choose|t: Transaction| #[trigger]
        stage(tx, mid, j, t) && call_ensures(
            sign_input,
            (&t, j as usize, &private_key, sighash_type),
            r,
        );
    assert forall|k: int| 0 <= k < MAX_INPUTS implies #[trigger] t.inputs@[k] == if k < j {
        after.inputs@[k]
    } else {
        tx.inputs@[k]
    } by {
        if k < j {
            assert(after.inputs@[k] == mid.inputs@[k]);
        }
    }
    assert(stage(tx, after, j, t));
}

/// Equal marks have equal tallies.
proof fn lemma_tally(a: Seq<bool>, b: Seq<bool>, i: int, n: int)
    requires
        forall|j: int| i <= j < n ==> #[trigger] a[j] == b[j],
    ensures
        tally(a, i, n) == tally(b, i, n),
    decreases n - i,
{
    if i < n {
        assert(a[i] == b[i]);
        lemma_tally(a, b, i + 1, n);
    }
}

/// Where no input carried a signature, those that carry one are the marked
/// ones.
proof fn lemma_tally_signed<S>(
    sign_input: S,
    sighash_type: SigHashType,
    tx: Transaction,
    after: Transaction,
    marks: Seq<bool>,
    i: int,
    n: int,
) where S: Fn(&Transaction, usize, &[u8; 32], SigHashType) -> Result<[u8; 64], ()>
    requires
        0 <= i,
        signed_where(sign_input, sighash_type, tx, after, marks, 0, n),
        forall|j: int| 0 <= j < n ==> (#[trigger] tx.inputs@[j]).sig_len == 0,
    ensures
        signed_inputs(after, i, n) == tally(marks, i, n),
    decreases n - i,
{
    if i < n {
        assert(tx.inputs@[i].sig_len == 0);
        assert(marks[i] ==> signed_singly(sign_input, sighash_type, tx, after, i));
        lemma_tally_signed(sign_input, sighash_type, tx, after, marks, i + 1, n);
    }
}

/// Signing with the keys of an account changes nothing but signatures. Some of
/// the single-key inputs are signed, each with one signature that the signer
/// may return for it; all other inputs are as they were. When it succeeds, the
/// count is that of the inputs that were signed, at least one; where no input
/// carried a signature, it is the number of those that carry one now.
pub proof fn law_account_signing_changes_only_signatures<A, F, T, D, C, S>(
    source: &KeySource<A, F, T, D, C, S>,
    account: ExtendedPrivKey,
    sighash_type: SigHashType,
    tx: Transaction,
    after: Transaction,
    r: Result<usize, PsktError>,
) where
    A: Fn(&[u8; 64]) -> Result<ExtendedPrivKey, ()>,
    F: Fn(&ExtendedPrivKey, &[u8; 32]) -> Option<(u32, bool)>,
    T: Fn(&ExtendedPrivKey, &[u8; 32]) -> Option<(u32, bool)>,
    D: Fn(&ExtendedPrivKey, u32) -> Result<ExtendedPrivKey, ()>,
    C: Fn(&ExtendedPrivKey, u32) -> Result<ExtendedPrivKey, ()>,
    S: Fn(&Transaction, usize, &[u8; 32], SigHashType) -> Result<[u8; 64], ()>,

    requires
        tx.num_inputs <= MAX_INPUTS,
        source.signs_from(
            account,
            sighash_type,
            tx,
            0,
            tx.num_inputs as int,
            0,
            after,
            r,
        ),
    ensures
        only_signatures(tx, after),
        exists|marks: Seq<bool>| #[trigger]
            signed_where(
                source.sign_input,
                sighash_type,
                tx,
                after,
                marks,
                0,
                tx.num_inputs as int,
            ) && (r matches Ok(c) ==> c == tally(marks, 0, tx.num_inputs as int)),
        forall|j: int|
            tx.num_inputs <= j < MAX_INPUTS ==> #[trigger] after.inputs@[j] == tx.inputs@[j],
        r matches Ok(c) ==> 1 <= c <= tx.num_inputs,
        r matches Err(e) ==> e == PsktError::NoInputs,
        r is Ok && (forall|j: int|
            0 <= j < tx.num_inputs ==> (#[trigger] tx.inputs@[j]).sig_len == 0) ==> r.unwrap()
            == signed_inputs(after, 0, tx.num_inputs as int),
{
    let n = tx.num_inputs as int;
    let marks = lemma_multi_addr(source, account, sighash_type, tx, 0, n, 0, after, r);
    assert(signed_where(source.sign_input, sighash_type, tx, after, marks, 0, n));
    if forall|j: int| 0 <= j < n ==> (#[trigger] tx.inputs@[j]).sig_len == 0 {
        lemma_tally_signed(source.sign_input, sighash_type, tx, after, marks, 0, n);
    }
}

impl<A, F, T, D, C, S> KeySource<A, F, T, D, C, S> where
    A: Fn(&[u8; 64]) -> Result<ExtendedPrivKey, ()>,
    F: Fn(&ExtendedPrivKey, &[u8; 32]) -> Option<(u32, bool)>,
    T: Fn(&ExtendedPrivKey, &[u8; 32]) -> Option<(u32, bool)>,
    D: Fn(&ExtendedPrivKey, u32) -> Result<ExtendedPrivKey, ()>,
    C: Fn(&ExtendedPrivKey, u32) -> Result<ExtendedPrivKey, ()>,
    S: Fn(&Transaction, usize, &[u8; 32], SigHashType) -> Result<[u8; 64], ()>,
 {
    /// The address search of an account may find a key, and the key of the
    /// address found may be derived as `key`, on the chain that the search
    /// names.
    pub open spec fn may_own(
        &self,
        account: ExtendedPrivKey,
        target: [u8; 32],
        key: ExtendedPrivKey,
    ) -> bool {
        ||| exists|index: u32| #[trigger]
            call_ensures(self.derive_address_key, (&account, index), Ok(key)) && call_ensures(
                self.find_address_index_for_pubkey,
                (&account, &target),
                Some((index, false)),
            )
        ||| exists|index: u32| #[trigger]
            call_ensures(self.derive_change_key, (&account, index), Ok(key)) && call_ensures(
                self.find_address_index_for_pubkey,
                (&account, &target),
                Some((index, true)),
            )
    }

    /// The address search of an account may find a key whose address key
    /// cannot be derived.
    pub open spec fn may_lack(&self, account: ExtendedPrivKey, target: [u8; 32]) -> bool {
        ||| exists|index: u32| #[trigger]
            call_ensures(self.derive_address_key, (&account, index), Err(())) && call_ensures(
                self.find_address_index_for_pubkey,
                (&account, &target),
                Some((index, false)),
            )
        ||| exists|index: u32| #[trigger]
            call_ensures(self.derive_change_key, (&account, index), Err(())) && call_ensures(
                self.find_address_index_for_pubkey,
                (&account, &target),
                Some((index, true)),
            )
    }

    /// Input `j` is signed with the key of the address that it pays to.
    pub open spec fn signed_for_address(
        &self,
        account: ExtendedPrivKey,
        target: [u8; 32],
        sighash_type: SigHashType,
        tx: Transaction,
        after: Transaction,
        j: int,
    ) -> bool {
        exists|key: ExtendedPrivKey| #[trigger]
            self.may_own(account, target, key) && signer_returns(
                self.sign_input,
                key.private_key,
                sighash_type,
                tx,
                after,
                j,
                Ok(after.inputs@[j].signature),
            ) && notes_public_key(key.private_key, after.inputs@[j].sigs@[0])
    }

    /// Input `j`, which no address search finds, is signed with the sum of the
    /// account key, negated where its public key has an odd y coordinate, and
    /// the stealth tweak; that sum has the public key that the input pays to.
    pub open spec fn signed_for_stealth(
        &self,
        account: ExtendedPrivKey,
        target: [u8; 32],
        sighash_type: SigHashType,
        tx: Transaction,
        after: Transaction,
        j: int,
    ) -> bool {
        &&& tx.has_stealth_tweak
        &&& call_ensures(self.find_address_index_for_pubkey, (&account, &target), None)
        &&& exists|k: [u8; 32]|
            #![trigger bytes::be_nat(k@)]
            {
                &&& bytes::be_nat(k@) == spending_number(
                    account.private_key@,
                    tx.stealth_tweak@,
                )
                &&& keys::x_only(bytes::array_of(crypto::generator_multiple(k@))) == target
                &&& signer_returns(
                    self.sign_input,
                    k,
                    sighash_type,
                    tx,
                    after,
                    j,
                    Ok(after.inputs@[j].signature),
                )
                &&& notes_public_key(k, after.inputs@[j].sigs@[0])
            }
    }

    /// There is a reason to leave an input that pays to `target` alone: its
    /// address key cannot be derived, or no address search finds it and it is
    /// no stealth output of the account.
    pub open spec fn may_leave(
        &self,
        account: ExtendedPrivKey,
        target: [u8; 32],
        tx: Transaction,
    ) -> bool {
        ||| self.may_lack(account, target)
        ||| {
            &&& call_ensures(self.find_address_index_for_pubkey, (&account, &target), None)
            &&& {
                let sum = spending_number(account.private_key@, tx.stealth_tweak@);
                ||| !tx.has_stealth_tweak
                ||| sum == 0
                ||| exists|k: [u8; 32]|
                    #![trigger bytes::be_nat(k@)]
                    bytes::be_nat(k@) == sum && keys::x_only(
                        bytes::array_of(crypto::generator_multiple(k@)),
                    ) != target
            }
        }
    }

    /// What becomes of input `j`: one that does not pay to a single key is
    /// left alone; any other is signed, for its address or as a stealth
    /// output, or there is a reason to leave it alone.
    pub open spec fn accounted(
        &self,
        account: ExtendedPrivKey,
        sighash_type: SigHashType,
        tx: Transaction,
        after: Transaction,
        j: int,
    ) -> bool {
        let spk = tx.inputs@[j].utxo_entry.script_public_key;
        let target: [u8; 32] = bytes::array_of(spk.script@.subrange(1, 33));
        let x = after.inputs@[j];
        if spk.script_len != 34 || spk.script@[0] != 0x20 || spk.script@[33] != 0xAC {
            x == tx.inputs@[j]
        } else {
            ||| {
                &&& x.sig_len == 64 && x.sig_count == 1 && x.sigs@[0].present
                &&& x.sigs@[0].signature == x.signature
                &&& x.sigs@[0].pubkey_pos == 0
                &&& x.sighash_type == sighash_type.byte()
                &&& x.sigs@[0].sighash_type == sighash_type.byte()
                &&& {
                    ||| self.signed_for_address(account, target, sighash_type, tx, after, j)
                    ||| self.signed_for_stealth(account, target, sighash_type, tx, after, j)
                }
            }
            ||| x == tx.inputs@[j] && self.may_leave(account, target, tx)
        }
    }

    proof fn lemma_accounted_here(
        &self,
        account: ExtendedPrivKey,
        sighash_type: SigHashType,
        tx: Transaction,
        i: int,
        mid: Transaction,
        outcome: InputOutcome,
    )
        requires
            0 <= i < MAX_INPUTS,
            self.signs_input(account, tx, i, sighash_type, mid, outcome),
            !(outcome is Failed),
        ensures
            self.accounted(account, sighash_type, tx, mid, i),
    {
        let spk = tx.inputs@[i].utxo_entry.script_public_key;
        let target: [u8; 32] = bytes::array_of(spk.script@.subrange(1, 33));
        if script::is_p2pk(spk.script@, spk.script_len as int) {
            let found = choose|found: Option<(u32, bool)>|
                #![trigger call_ensures(self.find_address_index_for_pubkey, (&account, &target), found)]
                {
                    &&& call_ensures(
                        self.find_address_index_for_pubkey,
                        (&account, &target),
                        found,
                    )
                    &&& match found {
                        Some((index, is_change)) => exists|k: Result<ExtendedPrivKey, ()>| #[trigger]
                            self.derives(account, index, is_change, k) && match k {
                                Ok(key) => self.signs_one(
                                    tx,
                                    i,
                                    key.private_key,
                                    keys::compressed_key(key.private_key@),
                                    sighash_type,
                                    mid,
                                    outcome,
                                ),
                                Err(_) => outcome == InputOutcome::Skipped && mid == tx,
                            },
                        None => if tx.has_stealth_tweak {
                            self.signs_stealth(
                                account,
                                target,
                                tx,
                                i,
                                sighash_type,
                                mid,
                                outcome,
                            )
                        } else {
                            outcome == InputOutcome::Skipped && mid == tx
                        },
                    }
                };
            match found {
                Some((index, is_change)) => {
                    let k = choose|k: Result<ExtendedPrivKey, ()>| #[trigger]
                        self.derives(account, index, is_change, k) && match k {
                            Ok(key) => self.signs_one(
                                tx,
                                i,
                                key.private_key,
                                keys::compressed_key(key.private_key@),
                                sighash_type,
                                mid,
                                outcome,
                            ),
                            Err(_) => outcome == InputOutcome::Skipped && mid == tx,
                        };
                    match k {
                        Ok(key) => {
                            assert(self.may_own(account, target, key));
                            self.lemma_one_signed(
                                key.private_key,
                                keys::compressed_key(key.private_key@),
                                sighash_type,
                                tx,
                                i,
                                mid,
                                outcome,
                            );
                        },
                        Err(e) => {
                            assert(e == ());
                            assert(self.may_lack(account, target));
                        },
                    }
                },
                None => {
                    if tx.has_stealth_tweak {
                        self.lemma_stealth_accounted(
                            account,
                            target,
                            sighash_type,
                            tx,
                            i,
                            mid,
                            outcome,
                        );
                    }
                },
            }
        }
    }

    proof fn lemma_one_signed(
        &self,
        private_key: [u8; 32],
        key: Option<[u8; 33]>,
        sighash_type: SigHashType,
        tx: Transaction,
        i: int,
        mid: Transaction,
        outcome: InputOutcome,
    )
        requires
            0 <= i < MAX_INPUTS,
            self.signs_one(tx, i, private_key, key, sighash_type, mid, outcome),
            !(outcome is Failed),
        ensures
            signer_returns(
                self.sign_input,
                private_key,
                sighash_type,
                tx,
                mid,
                i,
                Ok(mid.inputs@[i].signature),
            ),
            mid.inputs@[i] == single_signed(
                tx.inputs@[i],
                mid.inputs@[i].signature,
                sighash_type,
                0,
                key,
            ),
    {
        assert(stage(tx, mid, i, tx));
    }

    proof fn lemma_stealth_accounted(
        &self,
        account: ExtendedPrivKey,
        target: [u8; 32],
        sighash_type: SigHashType,
        tx: Transaction,
        i: int,
        mid: Transaction,
        outcome: InputOutcome,
    )
        requires
            0 <= i < MAX_INPUTS,
            tx.has_stealth_tweak,
            call_ensures(
                self.find_address_index_for_pubkey,
                (&account, &target),
                None::<(u32, bool)>,
            ),
            self.signs_stealth(account, target, tx, i, sighash_type, mid, outcome),
            !(outcome is Failed),
        ensures
            outcome is Skipped ==> mid == tx && self.may_leave(account, target, tx),
            outcome is Signed ==> self.signed_for_stealth(
                account,
                target,
                sighash_type,
                tx,
                mid,
                i,
            ) && exists|key: Option<[u8; 33]>|
                mid.inputs@[i] == #[trigger] single_signed(
                    tx.inputs@[i],
                    mid.inputs@[i].signature,
                    sighash_type,
                    0,
                    key,
                ),
    {
        let base = account.private_key@;
        let tweak = tx.stealth_tweak@;
        lemma_spending_number(base, tweak);
        if stealth_scalar(base, tweak) != 0 {
            let k = choose|k: [u8; 32]|
                #![trigger bytes::be_nat(k@)]
                {
                    let public: [u8; 33] = bytes::array_of(crypto::generator_multiple(k@));
                    &&& bytes::be_nat(k@) == stealth_scalar(base, tweak)
                    &&& if keys::x_only(public) == target {
                        self.signs_one(tx, i, k, Some(public), sighash_type, mid, outcome)
                    } else {
                        outcome == InputOutcome::Skipped && mid == tx
                    }
                };
            let public: [u8; 33] = bytes::array_of(crypto::generator_multiple(k@));
            if keys::x_only(public) == target {
                self.lemma_one_signed(k, Some(public), sighash_type, tx, i, mid, outcome);
            }
            assert(bytes::be_nat(k@) == spending_number(base, tweak));
        }
    }

    /// What became of an input is not changed by what happens to others.
    proof fn lemma_accounted_moves(
        &self,
        account: ExtendedPrivKey,
        sighash_type: SigHashType,
        tx: Transaction,
        mid: Transaction,
        after: Transaction,
        i: int,
        j: int,
    )
        requires
            0 <= i < MAX_INPUTS,
            0 <= j < MAX_INPUTS,
            mid == tx.with_input(i, mid.inputs@[i]),
            i == j ==> self.accounted(account, sighash_type, tx, mid, j) && after.inputs@[j]
                == mid.inputs@[j] && forall|k: int|
                0 <= k < j ==> #[trigger] after.inputs@[k] == mid.inputs@[k],
            i < j ==> self.accounted(account, sighash_type, mid, after, j),
            i <= j,
        ensures
            self.accounted(account, sighash_type, tx, after, j),
    {
        let spk = tx.inputs@[j].utxo_entry.script_public_key;
        let target: [u8; 32] = bytes::array_of(spk.script@.subrange(1, 33));
        let x = after.inputs@[j];
        if i < j {
            assert(mid.inputs@[j] == tx.inputs@[j]);
        }
        let (from, to) = if i == j {
            (tx, mid)
        } else {
            (mid, after)
        };
        if self.signed_for_address(account, target, sighash_type, from, to, j) {
            let key = choose|key: ExtendedPrivKey| #[trigger]
                self.may_own(account, target, key) && signer_returns(
                    self.sign_input,
                    key.private_key,
                    sighash_type,
                    from,
                    to,
                    j,
                    Ok(x.signature),
                ) && notes_public_key(key.private_key, to.inputs@[j].sigs@[0]);
            self.lemma_returns_moves(
                key.private_key,
                sighash_type,
                tx,
                mid,
                after,
                i,
                j,
                Ok(x.signature),
            );
        }
        if self.signed_for_stealth(account, target, sighash_type, from, to, j) {
            let k = choose|k: [u8; 32]|
                #![trigger bytes::be_nat(k@)]
                {
                    &&& bytes::be_nat(k@) == spending_number(
                        account.private_key@,
                        from.stealth_tweak@,
                    )
                    &&& keys::x_only(bytes::array_of(crypto::generator_multiple(k@))) == target
                    &&& signer_returns(
                        self.sign_input,
                        k,
                        sighash_type,
                        from,
                        to,
                        j,
                        Ok(x.signature),
                    )
                    &&& notes_public_key(k, to.inputs@[j].sigs@[0])
                };
            self.lemma_returns_moves(
                k,
                sighash_type,
                tx,
                mid,
                after,
                i,
                j,
                Ok(x.signature),
            );
            assert(bytes::be_nat(k@) == spending_number(
                account.private_key@,
                tx.stealth_tweak@,
            ));
        }
    }

    proof fn lemma_returns_moves(
        &self,
        private_key: [u8; 32],
        sighash_type: SigHashType,
        tx: Transaction,
        mid: Transaction,
        after: Transaction,
        i: int,
        j: int,
        r: Result<[u8; 64], ()>,
    )
        requires
            0 <= i < MAX_INPUTS,
            i <= j,
            mid == tx.with_input(i, mid.inputs@[i]),
            i == j ==> signer_returns(
                self.sign_input,
                private_key,
                sighash_type,
                tx,
                mid,
                j,
                r,
            ) && forall|k: int| 0 <= k < j ==> #[trigger] after.inputs@[k] == mid.inputs@[k],
            i < j ==> signer_returns(
                self.sign_input,
                private_key,
                sighash_type,
                mid,
                after,
                j,
                r,
            ),
        ensures
            signer_returns(self.sign_input, private_key, sighash_type, tx, after, j, r),
    {
        if i == j {
            lemma_stage_until(self.sign_input, private_key, sighash_type, tx, mid, after, j, r);
        } else {
            lemma_stage(self.sign_input, private_key, sighash_type, tx, mid, after, i, j, r);
        }
    }

    /// The signer does not fail, and a stealth output can be checked for.
    pub open spec fn cannot_fail(&self, account: ExtendedPrivKey, tx: Transaction) -> bool {
        &&& forall|t: &Transaction, i: usize, k: &[u8; 32], s: SigHashType|
            !(#[trigger] call_ensures(
                self.sign_input,
                (t, i, k, s),
                Err::<[u8; 64], ()>(()),
            ))
        &&& tx.has_stealth_tweak ==> bytes::be_nat(account.private_key@) < crypto::group_order()
            && bytes::be_nat(tx.stealth_tweak@) < crypto::group_order()
    }

    proof fn lemma_does_not_fail(
        &self,
        account: ExtendedPrivKey,
        sighash_type: SigHashType,
        tx: Transaction,
        i: int,
        mid: Transaction,
        outcome: InputOutcome,
    )
        requires
            0 <= i < MAX_INPUTS,
            self.signs_input(account, tx, i, sighash_type, mid, outcome),
            self.cannot_fail(account, tx),
        ensures
            !(outcome is Failed),
            outcome is Skipped ==> mid == tx,
    {
        assert forall|k: [u8; 32], key: Option<[u8; 33]>| #[trigger]
            self.signs_one(tx, i, k, key, sighash_type, mid, outcome) implies outcome is Signed by {
            let g = choose|g: Result<[u8; 64], ()>|
                #![trigger call_ensures(self.sign_input, (&tx, i as usize, &k, sighash_type), g)]
                {
                    &&& call_ensures(self.sign_input, (&tx, i as usize, &k, sighash_type), g)
                    &&& match g {
                        Ok(signature) => {
                            &&& outcome == InputOutcome::Signed
                            &&& mid == tx.with_input(
                                i,
                                single_signed(tx.inputs@[i], signature, sighash_type, 0, key),
                            )
                        },
                        Err(_) => outcome == InputOutcome::Failed && mid == tx,
                    }
                };
            match g {
                Ok(_) => {},
                Err(e) => {
                    assert(e == ());
                },
            }
        }
    }

    proof fn lemma_accounted(
        &self,
        account: ExtendedPrivKey,
        sighash_type: SigHashType,
        tx: Transaction,
        i: int,
        n: int,
        count: int,
        after: Transaction,
        r: Result<usize, PsktError>,
    )
        requires
            0 <= i <= n <= MAX_INPUTS,
            0 <= count <= i,
            self.signs_from(account, sighash_type, tx, i, n, count, after, r),
            r is Ok || self.cannot_fail(account, tx),
        ensures
            forall|j: int|
                i <= j < n ==> #[trigger] self.accounted(account, sighash_type, tx, after, j),
            r is Err ==> count == 0 && after == tx,
        decreases n - i,
    {
        if i < n {
            let (mid, outcome) = choose|mid: Transaction, outcome: InputOutcome| #[trigger]
                self.signs_input(account, tx, i, sighash_type, mid, outcome) && match outcome {
                    InputOutcome::Failed => after == mid && r == Err::<usize, PsktError>(
                        PsktError::NoInputs,
                    ),
                    InputOutcome::Skipped => self.signs_from(
                        account,
                        sighash_type,
                        mid,
                        i + 1,
                        n,
                        count,
                        after,
                        r,
                    ),
                    InputOutcome::Signed => self.signs_from(
                        account,
                        sighash_type,
                        mid,
                        i + 1,
                        n,
                        count + 1,
                        after,
                        r,
                    ),
                };
            let next = if outcome is Signed {
                count + 1
            } else {
                count
            };
            if self.cannot_fail(account, tx) {
                self.lemma_does_not_fail(account, sighash_type, tx, i, mid, outcome);
            }
            lemma_signed_singly(self, account, sighash_type, tx, i, mid, outcome);
            self.lemma_accounted_here(account, sighash_type, tx, i, mid, outcome);
            self.lemma_accounted(account, sighash_type, mid, i + 1, n, next, after, r);
            let _marks = lemma_multi_addr(
                self,
                account,
                sighash_type,
                mid,
                i + 1,
                n,
                next,
                after,
                r,
            );
            assert forall|j: int| i <= j < n implies #[trigger] self.accounted(
                account,
                sighash_type,
                tx,
                after,
                j,
            ) by {
                if j > i {
                    assert(self.accounted(account, sighash_type, mid, after, j));
                }
                self.lemma_accounted_moves(account, sighash_type, tx, mid, after, i, j);
            }
        }
    }

    /// When signing with the keys of an account succeeds, every input that
    /// pays to a single key is signed, at whatever index, with the key of the
    /// address that it pays to, or as a stealth output; it is left alone only
    /// if the search does not find its key and it is no stealth output, or if
    /// the key found cannot be derived. Where the search finds its key and
    /// the key can be derived, whatever the outcomes, it is signed with such
    /// a key.
    pub proof fn law_account_signs_all_that_it_owns(
        &self,
        account: ExtendedPrivKey,
        sighash_type: SigHashType,
        tx: Transaction,
        after: Transaction,
        r: Result<usize, PsktError>,
        j: int,
    )
        requires
            tx.num_inputs <= MAX_INPUTS,
            self.signs_from(
                account,
                sighash_type,
                tx,
                0,
                tx.num_inputs as int,
                0,
                after,
                r,
            ),
            r is Ok,
            0 <= j < tx.num_inputs,
        ensures
            self.accounted(account, sighash_type, tx, after, j),
            ({
                let spk = tx.inputs@[j].utxo_entry.script_public_key;
                let target: [u8; 32] = bytes::array_of(spk.script@.subrange(1, 33));
                &&& spk.script_len == 34 && spk.script@[0] == 0x20 && spk.script@[33] == 0xAC
                &&& !call_ensures(
                    self.find_address_index_for_pubkey,
                    (&account, &target),
                    None::<(u32, bool)>,
                )
                &&& forall|index: u32|
                    !(#[trigger] call_ensures(
                        self.derive_address_key,
                        (&account, index),
                        Err::<ExtendedPrivKey, ()>(()),
                    ))
                &&& forall|index: u32|
                    !(#[trigger] call_ensures(
                        self.derive_change_key,
                        (&account, index),
                        Err::<ExtendedPrivKey, ()>(()),
                    ))
            }) ==> {
                let spk = tx.inputs@[j].utxo_entry.script_public_key;
                let target: [u8; 32] = bytes::array_of(spk.script@.subrange(1, 33));
                &&& after.inputs@[j].sig_len == 64
                &&& after.inputs@[j].sig_count == 1
                &&& self.signed_for_address(account, target, sighash_type, tx, after, j)
            },
    {
        self.lemma_accounted(
            account,
            sighash_type,
            tx,
            0,
            tx.num_inputs as int,
            0,
            after,
            r,
        );
        assert(self.accounted(account, sighash_type, tx, after, j));
    }

    /// Where the signer does not fail and a stealth output can be checked for,
    /// signing with the keys of an account fails only if it leaves every
    /// input as it was, and for each there is a reason to.
    pub proof fn law_account_signing_fails_only_for_want_of_keys(
        &self,
        account: ExtendedPrivKey,
        sighash_type: SigHashType,
        tx: Transaction,
        after: Transaction,
        r: Result<usize, PsktError>,
        j: int,
    )
        requires
            tx.num_inputs <= MAX_INPUTS,
            self.signs_from(
                account,
                sighash_type,
                tx,
                0,
                tx.num_inputs as int,
                0,
                after,
                r,
            ),
            self.cannot_fail(account, tx),
            0 <= j < tx.num_inputs,
        ensures
            self.accounted(account, sighash_type, tx, after, j),
            r is Err ==> after == tx,
    {
        self.lemma_accounted(
            account,
            sighash_type,
            tx,
            0,
            tx.num_inputs as int,
            0,
            after,
            r,
        );
        assert(self.accounted(account, sighash_type, tx, after, j));
    }
}

/// The public key that is noted with a signature is that of the private key,
/// where it has one.
pub open spec fn notes_public_key(private_key: [u8; 32], slot: InputSig) -> bool {
    0 < bytes::be_nat(private_key@) < crypto::group_order() ==> slot.pubkey_compressed
        == bytes::array_of::<33>(crypto::generator_multiple(private_key@))
}

/// The number of the key that spends an output to a stealth address.
pub open spec fn spending_number(account: Seq<u8>, tweak: Seq<u8>) -> nat {
    let order = crypto::group_order();
    let even = if crypto::generator_multiple(account)[0] == 3 {
        order - bytes::be_nat(account)
    } else {
        bytes::be_nat(account) as int
    };
    ((even + bytes::be_nat(tweak)) % (order as int)) as nat
}

proof fn lemma_spending_number(account: Seq<u8>, tweak: Seq<u8>)
    ensures
        bytes::be_nat(account) < crypto::group_order() ==> spending_number(account, tweak)
            == stealth_scalar(account, tweak),
{
    let order = crypto::group_order() as int;
    if bytes::be_nat(account) < order && crypto::generator_multiple(account)[0] == 3 {
        let a = order - bytes::be_nat(account);
        let t = bytes::be_nat(tweak) as int;
        if a == order {
            assert(a % order == 0) by {
                vstd::arithmetic::div_mod::lemma_mod_self_0(order);
            }
            vstd::arithmetic::div_mod::lemma_mod_add_multiples_vanish(t, order);
        } else {
            vstd::arithmetic::div_mod::lemma_small_mod(a as nat, order as nat);
        }
    }
}

} // verus!
