//! Signing with the keys of several seeds: single-key, multisig and covenant
//! inputs.
//!
//! As in [`crate::wallet::signing`], contracts relate the transaction before
//! and after to the outcomes of the calls that derive keys and sign.
use crate::bytes;
use crate::wallet::covenant;
use crate::wallet::keys;
use crate::wallet::keys::{ExtendedPrivKey, KeySource};
use crate::wallet::pskt::PsktError;
use crate::wallet::script::{MultisigInfo, ScriptType};
use crate::wallet::signing;
use crate::wallet::status;
use crate::wallet::transaction::{
    SigHashType, Transaction, TransactionInput, MAX_INPUTS, MAX_MULTISIG_KEYS, MAX_SIGS_PER_INPUT,
};
use vstd::prelude::*;

verus! {

/// Most seeds that take part.
pub const MAX_SEEDS: usize = 8;

/// The account key of a seed, with its public key.
pub struct SeedSlot {
    pub account: ExtendedPrivKey,
    pub public_key: Option<[u8; 33]>,
}

/// Whose signature an input asks for.
#[derive(Clone, Copy)]
pub enum Task {
    /// The key of an address.
    Address { target: [u8; 32] },
    /// The key at position `pos` of `n` multisig keys.
    Position { pubkeys: [[u8; 32]; MAX_MULTISIG_KEYS], n: u8, pos: u8 },
    /// A key of a covenant script; when a seed is active, of that seed only.
    Covenant { target: [u8; 32], active: Option<usize> },
}

impl Task {
    /// A position is one of the multisig keys.
    pub open spec fn wf(self) -> bool {
        self matches Task::Position { n, pos, .. } ==> pos < n <= MAX_MULTISIG_KEYS
    }
}

/// A signature, and the public key that it goes with.
pub type Signed = ([u8; 64], Option<[u8; 33]>);

/// The first of the `n` keys from `p` on that is the account key of a slot.
pub open spec fn account_position(
    slot: SeedSlot,
    pubkeys: [[u8; 32]; MAX_MULTISIG_KEYS],
    n: int,
    p: int,
) -> Option<int>
    decreases n - p,
{
    if p >= n || slot.public_key is None {
        None
    } else if keys::x_only(slot.public_key.unwrap()) == pubkeys@[p] {
        Some(p)
    } else {
        account_position(slot, pubkeys, n, p + 1)
    }
}

/// A signature for this position is there already.
pub open spec fn has_position(input: TransactionInput, pos: int) -> bool {
    exists|s: int|
        0 <= s < input.sig_count && #[trigger] input.sigs@[s].present && input.sigs@[s].pubkey_pos
            == pos
}

/// An input with one more signature, if a slot is free.
pub open spec fn appended(
    input: TransactionInput,
    signed: Signed,
    sighash_type: SigHashType,
    pos: u8,
) -> TransactionInput {
    let c = input.sig_count as int;
    if c < MAX_SIGS_PER_INPUT {
        TransactionInput {
            sigs: vstd::array::spec_array_update(
                input.sigs,
                c,
                signing::filled(input.sigs@[c], signed.0, sighash_type, pos, signed.1),
            ),
            sig_count: (c + 1) as u8,
            ..input
        }
    } else {
        input
    }
}

/// `after` is `before` with more signatures behind those that are there.
pub open spec fn keeps_signatures(before: TransactionInput, after: TransactionInput) -> bool {
    &&& signing::resigned(before, after)
    &&& before.sig_count <= after.sig_count
    &&& forall|s: int|
        0 <= s < before.sig_count && s < MAX_SIGS_PER_INPUT ==> #[trigger] after.sigs@[s]
            == before.sigs@[s]
}

/// An input whose fields for single-signature readers are set from its first
/// signature, unless they are set.
pub open spec fn synced(input: TransactionInput) -> TransactionInput {
    if input.sig_count > 0 && input.sig_len == 0 {
        TransactionInput {
            signature: input.sigs@[0].signature,
            sig_len: 64,
            sighash_type: input.sigs@[0].sighash_type,
            ..input
        }
    } else {
        input
    }
}

impl<A, F, T, D, C, S> KeySource<A, F, T, D, C, S> where
    A: Fn(&[u8; 64]) -> Result<ExtendedPrivKey, ()>,
    F: Fn(&ExtendedPrivKey, &[u8; 32]) -> Option<(u32, bool)>,
    T: Fn(&ExtendedPrivKey, &[u8; 32]) -> Option<(u32, bool)>,
    D: Fn(&ExtendedPrivKey, u32) -> Result<ExtendedPrivKey, ()>,
    C: Fn(&ExtendedPrivKey, u32) -> Result<ExtendedPrivKey, ()>,
    S: Fn(&Transaction, usize, &[u8; 32], SigHashType) -> Result<[u8; 64], ()>,
 {
    /// Loading a seed can lead to `slot`: its account key, or nothing where
    /// there is no seed or it has no account key.
    pub open spec fn loads(&self, seed: ([u8; 64], bool), slot: Option<SeedSlot>) -> bool {
        if seed.1 {
            exists|a: Result<ExtendedPrivKey, ()>|
                #![trigger call_ensures(self.derive_account_key, (&seed.0,), a)]
                {
                    &&& call_ensures(self.derive_account_key, (&seed.0,), a)
                    &&& match a {
                        Ok(account) => slot == Some(
                            SeedSlot {
                                account,
                                public_key: keys::compressed_key(account.private_key@),
                            },
                        ),
                        Err(_) => slot is None,
                    }
                }
        } else {
            slot is None
        }
    }

    /// Loading the first seeds can lead to `slots`.
    pub open spec fn loads_all(
        &self,
        seeds: Seq<([u8; 64], bool)>,
        slots: Seq<Option<SeedSlot>>,
    ) -> bool {
        &&& slots.len() == if seeds.len() < MAX_SEEDS {
            seeds.len()
        } else {
            MAX_SEEDS as nat
        }
        &&& forall|s: int| 0 <= s < slots.len() ==> self.loads(seeds[s], #[trigger] slots[s])
    }

    /// Signing input `i` with one key can lead to `t`.
    pub open spec fn tries_key(
        &self,
        tx: Transaction,
        i: int,
        private_key: [u8; 32],
        key: Option<[u8; 33]>,
        sighash_type: SigHashType,
        t: Option<Signed>,
    ) -> bool {
        exists|g: Result<[u8; 64], ()>|
            #![trigger call_ensures(self.sign_input, (&tx, i as usize, &private_key, sighash_type), g)]
            {
                &&& call_ensures(self.sign_input, (&tx, i as usize, &private_key, sighash_type), g)
                &&& t == match g {
                    Ok(signature) => Some((signature, key)),
                    Err(_) => None,
                }
            }
    }

    /// Searching the addresses of an account for a key can lead to `found`:
    /// all of them, or those of the table.
    pub open spec fn finds(
        &self,
        account: ExtendedPrivKey,
        target: [u8; 32],
        in_table: bool,
        found: Option<(u32, bool)>,
    ) -> bool {
        if in_table {
            call_ensures(self.find_by_pubkey, (&account, &target), found)
        } else {
            call_ensures(self.find_address_index_for_pubkey, (&account, &target), found)
        }
    }

    /// Signing input `i` with the key of an address of the account, if it is
    /// one, can lead to `t`.
    pub open spec fn tries_address(
        &self,
        account: ExtendedPrivKey,
        target: [u8; 32],
        in_table: bool,
        tx: Transaction,
        i: int,
        sighash_type: SigHashType,
        t: Option<Signed>,
    ) -> bool {
        exists|found: Option<(u32, bool)>| #[trigger]
            self.finds(account, target, in_table, found) && match found {
                Some((index, is_change)) => exists|k: Result<ExtendedPrivKey, ()>| #[trigger]
                    self.derives(account, index, is_change, k) && match k {
                        Ok(key) => self.tries_key(
                            tx,
                            i,
                            key.private_key,
                            keys::compressed_key(key.private_key@),
                            sighash_type,
                            t,
                        ),
                        Err(_) => t is None,
                    },
                None => t is None,
            }
    }

    /// Trying the keys of seed `s` can lead to `t`.
    pub open spec fn tries_slot(
        &self,
        task: Task,
        slot: Option<SeedSlot>,
        s: int,
        tx: Transaction,
        i: int,
        sighash_type: SigHashType,
        t: Option<Signed>,
    ) -> bool {
        match (slot, task) {
            (None, _) => t is None,
            (Some(slot), Task::Address { target }) => self.tries_address(
                slot.account,
                target,
                false,
                tx,
                i,
                sighash_type,
                t,
            ),
            (Some(slot), Task::Position { pubkeys, n, pos }) => if account_position(
                slot,
                pubkeys,
                n as int,
                0,
            ) == Some(pos as int) {
                self.tries_key(
                    tx,
                    i,
                    slot.account.private_key,
                    slot.public_key,
                    sighash_type,
                    t,
                )
            } else {
                self.tries_address(
                    slot.account,
                    pubkeys@[pos as int],
                    true,
                    tx,
                    i,
                    sighash_type,
                    t,
                )
            },
            (Some(slot), Task::Covenant { target, active }) => if active is Some && active
                != Some(s as usize) {
                t is None
            } else if slot.public_key is Some && keys::x_only(slot.public_key.unwrap()) == target {
                exists|u: Option<Signed>| #[trigger]
                    self.tries_key(
                        tx,
                        i,
                        slot.account.private_key,
                        slot.public_key,
                        sighash_type,
                        u,
                    ) && if u is Some {
                        t == u
                    } else {
                        self.tries_address(slot.account, target, true, tx, i, sighash_type, t)
                    }
            } else {
                self.tries_address(slot.account, target, true, tx, i, sighash_type, t)
            },
        }
    }

    /// Trying the seeds from `s` on, until one signs, can lead to `t`.
    pub open spec fn tries_seeds(
        &self,
        task: Task,
        slots: Seq<Option<SeedSlot>>,
        s: int,
        tx: Transaction,
        i: int,
        sighash_type: SigHashType,
        t: Option<Signed>,
    ) -> bool
        decreases slots.len() - s,
    {
        if s >= slots.len() {
            t is None
        } else {
            exists|u: Option<Signed>| #[trigger]
                self.tries_slot(task, slots[s], s, tx, i, sighash_type, u) && if u is Some {
                    t == u
                } else {
                    self.tries_seeds(task, slots, s + 1, tx, i, sighash_type, t)
                }
        }
    }

    /// Signing the multisig positions from `pos` on, after `count` new
    /// signatures, can lead from `tx` to `after` and `total` new signatures.
    pub open spec fn signs_positions(
        &self,
        ms: MultisigInfo,
        slots: Seq<Option<SeedSlot>>,
        sighash_type: SigHashType,
        tx: Transaction,
        i: int,
        pos: int,
        count: int,
        after: Transaction,
        total: int,
    ) -> bool
        decreases ms.n - pos,
    {
        if pos >= ms.n {
            after == tx && total == count
        } else if has_position(tx.inputs@[i], pos) {
            self.signs_positions(ms, slots, sighash_type, tx, i, pos + 1, count, after, total)
        } else {
            let task = Task::Position { pubkeys: ms.pubkeys, n: ms.n, pos: pos as u8 };
            exists|t: Option<Signed>| #[trigger]
                self.tries_seeds(task, slots, 0, tx, i, sighash_type, t) && match t {
                    Some(signed) => self.signs_positions(
                        ms,
                        slots,
                        sighash_type,
                        tx.with_input(
                            i,
                            appended(tx.inputs@[i], signed, sighash_type, pos as u8),
                        ),
                        i,
                        pos + 1,
                        if tx.inputs@[i].sig_count < MAX_SIGS_PER_INPUT {
                            count + 1
                        } else {
                            count
                        },
                        after,
                        total,
                    ),
                    None => self.signs_positions(
                        ms,
                        slots,
                        sighash_type,
                        tx,
                        i,
                        pos + 1,
                        count,
                        after,
                        total,
                    ),
                }
        }
    }

    /// Signing for one of the covenant keys from `c` on can lead from `tx` to
    /// `after` and `added` new signatures.
    pub open spec fn signs_covenant(
        &self,
        candidates: Seq<[u8; 32]>,
        active: Option<usize>,
        slots: Seq<Option<SeedSlot>>,
        sighash_type: SigHashType,
        tx: Transaction,
        i: int,
        c: int,
        after: Transaction,
        added: int,
    ) -> bool
        decreases candidates.len() - c,
    {
        if c >= candidates.len() {
            after == tx && added == 0
        } else {
            let task = Task::Covenant { target: candidates[c], active };
            exists|t: Option<Signed>| #[trigger]
                self.tries_seeds(task, slots, 0, tx, i, sighash_type, t) && match t {
                    Some(signed) => {
                        &&& added == 1
                        &&& after == tx.with_input(
                            i,
                            signing::single_signed(
                                tx.inputs@[i],
                                signed.0,
                                sighash_type,
                                c as u8,
                                signed.1,
                            ),
                        )
                    },
                    None => self.signs_covenant(
                        candidates,
                        active,
                        slots,
                        sighash_type,
                        tx,
                        i,
                        c + 1,
                        after,
                        added,
                    ),
                }
        }
    }

    /// Signing a single-key input for its key can lead from `tx` to `after`
    /// and `added` new signatures.
    pub open spec fn signs_address(
        &self,
        slots: Seq<Option<SeedSlot>>,
        sighash_type: SigHashType,
        tx: Transaction,
        i: int,
        after: Transaction,
        added: int,
    ) -> bool {
        let spk = tx.inputs@[i].utxo_entry.script_public_key;
        let task = Task::Address { target: bytes::array_of(spk.script@.subrange(1, 33)) };
        exists|t: Option<Signed>| #[trigger]
            self.tries_seeds(task, slots, 0, tx, i, sighash_type, t) && match t {
                Some(signed) => {
                    &&& added == 1
                    &&& after == tx.with_input(
                        i,
                        signing::single_signed(
                            tx.inputs@[i],
                            signed.0,
                            sighash_type,
                            0,
                            signed.1,
                        ),
                    )
                },
                None => after == tx && added == 0,
            }
    }

    /// Signing a multisig input can lead from `tx` to `after` and `added` new
    /// signatures.
    pub open spec fn signs_multisig(
        &self,
        ms: MultisigInfo,
        slots: Seq<Option<SeedSlot>>,
        sighash_type: SigHashType,
        tx: Transaction,
        i: int,
        after: Transaction,
        added: int,
    ) -> bool {
        exists|mid: Transaction| #[trigger]
            self.signs_positions(ms, slots, sighash_type, tx, i, 0, 0, mid, added) && after
                == mid.with_input(i, synced(mid.inputs@[i]))
    }

    /// Signing input `i` can lead from `tx` to `after` and `added` new
    /// signatures. A single-key or covenant input that is signed is left
    /// alone, and so is a script of an unknown kind.
    pub open spec fn cosigns_input(
        &self,
        slots: Seq<Option<SeedSlot>>,
        sighash_type: SigHashType,
        active: Option<usize>,
        tx: Transaction,
        i: int,
        after: Transaction,
        added: int,
    ) -> bool {
        let input = tx.inputs@[i];
        let candidates = covenant::candidates(tx.redeem(i));
        match status::analysis(tx, i) {
            (ScriptType::Unknown, _) => after == tx && added == 0,
            (ScriptType::P2PK, _) => if input.sig_len > 0 {
                after == tx && added == 0
            } else {
                self.signs_address(slots, sighash_type, tx, i, after, added)
            },
            (_, Some(ms)) => self.signs_multisig(ms, slots, sighash_type, tx, i, after, added),
            (_, None) => if input.sig_count > 0 {
                after == tx && added == 0
            } else {
                self.signs_covenant(
                    candidates,
                    active,
                    slots,
                    sighash_type,
                    tx,
                    i,
                    0,
                    after,
                    added,
                )
            },
        }
    }

    /// Signing the inputs from `i` to `n`, after `count` new signatures, can
    /// lead from `tx` to `after` and `total` new signatures.
    pub open spec fn cosigns_from(
        &self,
        slots: Seq<Option<SeedSlot>>,
        sighash_type: SigHashType,
        active: Option<usize>,
        tx: Transaction,
        i: int,
        n: int,
        count: int,
        after: Transaction,
        total: int,
    ) -> bool
        decreases n - i,
    {
        if i >= n {
            after == tx && total == count
        } else {
            exists|mid: Transaction, added: int| #[trigger]
                self.cosigns_input(slots, sighash_type, active, tx, i, mid, added)
                    && self.cosigns_from(
                    slots,
                    sighash_type,
                    active,
                    mid,
                    i + 1,
                    n,
                    count + added,
                    after,
                    total,
                )
        }
    }

    /// Signing with the keys of the first seeds can lead from `tx` to `after`
    /// and `total` new signatures.
    pub open spec fn cosigns(
        &self,
        seeds: Seq<([u8; 64], bool)>,
        sighash_type: SigHashType,
        active: Option<usize>,
        tx: Transaction,
        after: Transaction,
        total: int,
    ) -> bool {
        exists|slots: Seq<Option<SeedSlot>>| #[trigger]
            self.loads_all(seeds, slots) && self.cosigns_from(
                slots,
                sighash_type,
                active,
                tx,
                0,
                tx.num_inputs as int,
                0,
                after,
                total,
            )
    }
}

/// Whether a signature for this position is there already.
fn position_signed(input: &TransactionInput, pos: u8) -> (r: bool)
    requires
        input.sig_count <= MAX_SIGS_PER_INPUT,
    ensures
        r == has_position(*input, pos as int),
{
    let mut s: usize = 0;
    while s < input.sig_count as usize
        invariant
            s <= input.sig_count <= MAX_SIGS_PER_INPUT,
            forall|j: int|
                0 <= j < s ==> !(#[trigger] input.sigs@[j].present && input.sigs@[j].pubkey_pos
                    == pos),
        decreases input.sig_count - s,
    {
        if input.sigs[s].present && input.sigs[s].pubkey_pos == pos {
            assert(input.sigs@[s as int].present);
            return true;
        }
        s += 1;
    }
    false
}

/// The first multisig position of the account key of a slot.
fn find_position(slot: &SeedSlot, pubkeys: &[[u8; 32]; MAX_MULTISIG_KEYS], n: u8) -> (r: Option<u8>)
    requires
        n <= MAX_MULTISIG_KEYS,
    ensures
        match r {
            Some(p) => account_position(*slot, *pubkeys, n as int, 0) == Some(p as int),
            None => account_position(*slot, *pubkeys, n as int, 0) is None,
        },
{
    let key = match &slot.public_key {
        Some(k) => k,
        None => {
            return None;
        },
    };
    let x: [u8; 32] = bytes::to_array(vstd::slice::slice_subrange(key.as_slice(), 1, 33));
    let mut p: u8 = 0;
    while p < n
        invariant
            p <= n <= MAX_MULTISIG_KEYS,
            slot.public_key == Some(*key),
            x == keys::x_only(*key),
            account_position(*slot, *pubkeys, n as int, 0) == account_position(
                *slot,
                *pubkeys,
                n as int,
                p as int,
            ),
        decreases n - p,
    {
        if bytes::slice_eq(x.as_slice(), pubkeys[p as usize].as_slice()) {
            assert(x =~= pubkeys@[p as int]);
            return Some(p);
        }
        p += 1;
    }
    None
}

/// Adds a signature to an input. Returns whether a slot was free.
fn append(input: &mut TransactionInput, signed: &Signed, sighash_type: SigHashType, pos: u8) -> (r:
    bool)
    ensures
        *final(input) == appended(*old(input), *signed, sighash_type, pos),
        r == (old(input).sig_count < MAX_SIGS_PER_INPUT),
{
    let c = input.sig_count as usize;
    if c < MAX_SIGS_PER_INPUT {
        signing::fill(&mut input.sigs[c], &signed.0, sighash_type, pos, signed.1);
        input.sig_count = input.sig_count + 1;
        true
    } else {
        false
    }
}

/// Sets the fields for single-signature readers, unless they are set.
fn sync(input: &mut TransactionInput)
    ensures
        *final(input) == synced(*old(input)),
{
    if input.sig_count > 0 && input.sig_len == 0 {
        input.signature = input.sigs[0].signature;
        input.sig_len = 64;
        input.sighash_type = input.sigs[0].sighash_type;
    }
}

impl<A, F, T, D, C, S> KeySource<A, F, T, D, C, S> where
    A: Fn(&[u8; 64]) -> Result<ExtendedPrivKey, ()>,
    F: Fn(&ExtendedPrivKey, &[u8; 32]) -> Option<(u32, bool)>,
    T: Fn(&ExtendedPrivKey, &[u8; 32]) -> Option<(u32, bool)>,
    D: Fn(&ExtendedPrivKey, u32) -> Result<ExtendedPrivKey, ()>,
    C: Fn(&ExtendedPrivKey, u32) -> Result<ExtendedPrivKey, ()>,
    S: Fn(&Transaction, usize, &[u8; 32], SigHashType) -> Result<[u8; 64], ()>,
 {
    fn load(&self, seed: &([u8; 64], bool)) -> (slot: Option<SeedSlot>)
        requires
            self.total(),
        ensures
            self.loads(*seed, slot),
    {
        if !seed.1 {
            return None;
        }
        match (self.derive_account_key)(&seed.0) {
            Ok(account) => {
                let public_key = match account.public_key_compressed() {
                    Ok(k) => Some(k),
                    Err(_) => None,
                };
                Some(SeedSlot { account, public_key })
            },
            Err(_) => None,
        }
    }

    fn try_key(
        &self,
        tx: &Transaction,
        i: usize,
        private_key: &[u8; 32],
        key: Option<[u8; 33]>,
        sighash_type: SigHashType,
    ) -> (t: Option<Signed>)
        requires
            self.total(),
        ensures
            self.tries_key(*tx, i as int, *private_key, key, sighash_type, t),
    {
        match (self.sign_input)(tx, i, private_key, sighash_type) {
            Ok(signature) => Some((signature, key)),
            Err(_) => None,
        }
    }

    fn try_address(
        &self,
        account: &ExtendedPrivKey,
        target: &[u8; 32],
        in_table: bool,
        tx: &Transaction,
        i: usize,
        sighash_type: SigHashType,
    ) -> (t: Option<Signed>)
        requires
            self.total(),
        ensures
            self.tries_address(*account, *target, in_table, *tx, i as int, sighash_type, t),
    {
        let found = if in_table {
            (self.find_by_pubkey)(account, target)
        } else {
            (self.find_address_index_for_pubkey)(account, target)
        };
        assert(self.finds(*account, *target, in_table, found));
        match found {
            Some((index, is_change)) => match self.derive_key(account, index, is_change) {
                Ok(key) => {
                    let public = match key.public_key_compressed() {
                        Ok(k) => Some(k),
                        Err(_) => None,
                    };
                    self.try_key(tx, i, key.private_key_bytes(), public, sighash_type)
                },
                Err(_) => None,
            },
            None => None,
        }
    }

    fn try_slot(
        &self,
        task: &Task,
        slot: &SeedSlot,
        s: usize,
        tx: &Transaction,
        i: usize,
        sighash_type: SigHashType,
    ) -> (t: Option<Signed>)
        requires
            self.total(),
            task.wf(),
        ensures
            self.tries_slot(*task, Some(*slot), s as int, *tx, i as int, sighash_type, t),
    {
        match task {
            Task::Address { target } => self.try_address(
                &slot.account,
                target,
                false,
                tx,
                i,
                sighash_type,
            ),
            Task::Position { pubkeys, n, pos } => if find_position(slot, pubkeys, *n) == Some(
                *pos,
            ) {
                self.try_key(
                    tx,
                    i,
                    slot.account.private_key_bytes(),
                    slot.public_key,
                    sighash_type,
                )
            } else {
                self.try_address(
                    &slot.account,
                    &pubkeys[*pos as usize],
                    true,
                    tx,
                    i,
                    sighash_type,
                )
            },
            Task::Covenant { target, active } => {
                if let Some(a) = active {
                    if s != *a {
                        return None;
                    }
                }
                if let Some(key) = &slot.public_key {
                    let x: [u8; 32] = bytes::to_array(
                        vstd::slice::slice_subrange(key.as_slice(), 1, 33),
                    );
                    if bytes::slice_eq(x.as_slice(), target.as_slice()) {
                        assert(x =~= *target);
                        let u = self.try_key(
                            tx,
                            i,
                            slot.account.private_key_bytes(),
                            slot.public_key,
                            sighash_type,
                        );
                        if u.is_some() {
                            return u;
                        }
                    }
                }
                self.try_address(&slot.account, target, true, tx, i, sighash_type)
            },
        }
    }

    fn try_seeds(
        &self,
        task: &Task,
        slots: &Vec<Option<SeedSlot>>,
        tx: &Transaction,
        i: usize,
        sighash_type: SigHashType,
    ) -> (t: Option<Signed>)
        requires
            self.total(),
            task.wf(),
        ensures
            self.tries_seeds(*task, slots@, 0, *tx, i as int, sighash_type, t),
    {
        let mut s: usize = 0;
        while s < slots.len()
            invariant
                s <= slots.len(),
                self.total(),
                task.wf(),
                forall|t: Option<Signed>|
                    self.tries_seeds(*task, slots@, s as int, *tx, i as int, sighash_type, t)
                        ==> #[trigger] self.tries_seeds(
                        *task,
                        slots@,
                        0,
                        *tx,
                        i as int,
                        sighash_type,
                        t,
                    ),
            decreases slots.len() - s,
        {
            let u = match &slots[s] {
                Some(slot) => self.try_slot(task, slot, s, tx, i, sighash_type),
                None => None,
            };
            assert(self.tries_slot(
                *task,
                slots@[s as int],
                s as int,
                *tx,
                i as int,
                sighash_type,
                u,
            ));
            if u.is_some() {
                return u;
            }
            s += 1;
        }
        None
    }

    fn sign_positions(
        &self,
        ms: &MultisigInfo,
        slots: &Vec<Option<SeedSlot>>,
        sighash_type: SigHashType,
        tx: &mut Transaction,
        i: usize,
    ) -> (total: usize)
        requires
            self.total(),
            i < MAX_INPUTS,
            ms.n <= MAX_MULTISIG_KEYS,
            old(tx).inputs@[i as int].sig_count <= MAX_SIGS_PER_INPUT,
        ensures
            self.signs_positions(
                *ms,
                slots@,
                sighash_type,
                *old(tx),
                i as int,
                0,
                0,
                *final(tx),
                total as int,
            ),
            total <= MAX_MULTISIG_KEYS,
    {
        let mut total: usize = 0;
        let mut pos: u8 = 0;
        while pos < ms.n
            invariant
                pos <= ms.n <= MAX_MULTISIG_KEYS,
                i < MAX_INPUTS,
                self.total(),
                total <= pos,
                tx.inputs@[i as int].sig_count <= MAX_SIGS_PER_INPUT,
                forall|after: Transaction, sum: int|
                    self.signs_positions(
                        *ms,
                        slots@,
                        sighash_type,
                        *tx,
                        i as int,
                        pos as int,
                        total as int,
                        after,
                        sum,
                    ) ==> #[trigger] self.signs_positions(
                        *ms,
                        slots@,
                        sighash_type,
                        *old(tx),
                        i as int,
                        0,
                        0,
                        after,
                        sum,
                    ),
            decreases ms.n - pos,
        {
            let ghost before = *tx;
            if !position_signed(&tx.inputs[i], pos) {
                let task = Task::Position { pubkeys: ms.pubkeys, n: ms.n, pos };
                let t = self.try_seeds(&task, slots, tx, i, sighash_type);
                if let Some(signed) = t {
                    if append(&mut tx.inputs[i], &signed, sighash_type, pos) {
                        total += 1;
                    }
                    assert(*tx =~= before.with_input(
                        i as int,
                        appended(before.inputs@[i as int], signed, sighash_type, pos),
                    ));
                }
            }
            pos += 1;
        }
        total
    }

    fn sign_covenant(
        &self,
        candidates: &Vec<[u8; 32]>,
        active: Option<usize>,
        slots: &Vec<Option<SeedSlot>>,
        sighash_type: SigHashType,
        tx: &mut Transaction,
        i: usize,
    ) -> (added: usize)
        requires
            self.total(),
            i < MAX_INPUTS,
            candidates.len() <= covenant::MAX_CANDIDATES,
        ensures
            self.signs_covenant(
                candidates@,
                active,
                slots@,
                sighash_type,
                *old(tx),
                i as int,
                0,
                *final(tx),
                added as int,
            ),
            added <= 1,
    {
        let mut c: usize = 0;
        while c < candidates.len()
            invariant
                c <= candidates.len() <= covenant::MAX_CANDIDATES,
                i < MAX_INPUTS,
                self.total(),
                *tx == *old(tx),
                forall|after: Transaction, added: int|
                    self.signs_covenant(
                        candidates@,
                        active,
                        slots@,
                        sighash_type,
                        *tx,
                        i as int,
                        c as int,
                        after,
                        added,
                    ) ==> #[trigger] self.signs_covenant(
                        candidates@,
                        active,
                        slots@,
                        sighash_type,
                        *old(tx),
                        i as int,
                        0,
                        after,
                        added,
                    ),
            decreases candidates.len() - c,
        {
            let task = Task::Covenant { target: candidates[c], active };
            let t = self.try_seeds(&task, slots, tx, i, sighash_type);
            if let Some(signed) = t {
                signing::sign_single(
                    &mut tx.inputs[i],
                    &signed.0,
                    sighash_type,
                    c as u8,
                    signed.1,
                );
                return 1;
            }
            c += 1;
        }
        0
    }

    fn sign_address(
        &self,
        slots: &Vec<Option<SeedSlot>>,
        sighash_type: SigHashType,
        tx: &mut Transaction,
        i: usize,
    ) -> (added: usize)
        requires
            self.total(),
            i < MAX_INPUTS,
        ensures
            self.signs_address(slots@, sighash_type, *old(tx), i as int, *final(tx), added as int),
            added <= 1,
    {
        let spk = &tx.inputs[i].utxo_entry.script_public_key;
        let target: [u8; 32] = bytes::to_array(
            vstd::slice::slice_subrange(spk.script.as_slice(), 1, 33),
        );
        let task = Task::Address { target };
        let t = self.try_seeds(&task, slots, tx, i, sighash_type);
        match t {
            Some(signed) => {
                signing::sign_single(&mut tx.inputs[i], &signed.0, sighash_type, 0, signed.1);
                1
            },
            None => 0,
        }
    }

    fn cosign_input(
        &self,
        slots: &Vec<Option<SeedSlot>>,
        sighash_type: SigHashType,
        active: Option<usize>,
        tx: &mut Transaction,
        i: usize,
    ) -> (added: usize)
        requires
            self.total(),
            status::analyzable(*old(tx), i as int),
            status::analysis(*old(tx), i as int).1 is Some ==> old(tx).inputs@[i as int].sig_count
                <= MAX_SIGS_PER_INPUT,
        ensures
            self.cosigns_input(
                slots@,
                sighash_type,
                active,
                *old(tx),
                i as int,
                *final(tx),
                added as int,
            ),
            added <= MAX_MULTISIG_KEYS,
    {
        let (script_type, ms_info) = status::analyze_input_script(tx, i);
        match script_type {
            ScriptType::P2PK => {
                if tx.inputs[i].sig_len > 0 {
                    return 0;
                }
                self.sign_address(slots, sighash_type, tx, i)
            },
            ScriptType::Multisig | ScriptType::P2SH => {
                if let Some(ms) = ms_info {
                    let total = self.sign_positions(&ms, slots, sighash_type, tx, i);
                    sync(&mut tx.inputs[i]);
                    total
                } else {
                    if tx.inputs[i].sig_count > 0 {
                        return 0;
                    }
                    let candidates = covenant::candidate_keys(tx.redeem_bytes(i));
                    self.sign_covenant(&candidates, active, slots, sighash_type, tx, i)
                }
            },
            ScriptType::Unknown => 0,
        }
    }

    /// Signing multisig positions touches the signatures of that input only,
    /// keeps those that are there, and counts the new ones.
    pub proof fn lemma_positions(
        &self,
        ms: MultisigInfo,
        slots: Seq<Option<SeedSlot>>,
        sighash_type: SigHashType,
        tx: Transaction,
        i: int,
        pos: int,
        count: int,
        after: Transaction,
        total: int,
    )
        requires
            0 <= i < MAX_INPUTS,
            self.signs_positions(ms, slots, sighash_type, tx, i, pos, count, after, total),
        ensures
            after == tx.with_input(i, after.inputs@[i]),
            keeps_signatures(tx.inputs@[i], after.inputs@[i]),
            after.inputs@[i].signature == tx.inputs@[i].signature,
            after.inputs@[i].sig_len == tx.inputs@[i].sig_len,
            after.inputs@[i].sighash_type == tx.inputs@[i].sighash_type,
            total - count == after.inputs@[i].sig_count - tx.inputs@[i].sig_count,
            tx.inputs@[i].sig_count <= MAX_SIGS_PER_INPUT ==> after.inputs@[i].sig_count
                <= MAX_SIGS_PER_INPUT,
        decreases ms.n - pos,
    {
        broadcast use bytes::lemma_update_twice;

        if pos >= ms.n {
            assert(after.inputs =~= tx.with_input(i, after.inputs@[i]).inputs);
        } else if has_position(tx.inputs@[i], pos) {
            self.lemma_positions(
                ms,
                slots,
                sighash_type,
                tx,
                i,
                pos + 1,
                count,
                after,
                total,
            );
        } else {
            let task = Task::Position { pubkeys: ms.pubkeys, n: ms.n, pos: pos as u8 };
            let t = choose|t: Option<Signed>| #[trigger]
                self.tries_seeds(task, slots, 0, tx, i, sighash_type, t) && match t {
                    Some(signed) => self.signs_positions(
                        ms,
                        slots,
                        sighash_type,
                        tx.with_input(
                            i,
                            appended(tx.inputs@[i], signed, sighash_type, pos as u8),
                        ),
                        i,
                        pos + 1,
                        if tx.inputs@[i].sig_count < MAX_SIGS_PER_INPUT {
                            count + 1
                        } else {
                            count
                        },
                        after,
                        total,
                    ),
                    None => self.signs_positions(
                        ms,
                        slots,
                        sighash_type,
                        tx,
                        i,
                        pos + 1,
                        count,
                        after,
                        total,
                    ),
                };
            match t {
                Some(signed) => {
                    let mid = tx.with_input(
                        i,
                        appended(tx.inputs@[i], signed, sighash_type, pos as u8),
                    );
                    self.lemma_positions(
                        ms,
                        slots,
                        sighash_type,
                        mid,
                        i,
                        pos + 1,
                        if tx.inputs@[i].sig_count < MAX_SIGS_PER_INPUT {
                            count + 1
                        } else {
                            count
                        },
                        after,
                        total,
                    );
                },
                None => {
                    self.lemma_positions(
                        ms,
                        slots,
                        sighash_type,
                        tx,
                        i,
                        pos + 1,
                        count,
                        after,
                        total,
                    );
                },
            }
        }
    }

    proof fn lemma_covenant(
        &self,
        candidates: Seq<[u8; 32]>,
        active: Option<usize>,
        slots: Seq<Option<SeedSlot>>,
        sighash_type: SigHashType,
        tx: Transaction,
        i: int,
        c: int,
        after: Transaction,
        added: int,
    )
        requires
            0 <= i < MAX_INPUTS,
            self.signs_covenant(
                candidates,
                active,
                slots,
                sighash_type,
                tx,
                i,
                c,
                after,
                added,
            ),
        ensures
            after == tx.with_input(i, after.inputs@[i]),
            signing::resigned(tx.inputs@[i], after.inputs@[i]),
            added == 0 ==> after == tx,
            added == 0 || added == 1 && after.inputs@[i].sig_count == 1,
        decreases candidates.len() - c,
    {
        if c >= candidates.len() {
            assert(after.inputs =~= tx.with_input(i, after.inputs@[i]).inputs);
        } else {
            let task = Task::Covenant { target: candidates[c], active };
            let t = choose|t: Option<Signed>| #[trigger]
                self.tries_seeds(task, slots, 0, tx, i, sighash_type, t) && match t {
                    Some(signed) => {
                        &&& added == 1
                        &&& after == tx.with_input(
                            i,
                            signing::single_signed(
                                tx.inputs@[i],
                                signed.0,
                                sighash_type,
                                c as u8,
                                signed.1,
                            ),
                        )
                    },
                    None => self.signs_covenant(
                        candidates,
                        active,
                        slots,
                        sighash_type,
                        tx,
                        i,
                        c + 1,
                        after,
                        added,
                    ),
                };
            if t is None {
                self.lemma_covenant(
                    candidates,
                    active,
                    slots,
                    sighash_type,
                    tx,
                    i,
                    c + 1,
                    after,
                    added,
                );
            }
        }
    }

    /// Signing one input changes nothing but the signatures of that input.
    pub proof fn lemma_input(
        &self,
        slots: Seq<Option<SeedSlot>>,
        sighash_type: SigHashType,
        active: Option<usize>,
        tx: Transaction,
        i: int,
        after: Transaction,
        added: int,
    )
        requires
            0 <= i < MAX_INPUTS,
            self.cosigns_input(slots, sighash_type, active, tx, i, after, added),
        ensures
            after == tx.with_input(i, after.inputs@[i]),
            signing::resigned(tx.inputs@[i], after.inputs@[i]),
            signing::only_signatures(tx, after),
            status::analysis(tx, i).1 is Some ==> {
                &&& keeps_signatures(tx.inputs@[i], after.inputs@[i])
                &&& added == after.inputs@[i].sig_count - tx.inputs@[i].sig_count
            },
            status::analysis(tx, i).1 is Some && tx.inputs@[i].sig_count <= MAX_SIGS_PER_INPUT
                ==> after.inputs@[i].sig_count <= MAX_SIGS_PER_INPUT,
            status::analysis(tx, i).1 is None ==> {
                ||| added == 0 && after == tx
                ||| added == 1 && !status::input_signed(tx, i) && after.inputs@[i].sig_count == 1
            },
    {
        broadcast use bytes::lemma_update_twice;

        match status::analysis(tx, i) {
            (ScriptType::P2PK, _) => {},
            (ScriptType::Unknown, _) => {},
            (_, Some(ms)) => {
                let mid = choose|mid: Transaction| #[trigger]
                    self.signs_positions(ms, slots, sighash_type, tx, i, 0, 0, mid, added) && after
                        == mid.with_input(i, synced(mid.inputs@[i]));
                self.lemma_positions(ms, slots, sighash_type, tx, i, 0, 0, mid, added);
            },
            (_, None) => {
                if tx.inputs@[i].sig_count == 0 {
                    self.lemma_covenant(
                        covenant::candidates(tx.redeem(i)),
                        active,
                        slots,
                        sighash_type,
                        tx,
                        i,
                        0,
                        after,
                        added,
                    );
                }
            },
        }
        assert(after.inputs =~= tx.with_input(i, after.inputs@[i]).inputs);
    }
}

/// The scripts of all inputs can be read, and multisig inputs have no more
/// signatures than slots.
pub open spec fn cosignable(tx: Transaction) -> bool {
    &&& status::all_analyzable(tx)
    &&& forall|i: int|
        #![trigger tx.inputs@[i]]
        0 <= i < tx.num_inputs && status::analysis(tx, i).1 is Some ==> tx.inputs@[i].sig_count
            <= MAX_SIGS_PER_INPUT
}

/// Signs single-key, multisig and covenant inputs with the keys of the loaded
/// seeds, at most eight. A single-key input gets a signature from the first
/// seed that has its key; a multisig input gets one for each position whose
/// key a seed has, be it the account key (where it is listed first) or one of
/// the address table; a covenant input gets one, from the active seed if
/// there is one. Signatures of other signers stay. Returns the number of new
/// signatures.
pub fn sign_transaction_multisig<A, F, T, D, C, S>(
    tx: &mut Transaction,
    seeds: &[([u8; 64], bool)],
    sighash_type: SigHashType,
    active_seed_idx: Option<usize>,
    keys: &KeySource<A, F, T, D, C, S>,
) -> (r: Result<usize, PsktError>) where
    A: Fn(&[u8; 64]) -> Result<ExtendedPrivKey, ()>,
    F: Fn(&ExtendedPrivKey, &[u8; 32]) -> Option<(u32, bool)>,
    T: Fn(&ExtendedPrivKey, &[u8; 32]) -> Option<(u32, bool)>,
    D: Fn(&ExtendedPrivKey, u32) -> Result<ExtendedPrivKey, ()>,
    C: Fn(&ExtendedPrivKey, u32) -> Result<ExtendedPrivKey, ()>,
    S: Fn(&Transaction, usize, &[u8; 32], SigHashType) -> Result<[u8; 64], ()>,

    requires
        cosignable(*old(tx)),
        keys.total(),
    ensures
        r is Ok,
        signing::only_signatures(*old(tx), *final(tx)),
        cosignable(*final(tx)),
        keys.cosigns(
            seeds@,
            sighash_type,
            active_seed_idx,
            *old(tx),
            *final(tx),
            r.unwrap() as int,
        ),
{
    let mut slots: Vec<Option<SeedSlot>> = Vec::new();
    while slots.len() < seeds.len() && slots.len() < MAX_SEEDS
        invariant
            slots.len() <= seeds.len(),
            slots.len() <= MAX_SEEDS,
            keys.total(),
            forall|s: int| 0 <= s < slots@.len() ==> keys.loads(seeds@[s], #[trigger] slots@[s]),
        decreases MAX_SEEDS - slots.len(),
    {
        let slot = keys.load(&seeds[slots.len()]);
        slots.push(slot);
    }
    assert(keys.loads_all(seeds@, slots@));
    let n = tx.num_inputs;
    let mut total: usize = 0;
    let mut i: usize = 0;
    while i < n
        invariant
            i <= n <= MAX_INPUTS,
            n == old(tx).num_inputs,
            total <= MAX_MULTISIG_KEYS * i,
            keys.total(),
            cosignable(*old(tx)),
            *tx == (Transaction { inputs: tx.inputs, ..*old(tx) }),
            forall|j: int| i <= j < MAX_INPUTS ==> #[trigger] tx.inputs@[j] == old(tx).inputs@[j],
            forall|after: Transaction, sum: int|
                keys.cosigns_from(
                    slots@,
                    sighash_type,
                    active_seed_idx,
                    *tx,
                    i as int,
                    n as int,
                    total as int,
                    after,
                    sum,
                ) ==> #[trigger] keys.cosigns_from(
                    slots@,
                    sighash_type,
                    active_seed_idx,
                    *old(tx),
                    0,
                    n as int,
                    0,
                    after,
                    sum,
                ),
        decreases n - i,
    {
        let ghost before = *tx;
        assert(status::analyzable(*old(tx), i as int));
        assert(before.inputs@[i as int] == old(tx).inputs@[i as int]);
        assert(status::analysis(before, i as int) == status::analysis(*old(tx), i as int));
        let added = keys.cosign_input(&slots, sighash_type, active_seed_idx, tx, i);
        proof {
            keys.lemma_input(
                slots@,
                sighash_type,
                active_seed_idx,
                before,
                i as int,
                *tx,
                added as int,
            );
        }
        total += added;
        i += 1;
    }
    proof {
        law_cosigning_preserves(
            keys,
            slots@,
            sighash_type,
            active_seed_idx,
            *old(tx),
            *tx,
            total as int,
        );
    }
    Ok(total)
}

/// How many signatures input `i` gained: the new ones of a multisig input,
/// one for any other that changed.
pub open spec fn gained(tx: Transaction, after: Transaction, i: int) -> int {
    if status::analysis(tx, i).1 is Some {
        after.inputs@[i].sig_count - tx.inputs@[i].sig_count
    } else if after.inputs@[i] == tx.inputs@[i] {
        0
    } else {
        1
    }
}

/// How many signatures the inputs from `i` to `n` gained.
pub open spec fn gained_total(tx: Transaction, after: Transaction, i: int, n: int) -> int
    decreases n - i,
{
    if i >= n {
        0
    } else {
        gained(tx, after, i) + gained_total(tx, after, i + 1, n)
    }
}

/// Changing the signatures of one input does not change what the others are.
proof fn lemma_gained_total(
    tx: Transaction,
    mid: Transaction,
    after: Transaction,
    changed: int,
    i: int,
    n: int,
)
    requires
        0 <= changed < i <= n <= MAX_INPUTS,
        mid == tx.with_input(changed, mid.inputs@[changed]),
    ensures
        gained_total(tx, after, i, n) == gained_total(mid, after, i, n),
    decreases n - i,
{
    if i < n {
        assert(mid.inputs@[i] == tx.inputs@[i]);
        assert(status::analysis(mid, i) == status::analysis(tx, i));
        lemma_gained_total(tx, mid, after, changed, i + 1, n);
    }
}

/// What cosigning does to one input.
pub open spec fn input_kept(tx: Transaction, after: Transaction, i: int) -> bool {
    &&& status::analysis(after, i) == status::analysis(tx, i)
    &&& status::analysis(tx, i).1 is Some ==> keeps_signatures(tx.inputs@[i], after.inputs@[i])
    &&& status::analysis(tx, i).1 is Some && tx.inputs@[i].sig_count <= MAX_SIGS_PER_INPUT
        ==> after.inputs@[i].sig_count <= MAX_SIGS_PER_INPUT
    &&& status::analysis(tx, i).1 is None && status::input_signed(tx, i) ==> after.inputs@[i]
        == tx.inputs@[i]
    &&& status::input_signed(tx, i) ==> status::input_signed(after, i)
}

pub proof fn lemma_cosigns<A, F, T, D, C, S>(
    source: &KeySource<A, F, T, D, C, S>,
    slots: Seq<Option<SeedSlot>>,
    sighash_type: SigHashType,
    active: Option<usize>,
    tx: Transaction,
    i: int,
    n: int,
    count: int,
    after: Transaction,
    total: int,
) where
    A: Fn(&[u8; 64]) -> Result<ExtendedPrivKey, ()>,
    F: Fn(&ExtendedPrivKey, &[u8; 32]) -> Option<(u32, bool)>,
    T: Fn(&ExtendedPrivKey, &[u8; 32]) -> Option<(u32, bool)>,
    D: Fn(&ExtendedPrivKey, u32) -> Result<ExtendedPrivKey, ()>,
    C: Fn(&ExtendedPrivKey, u32) -> Result<ExtendedPrivKey, ()>,
    S: Fn(&Transaction, usize, &[u8; 32], SigHashType) -> Result<[u8; 64], ()>,

    requires
        0 <= i <= n <= MAX_INPUTS,
        source.cosigns_from(slots, sighash_type, active, tx, i, n, count, after, total),
    ensures
        signing::only_signatures(tx, after),
        forall|j: int|
            0 <= j < MAX_INPUTS && (j < i || j >= n) ==> #[trigger] after.inputs@[j]
                == tx.inputs@[j],
        forall|j: int| i <= j < n ==> #[trigger] input_kept(tx, after, j),
        total == count + gained_total(tx, after, i, n),
    decreases n - i,
{
    if i < n {
        let (mid, added) = choose|mid: Transaction, added: int| #[trigger]
            source.cosigns_input(slots, sighash_type, active, tx, i, mid, added)
                && source.cosigns_from(
                slots,
                sighash_type,
                active,
                mid,
                i + 1,
                n,
                count + added,
                after,
                total,
            );
        source.lemma_input(slots, sighash_type, active, tx, i, mid, added);
        lemma_cosigns(
            source,
            slots,
            sighash_type,
            active,
            mid,
            i + 1,
            n,
            count + added,
            after,
            total,
        );
        lemma_gained_total(tx, mid, after, i, i + 1, n);
        assert(after.inputs@[i] == mid.inputs@[i]);
        assert(added == gained(tx, after, i));
        assert forall|j: int| 0 <= j < MAX_INPUTS implies signing::resigned(
            tx.inputs@[j],
            #[trigger] after.inputs@[j],
        ) by {
            assert(signing::resigned(mid.inputs@[j], after.inputs@[j]));
        }
        assert forall|j: int| i <= j < n implies #[trigger] input_kept(tx, after, j) by {
            assert(signing::resigned(tx.inputs@[j], after.inputs@[j]));
            assert(status::analysis(after, j) == status::analysis(tx, j));
            if j > i {
                assert(input_kept(mid, after, j));
                assert(mid.inputs@[j] == tx.inputs@[j]);
                assert(status::analysis(mid, j) == status::analysis(tx, j));
            }
        }
    }
}

/// Cosigning changes nothing but signatures. Signatures of other signers on a
/// multisig input stay where they are, an input of another kind that is
/// signed is left alone, no input loses a signature that it needs, the next
/// signer can go on, and the count is that of the new signatures.
pub proof fn law_cosigning_preserves<A, F, T, D, C, S>(
    source: &KeySource<A, F, T, D, C, S>,
    slots: Seq<Option<SeedSlot>>,
    sighash_type: SigHashType,
    active: Option<usize>,
    tx: Transaction,
    after: Transaction,
    total: int,
) where
    A: Fn(&[u8; 64]) -> Result<ExtendedPrivKey, ()>,
    F: Fn(&ExtendedPrivKey, &[u8; 32]) -> Option<(u32, bool)>,
    T: Fn(&ExtendedPrivKey, &[u8; 32]) -> Option<(u32, bool)>,
    D: Fn(&ExtendedPrivKey, u32) -> Result<ExtendedPrivKey, ()>,
    C: Fn(&ExtendedPrivKey, u32) -> Result<ExtendedPrivKey, ()>,
    S: Fn(&Transaction, usize, &[u8; 32], SigHashType) -> Result<[u8; 64], ()>,

    requires
        tx.num_inputs <= MAX_INPUTS,
        source.cosigns_from(
            slots,
            sighash_type,
            active,
            tx,
            0,
            tx.num_inputs as int,
            0,
            after,
            total,
        ),
    ensures
        signing::only_signatures(tx, after),
        forall|i: int| 0 <= i < tx.num_inputs ==> #[trigger] input_kept(tx, after, i),
        status::fully_signed(tx) ==> status::fully_signed(after),
        cosignable(tx) ==> cosignable(after),
        tx.wf() ==> after.wf(),
        total == gained_total(tx, after, 0, tx.num_inputs as int),
{
    lemma_cosigns(
        source,
        slots,
        sighash_type,
        active,
        tx,
        0,
        tx.num_inputs as int,
        0,
        after,
        total,
    );
    if status::fully_signed(tx) {
        assert forall|i: int| 0 <= i < after.num_inputs implies #[trigger] status::input_signed(
            after,
            i,
        ) by {
            assert(input_kept(tx, after, i));
            assert(status::input_signed(tx, i));
        }
    }
    if cosignable(tx) {
        assert forall|i: int| 0 <= i < after.num_inputs implies #[trigger] status::analyzable(
            after,
            i,
        ) by {
            assert(status::analyzable(tx, i));
            assert(signing::resigned(tx.inputs@[i], after.inputs@[i]));
        }
        assert forall|i: int|
            #![trigger after.inputs@[i]]
            0 <= i < after.num_inputs && status::analysis(after, i).1 is Some implies
            after.inputs@[i].sig_count <= MAX_SIGS_PER_INPUT by {
            assert(input_kept(tx, after, i));
            assert(tx.inputs@[i].sig_count <= MAX_SIGS_PER_INPUT);
        }
    }
    if tx.wf() {
        assert forall|i: int|
            #![trigger after.inputs@[i]]
            0 <= i < MAX_INPUTS implies after.inputs@[i].utxo_entry.script_public_key.wf()
            && after.redeem_wf(i) by {
            assert(signing::resigned(tx.inputs@[i], after.inputs@[i]));
            assert(tx.inputs@[i].utxo_entry.script_public_key.wf());
        }
    }
}

/// Signing never fails.
pub open spec fn always_signs<A, F, T, D, C, S>(source: &KeySource<A, F, T, D, C, S>) -> bool where
    A: Fn(&[u8; 64]) -> Result<ExtendedPrivKey, ()>,
    F: Fn(&ExtendedPrivKey, &[u8; 32]) -> Option<(u32, bool)>,
    T: Fn(&ExtendedPrivKey, &[u8; 32]) -> Option<(u32, bool)>,
    D: Fn(&ExtendedPrivKey, u32) -> Result<ExtendedPrivKey, ()>,
    C: Fn(&ExtendedPrivKey, u32) -> Result<ExtendedPrivKey, ()>,
    S: Fn(&Transaction, usize, &[u8; 32], SigHashType) -> Result<[u8; 64], ()>,

{
    forall|tx: &Transaction, i: usize, k: &[u8; 32], ty: SigHashType, g: Result<[u8; 64], ()>|
        #[trigger] call_ensures(source.sign_input, (tx, i, k, ty), g) ==> g is Ok
}

/// The address table of an account has a key, and that key can be derived.
pub open spec fn holds_address<A, F, T, D, C, S>(
    source: &KeySource<A, F, T, D, C, S>,
    account: ExtendedPrivKey,
    target: [u8; 32],
) -> bool where
    A: Fn(&[u8; 64]) -> Result<ExtendedPrivKey, ()>,
    F: Fn(&ExtendedPrivKey, &[u8; 32]) -> Option<(u32, bool)>,
    T: Fn(&ExtendedPrivKey, &[u8; 32]) -> Option<(u32, bool)>,
    D: Fn(&ExtendedPrivKey, u32) -> Result<ExtendedPrivKey, ()>,
    C: Fn(&ExtendedPrivKey, u32) -> Result<ExtendedPrivKey, ()>,
    S: Fn(&Transaction, usize, &[u8; 32], SigHashType) -> Result<[u8; 64], ()>,

{
    forall|found: Option<(u32, bool)>| #[trigger]
        source.finds(account, target, true, found) ==> found is Some && forall|
            k: Result<ExtendedPrivKey, ()>,
        | #[trigger]
            source.derives(account, found.unwrap().0, found.unwrap().1, k) ==> k is Ok
}

/// A seed has the key for position `pos`: as its account key, or in its
/// address table.
pub open spec fn slot_holds<A, F, T, D, C, S>(
    source: &KeySource<A, F, T, D, C, S>,
    slot: SeedSlot,
    ms: MultisigInfo,
    pos: int,
) -> bool where
    A: Fn(&[u8; 64]) -> Result<ExtendedPrivKey, ()>,
    F: Fn(&ExtendedPrivKey, &[u8; 32]) -> Option<(u32, bool)>,
    T: Fn(&ExtendedPrivKey, &[u8; 32]) -> Option<(u32, bool)>,
    D: Fn(&ExtendedPrivKey, u32) -> Result<ExtendedPrivKey, ()>,
    C: Fn(&ExtendedPrivKey, u32) -> Result<ExtendedPrivKey, ()>,
    S: Fn(&Transaction, usize, &[u8; 32], SigHashType) -> Result<[u8; 64], ()>,

{
    ||| account_position(slot, ms.pubkeys, ms.n as int, 0) == Some(pos)
    ||| holds_address(source, slot.account, ms.pubkeys@[pos])
}

/// Some seed has the key for position `pos`.
pub open spec fn holds_position<A, F, T, D, C, S>(
    source: &KeySource<A, F, T, D, C, S>,
    slots: Seq<Option<SeedSlot>>,
    ms: MultisigInfo,
    pos: int,
) -> bool where
    A: Fn(&[u8; 64]) -> Result<ExtendedPrivKey, ()>,
    F: Fn(&ExtendedPrivKey, &[u8; 32]) -> Option<(u32, bool)>,
    T: Fn(&ExtendedPrivKey, &[u8; 32]) -> Option<(u32, bool)>,
    D: Fn(&ExtendedPrivKey, u32) -> Result<ExtendedPrivKey, ()>,
    C: Fn(&ExtendedPrivKey, u32) -> Result<ExtendedPrivKey, ()>,
    S: Fn(&Transaction, usize, &[u8; 32], SigHashType) -> Result<[u8; 64], ()>,

{
    exists|s: int|
        0 <= s < slots.len() && #[trigger] slots[s] is Some && slot_holds(
            source,
            slots[s].unwrap(),
            ms,
            pos,
        )
}

proof fn lemma_held_position_signs<A, F, T, D, C, S>(
    source: &KeySource<A, F, T, D, C, S>,
    ms: MultisigInfo,
    pos: int,
    slots: Seq<Option<SeedSlot>>,
    from: int,
    s: int,
    tx: Transaction,
    i: int,
    sighash_type: SigHashType,
    t: Option<Signed>,
) where
    A: Fn(&[u8; 64]) -> Result<ExtendedPrivKey, ()>,
    F: Fn(&ExtendedPrivKey, &[u8; 32]) -> Option<(u32, bool)>,
    T: Fn(&ExtendedPrivKey, &[u8; 32]) -> Option<(u32, bool)>,
    D: Fn(&ExtendedPrivKey, u32) -> Result<ExtendedPrivKey, ()>,
    C: Fn(&ExtendedPrivKey, u32) -> Result<ExtendedPrivKey, ()>,
    S: Fn(&Transaction, usize, &[u8; 32], SigHashType) -> Result<[u8; 64], ()>,

    requires
        always_signs(source),
        0 <= from <= s < slots.len(),
        0 <= pos < ms.n,
        slots[s] is Some,
        slot_holds(source, slots[s].unwrap(), ms, pos),
        source.tries_seeds(
            (Task::Position { pubkeys: ms.pubkeys, n: ms.n, pos: pos as u8 }),
            slots,
            from,
            tx,
            i,
            sighash_type,
            t,
        ),
    ensures
        t is Some,
    decreases s - from,
{
    let task = Task::Position { pubkeys: ms.pubkeys, n: ms.n, pos: pos as u8 };
    let u = choose|u: Option<Signed>| #[trigger]
        source.tries_slot(task, slots[from], from, tx, i, sighash_type, u) && if u is Some {
            t == u
        } else {
            source.tries_seeds(task, slots, from + 1, tx, i, sighash_type, t)
        };
    if u is None && from < s {
        lemma_held_position_signs(
            source,
            ms,
            pos,
            slots,
            from + 1,
            s,
            tx,
            i,
            sighash_type,
            t,
        );
    }
}

proof fn lemma_positions_held<A, F, T, D, C, S>(
    source: &KeySource<A, F, T, D, C, S>,
    ms: MultisigInfo,
    held: int,
    slots: Seq<Option<SeedSlot>>,
    sighash_type: SigHashType,
    tx: Transaction,
    i: int,
    pos: int,
    count: int,
    after: Transaction,
    total: int,
) where
    A: Fn(&[u8; 64]) -> Result<ExtendedPrivKey, ()>,
    F: Fn(&ExtendedPrivKey, &[u8; 32]) -> Option<(u32, bool)>,
    T: Fn(&ExtendedPrivKey, &[u8; 32]) -> Option<(u32, bool)>,
    D: Fn(&ExtendedPrivKey, u32) -> Result<ExtendedPrivKey, ()>,
    C: Fn(&ExtendedPrivKey, u32) -> Result<ExtendedPrivKey, ()>,
    S: Fn(&Transaction, usize, &[u8; 32], SigHashType) -> Result<[u8; 64], ()>,

    requires
        always_signs(source),
        0 <= i < MAX_INPUTS,
        0 <= pos <= held < ms.n,
        tx.inputs@[i].sig_count <= MAX_SIGS_PER_INPUT,
        holds_position(source, slots, ms, held),
        source.signs_positions(ms, slots, sighash_type, tx, i, pos, count, after, total),
    ensures
        has_position(after.inputs@[i], held) || after.inputs@[i].sig_count >= MAX_SIGS_PER_INPUT,
    decreases ms.n - pos,
{
    source.lemma_positions(ms, slots, sighash_type, tx, i, pos, count, after, total);
    if has_position(tx.inputs@[i], pos) {
        if pos == held {
            let k = choose|k: int|
                0 <= k < tx.inputs@[i].sig_count && #[trigger] tx.inputs@[i].sigs@[k].present
                    && tx.inputs@[i].sigs@[k].pubkey_pos == pos;
            assert(after.inputs@[i].sigs@[k].present);
        } else {
            lemma_positions_held(
                source,
                ms,
                held,
                slots,
                sighash_type,
                tx,
                i,
                pos + 1,
                count,
                after,
                total,
            );
        }
    } else {
        let task = Task::Position { pubkeys: ms.pubkeys, n: ms.n, pos: pos as u8 };
        let room = tx.inputs@[i].sig_count < MAX_SIGS_PER_INPUT;
        let next = if room {
            count + 1
        } else {
            count
        };
        let t = choose|t: Option<Signed>| #[trigger]
            source.tries_seeds(task, slots, 0, tx, i, sighash_type, t) && match t {
                Some(signed) => source.signs_positions(
                    ms,
                    slots,
                    sighash_type,
                    tx.with_input(i, appended(tx.inputs@[i], signed, sighash_type, pos as u8)),
                    i,
                    pos + 1,
                    if tx.inputs@[i].sig_count < MAX_SIGS_PER_INPUT {
                        count + 1
                    } else {
                        count
                    },
                    after,
                    total,
                ),
                None => source.signs_positions(
                    ms,
                    slots,
                    sighash_type,
                    tx,
                    i,
                    pos + 1,
                    count,
                    after,
                    total,
                ),
            };
        if pos == held {
            let s = choose|s: int|
                0 <= s < slots.len() && #[trigger] slots[s] is Some && slot_holds(
                    source,
                    slots[s].unwrap(),
                    ms,
                    held,
                );
            lemma_held_position_signs(source, ms, pos, slots, 0, s, tx, i, sighash_type, t);
            let mid = tx.with_input(
                i,
                appended(tx.inputs@[i], t.unwrap(), sighash_type, pos as u8),
            );
            source.lemma_positions(
                ms,
                slots,
                sighash_type,
                mid,
                i,
                pos + 1,
                next,
                after,
                total,
            );
            if room {
                let k = tx.inputs@[i].sig_count as int;
                assert(after.inputs@[i].sigs@[k] == mid.inputs@[i].sigs@[k]);
                assert(after.inputs@[i].sigs@[k].present);
            }
        } else {
            match t {
                Some(signed) => {
                    let mid = tx.with_input(
                        i,
                        appended(tx.inputs@[i], signed, sighash_type, pos as u8),
                    );
                    lemma_positions_held(
                        source,
                        ms,
                        held,
                        slots,
                        sighash_type,
                        mid,
                        i,
                        pos + 1,
                        next,
                        after,
                        total,
                    );
                },
                None => {
                    lemma_positions_held(
                        source,
                        ms,
                        held,
                        slots,
                        sighash_type,
                        tx,
                        i,
                        pos + 1,
                        count,
                        after,
                        total,
                    );
                },
            }
        }
    }
}

proof fn lemma_cosigns_held<A, F, T, D, C, S>(
    source: &KeySource<A, F, T, D, C, S>,
    slots: Seq<Option<SeedSlot>>,
    sighash_type: SigHashType,
    active: Option<usize>,
    tx: Transaction,
    i: int,
    n: int,
    count: int,
    after: Transaction,
    total: int,
    at: int,
    held: int,
) where
    A: Fn(&[u8; 64]) -> Result<ExtendedPrivKey, ()>,
    F: Fn(&ExtendedPrivKey, &[u8; 32]) -> Option<(u32, bool)>,
    T: Fn(&ExtendedPrivKey, &[u8; 32]) -> Option<(u32, bool)>,
    D: Fn(&ExtendedPrivKey, u32) -> Result<ExtendedPrivKey, ()>,
    C: Fn(&ExtendedPrivKey, u32) -> Result<ExtendedPrivKey, ()>,
    S: Fn(&Transaction, usize, &[u8; 32], SigHashType) -> Result<[u8; 64], ()>,

    requires
        always_signs(source),
        0 <= i <= at < n <= MAX_INPUTS,
        source.cosigns_from(slots, sighash_type, active, tx, i, n, count, after, total),
        tx.inputs@[at].sig_count <= MAX_SIGS_PER_INPUT,
        status::analysis(tx, at).1 matches Some(ms) && held < ms.n && holds_position(
            source,
            slots,
            ms,
            held,
        ),
        0 <= held,
    ensures
        has_position(after.inputs@[at], held) || after.inputs@[at].sig_count >= MAX_SIGS_PER_INPUT,
    decreases n - i,
{
    let (mid, added) = choose|mid: Transaction, added: int| #[trigger]
        source.cosigns_input(slots, sighash_type, active, tx, i, mid, added)
            && source.cosigns_from(
            slots,
            sighash_type,
            active,
            mid,
            i + 1,
            n,
            count + added,
            after,
            total,
        );
    source.lemma_input(slots, sighash_type, active, tx, i, mid, added);
    if i == at {
        let ms = status::analysis(tx, at).1.unwrap();
        let pre = choose|pre: Transaction| #[trigger]
            source.signs_positions(ms, slots, sighash_type, tx, i, 0, 0, pre, added) && mid
                == pre.with_input(i, synced(pre.inputs@[i]));
        lemma_positions_held(
            source,
            ms,
            held,
            slots,
            sighash_type,
            tx,
            i,
            0,
            0,
            pre,
            added,
        );
        lemma_cosigns(
            source,
            slots,
            sighash_type,
            active,
            mid,
            i + 1,
            n,
            count + added,
            after,
            total,
        );
        assert(after.inputs@[at] == mid.inputs@[at]);
        assert(mid.inputs@[at].sigs == pre.inputs@[at].sigs);
        if has_position(pre.inputs@[at], held) {
            let k = choose|k: int|
                0 <= k < pre.inputs@[at].sig_count && #[trigger] pre.inputs@[at].sigs@[k].present
                    && pre.inputs@[at].sigs@[k].pubkey_pos == held;
            assert(after.inputs@[at].sigs@[k].present);
        }
    } else {
        assert(mid.inputs@[at] == tx.inputs@[at]);
        assert(status::analysis(mid, at) == status::analysis(tx, at));
        lemma_cosigns_held(
            source,
            slots,
            sighash_type,
            active,
            mid,
            i + 1,
            n,
            count + added,
            after,
            total,
            at,
            held,
        );
    }
}

/// When signing does not fail, every multisig position whose key a loaded
/// seed has, as its account key or in its address table, is signed in the end,
/// unless the signature slots of the input are used up.
pub proof fn law_held_positions_are_signed<A, F, T, D, C, S>(
    source: &KeySource<A, F, T, D, C, S>,
    slots: Seq<Option<SeedSlot>>,
    sighash_type: SigHashType,
    active: Option<usize>,
    tx: Transaction,
    after: Transaction,
    total: int,
    i: int,
    pos: int,
) where
    A: Fn(&[u8; 64]) -> Result<ExtendedPrivKey, ()>,
    F: Fn(&ExtendedPrivKey, &[u8; 32]) -> Option<(u32, bool)>,
    T: Fn(&ExtendedPrivKey, &[u8; 32]) -> Option<(u32, bool)>,
    D: Fn(&ExtendedPrivKey, u32) -> Result<ExtendedPrivKey, ()>,
    C: Fn(&ExtendedPrivKey, u32) -> Result<ExtendedPrivKey, ()>,
    S: Fn(&Transaction, usize, &[u8; 32], SigHashType) -> Result<[u8; 64], ()>,

    requires
        always_signs(source),
        cosignable(tx),
        source.cosigns_from(
            slots,
            sighash_type,
            active,
            tx,
            0,
            tx.num_inputs as int,
            0,
            after,
            total,
        ),
        0 <= i < tx.num_inputs,
        status::analysis(tx, i).1 matches Some(ms) && 0 <= pos < ms.n && holds_position(
            source,
            slots,
            ms,
            pos,
        ),
    ensures
        has_position(after.inputs@[i], pos) || after.inputs@[i].sig_count >= MAX_SIGS_PER_INPUT,
{
    assert(tx.inputs@[i].sig_count <= MAX_SIGS_PER_INPUT);
    lemma_cosigns_held(
        source,
        slots,
        sighash_type,
        active,
        tx,
        0,
        tx.num_inputs as int,
        0,
        after,
        total,
        i,
        pos,
    );
}

} // verus!
