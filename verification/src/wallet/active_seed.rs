//! What the choice of an active seed means, and that signing has one outcome.
use crate::bytes;
use crate::wallet::cosigning;
use crate::wallet::cosigning::{SeedSlot, Signed, Task, MAX_SEEDS};
use crate::wallet::covenant;
use crate::wallet::keys::{ExtendedPrivKey, KeySource};
use crate::wallet::script::{MultisigInfo, ScriptType};
use crate::wallet::signing;
use crate::wallet::status;
use crate::wallet::transaction::{SigHashType, Transaction, MAX_INPUTS, MAX_SIGS_PER_INPUT};
use vstd::prelude::*;

verus! {

/// The slots without all but one.
pub open spec fn only_slot(slots: Seq<Option<SeedSlot>>, a: int) -> Seq<Option<SeedSlot>> {
    Seq::new(
        slots.len(),
        |s: int|
            if s == a {
                slots[s]
            } else {
                None
            },
    )
}

/// The seeds with all but one taken out.
pub open spec fn only_seed(seeds: Seq<([u8; 64], bool)>, a: int) -> Seq<([u8; 64], bool)> {
    Seq::new(seeds.len(), |s: int| (seeds[s].0, seeds[s].1 && s == a))
}

/// Every input pays to the hash of a script that is not multisig.
pub open spec fn covenants_only(tx: Transaction) -> bool {
    forall|i: int|
        0 <= i < tx.num_inputs ==> #[trigger] status::analysis(tx, i) == (
            ScriptType::P2SH,
            None::<MultisigInfo>,
        )
}

impl<A, F, T, D, C, S> KeySource<A, F, T, D, C, S> where
    A: Fn(&[u8; 64]) -> Result<ExtendedPrivKey, ()>,
    F: Fn(&ExtendedPrivKey, &[u8; 32]) -> Option<(u32, bool)>,
    T: Fn(&ExtendedPrivKey, &[u8; 32]) -> Option<(u32, bool)>,
    D: Fn(&ExtendedPrivKey, u32) -> Result<ExtendedPrivKey, ()>,
    C: Fn(&ExtendedPrivKey, u32) -> Result<ExtendedPrivKey, ()>,
    S: Fn(&Transaction, usize, &[u8; 32], SigHashType) -> Result<[u8; 64], ()>,
 {
    /// With an active seed, a covenant key is looked for as if there were no
    /// other seeds.
    proof fn lemma_active_seeds(
        &self,
        target: [u8; 32],
        active: usize,
        slots: Seq<Option<SeedSlot>>,
        s: int,
        tx: Transaction,
        i: int,
        sighash_type: SigHashType,
        t: Option<Signed>,
    )
        requires
            0 <= s <= slots.len() <= MAX_SEEDS,
        ensures
            self.tries_seeds(
                (Task::Covenant { target, active: Some(active) }),
                slots,
                s,
                tx,
                i,
                sighash_type,
                t,
            ) == self.tries_seeds(
                (Task::Covenant { target, active: None }),
                only_slot(slots, active as int),
                s,
                tx,
                i,
                sighash_type,
                t,
            ),
        decreases slots.len() - s,
    {
        if s < slots.len() {
            let chosen = Task::Covenant { target, active: Some(active) };
            let any = Task::Covenant { target, active: None };
            let only = only_slot(slots, active as int);
            self.lemma_active_seeds(target, active, slots, s + 1, tx, i, sighash_type, t);
            assert forall|u: Option<Signed>|
                #![trigger self.tries_slot(chosen, slots[s], s, tx, i, sighash_type, u)]
                #![trigger self.tries_slot(any, only[s], s, tx, i, sighash_type, u)]
                self.tries_slot(chosen, slots[s], s, tx, i, sighash_type, u) == self.tries_slot(
                    any,
                    only[s],
                    s,
                    tx,
                    i,
                    sighash_type,
                    u,
                ) by {
                assert(s as usize as int == s);
            }
        }
    }

    proof fn lemma_active_covenant(
        &self,
        candidates: Seq<[u8; 32]>,
        active: usize,
        slots: Seq<Option<SeedSlot>>,
        sighash_type: SigHashType,
        tx: Transaction,
        i: int,
        c: int,
        after: Transaction,
        added: int,
    )
        requires
            0 <= c,
            slots.len() <= MAX_SEEDS,
        ensures
            self.signs_covenant(
                candidates,
                Some(active),
                slots,
                sighash_type,
                tx,
                i,
                c,
                after,
                added,
            ) == self.signs_covenant(
                candidates,
                None,
                only_slot(slots, active as int),
                sighash_type,
                tx,
                i,
                c,
                after,
                added,
            ),
        decreases candidates.len() - c,
    {
        if c < candidates.len() {
            let chosen = Task::Covenant { target: candidates[c], active: Some(active) };
            let any = Task::Covenant { target: candidates[c], active: None };
            let only = only_slot(slots, active as int);
            self.lemma_active_covenant(
                candidates,
                active,
                slots,
                sighash_type,
                tx,
                i,
                c + 1,
                after,
                added,
            );
            assert forall|t: Option<Signed>|
                #![trigger self.tries_seeds(chosen, slots, 0, tx, i, sighash_type, t)]
                #![trigger self.tries_seeds(any, only, 0, tx, i, sighash_type, t)]
                self.tries_seeds(chosen, slots, 0, tx, i, sighash_type, t) == self.tries_seeds(
                    any,
                    only,
                    0,
                    tx,
                    i,
                    sighash_type,
                    t,
                ) by {
                self.lemma_active_seeds(
                    candidates[c],
                    active,
                    slots,
                    0,
                    tx,
                    i,
                    sighash_type,
                    t,
                );
            }
        }
    }

    proof fn lemma_active_inputs(
        &self,
        active: usize,
        slots: Seq<Option<SeedSlot>>,
        sighash_type: SigHashType,
        tx: Transaction,
        i: int,
        n: int,
        count: int,
        after: Transaction,
        total: int,
    )
        requires
            slots.len() <= MAX_SEEDS,
            0 <= i <= n == tx.num_inputs <= MAX_INPUTS,
            covenants_only(tx),
            self.cosigns_from(
                slots,
                sighash_type,
                Some(active),
                tx,
                i,
                n,
                count,
                after,
                total,
            ),
        ensures
            self.cosigns_from(
                only_slot(slots, active as int),
                sighash_type,
                None,
                tx,
                i,
                n,
                count,
                after,
                total,
            ),
        decreases n - i,
    {
        if i < n {
            let only = only_slot(slots, active as int);
            let (mid, added) = choose|mid: Transaction, added: int| #[trigger]
                self.cosigns_input(slots, sighash_type, Some(active), tx, i, mid, added)
                    && self.cosigns_from(
                    slots,
                    sighash_type,
                    Some(active),
                    mid,
                    i + 1,
                    n,
                    count + added,
                    after,
                    total,
                );
            assert(status::analysis(tx, i).1 is None);
            self.lemma_active_covenant(
                covenant::candidates(tx.redeem(i)),
                active,
                slots,
                sighash_type,
                tx,
                i,
                0,
                mid,
                added,
            );
            assert(self.cosigns_input(only, sighash_type, None, tx, i, mid, added));
            self.lemma_input(slots, sighash_type, Some(active), tx, i, mid, added);
            assert forall|j: int| 0 <= j < mid.num_inputs implies #[trigger] status::analysis(
                mid,
                j,
            ) == (ScriptType::P2SH, None::<MultisigInfo>) by {
                assert(status::analysis(tx, j).1 is None);
                assert(mid.inputs@[j].utxo_entry == tx.inputs@[j].utxo_entry);
            }
            self.lemma_active_inputs(
                active,
                slots,
                sighash_type,
                mid,
                i + 1,
                n,
                count + added,
                after,
                total,
            );
        }
    }

    proof fn lemma_alone_inputs(
        &self,
        active: usize,
        slots: Seq<Option<SeedSlot>>,
        sighash_type: SigHashType,
        tx: Transaction,
        i: int,
        n: int,
        count: int,
        after: Transaction,
        total: int,
    )
        requires
            slots.len() <= MAX_SEEDS,
            0 <= i <= n == tx.num_inputs <= MAX_INPUTS,
            covenants_only(tx),
            self.cosigns_from(
                only_slot(slots, active as int),
                sighash_type,
                None,
                tx,
                i,
                n,
                count,
                after,
                total,
            ),
        ensures
            self.cosigns_from(
                slots,
                sighash_type,
                Some(active),
                tx,
                i,
                n,
                count,
                after,
                total,
            ),
        decreases n - i,
    {
        if i < n {
            let only = only_slot(slots, active as int);
            let (mid, added) = choose|mid: Transaction, added: int| #[trigger]
                self.cosigns_input(only, sighash_type, None, tx, i, mid, added)
                    && self.cosigns_from(
                    only,
                    sighash_type,
                    None,
                    mid,
                    i + 1,
                    n,
                    count + added,
                    after,
                    total,
                );
            assert(status::analysis(tx, i).1 is None);
            self.lemma_active_covenant(
                covenant::candidates(tx.redeem(i)),
                active,
                slots,
                sighash_type,
                tx,
                i,
                0,
                mid,
                added,
            );
            assert(self.cosigns_input(slots, sighash_type, Some(active), tx, i, mid, added));
            self.lemma_input(only, sighash_type, None, tx, i, mid, added);
            assert forall|j: int| 0 <= j < mid.num_inputs implies #[trigger] status::analysis(
                mid,
                j,
            ) == (ScriptType::P2SH, None::<MultisigInfo>) by {
                assert(status::analysis(tx, j).1 is None);
                assert(mid.inputs@[j].utxo_entry == tx.inputs@[j].utxo_entry);
            }
            self.lemma_alone_inputs(
                active,
                slots,
                sighash_type,
                mid,
                i + 1,
                n,
                count + added,
                after,
                total,
            );
        }
    }

    /// Loading each of the seeds has an outcome.
    pub open spec fn loadable(&self, seeds: Seq<([u8; 64], bool)>) -> bool {
        forall|s: int|
            0 <= s < seeds.len() ==> exists|slot: Option<SeedSlot>|
                self.loads(#[trigger] seeds[s], slot)
    }

    /// A transaction of covenant inputs is signed with the active seed only:
    /// whatever becomes of it can become of it when no other seed is loaded
    /// and none is active, and, where the other seeds can be loaded at all,
    /// the other way round.
    pub proof fn law_covenant_uses_active_seed_only(
        &self,
        seeds: Seq<([u8; 64], bool)>,
        sighash_type: SigHashType,
        active: usize,
        tx: Transaction,
        after: Transaction,
        total: int,
    )
        requires
            tx.num_inputs <= MAX_INPUTS,
            covenants_only(tx),
        ensures
            self.cosigns(seeds, sighash_type, Some(active), tx, after, total) ==> self.cosigns(
                only_seed(seeds, active as int),
                sighash_type,
                None,
                tx,
                after,
                total,
            ),
            self.loadable(seeds) && self.cosigns(
                only_seed(seeds, active as int),
                sighash_type,
                None,
                tx,
                after,
                total,
            ) ==> self.cosigns(seeds, sighash_type, Some(active), tx, after, total),
    {
        let n = tx.num_inputs as int;
        let alone = only_seed(seeds, active as int);
        if self.cosigns(seeds, sighash_type, Some(active), tx, after, total) {
            let slots = choose|slots: Seq<Option<SeedSlot>>| #[trigger]
                self.loads_all(seeds, slots) && self.cosigns_from(
                    slots,
                    sighash_type,
                    Some(active),
                    tx,
                    0,
                    n,
                    0,
                    after,
                    total,
                );
            let only = only_slot(slots, active as int);
            self.lemma_active_inputs(active, slots, sighash_type, tx, 0, n, 0, after, total);
            assert forall|s: int| 0 <= s < only.len() implies self.loads(
                alone[s],
                #[trigger] only[s],
            ) by {
                assert(self.loads(seeds[s], slots[s]));
            }
            assert(self.loads_all(alone, only));
        }
        if self.loadable(seeds) && self.cosigns(alone, sighash_type, None, tx, after, total) {
            let only = choose|slots: Seq<Option<SeedSlot>>| #[trigger]
                self.loads_all(alone, slots) && self.cosigns_from(
                    slots,
                    sighash_type,
                    None,
                    tx,
                    0,
                    n,
                    0,
                    after,
                    total,
                );
            let slots = Seq::new(
                only.len(),
                |s: int|
                    if s == active {
                        only[s]
                    } else {
                        choose|slot: Option<SeedSlot>| self.loads(seeds[s], slot)
                    },
            );
            assert forall|s: int| 0 <= s < slots.len() implies self.loads(
                seeds[s],
                #[trigger] slots[s],
            ) && only[s] == only_slot(slots, active as int)[s] by {
                assert(self.loads(alone[s], only[s]));
                assert(exists|slot: Option<SeedSlot>| self.loads(seeds[s], slot));
            }
            assert(only =~= only_slot(slots, active as int));
            assert(self.loads_all(seeds, slots));
            self.lemma_alone_inputs(active, slots, sighash_type, tx, 0, n, 0, after, total);
        }
    }

    /// Each of the functions has one outcome for given arguments.
    pub open spec fn deterministic(&self) -> bool {
        &&& forall|seed: &[u8; 64], a: Result<ExtendedPrivKey, ()>, b: Result<ExtendedPrivKey, ()>|
            #[trigger] call_ensures(self.derive_account_key, (seed,), a) && #[trigger]
                call_ensures(self.derive_account_key, (seed,), b) ==> a == b
        &&& forall|
            account: ExtendedPrivKey,
            target: [u8; 32],
            in_table: bool,
            a: Option<(u32, bool)>,
            b: Option<(u32, bool)>,
        | #[trigger]
            self.finds(account, target, in_table, a) && #[trigger]
                self.finds(account, target, in_table, b) ==> a == b
        &&& forall|
            account: ExtendedPrivKey,
            index: u32,
            is_change: bool,
            a: Result<ExtendedPrivKey, ()>,
            b: Result<ExtendedPrivKey, ()>,
        | #[trigger]
            self.derives(account, index, is_change, a) && #[trigger]
                self.derives(account, index, is_change, b) ==> a == b
        &&& forall|
            tx: &Transaction,
            i: usize,
            k: &[u8; 32],
            ty: SigHashType,
            a: Result<[u8; 64], ()>,
            b: Result<[u8; 64], ()>,
        | #[trigger]
            call_ensures(self.sign_input, (tx, i, k, ty), a) && #[trigger]
                call_ensures(self.sign_input, (tx, i, k, ty), b) ==> a == b
    }

    proof fn lemma_one_address(
        &self,
        account: ExtendedPrivKey,
        target: [u8; 32],
        in_table: bool,
        tx: Transaction,
        i: int,
        sighash_type: SigHashType,
        t: Option<Signed>,
        u: Option<Signed>,
    )
        requires
            self.deterministic(),
            self.tries_address(account, target, in_table, tx, i, sighash_type, t),
            self.tries_address(account, target, in_table, tx, i, sighash_type, u),
        ensures
            t == u,
    {
    }

    proof fn lemma_one_slot(
        &self,
        task: Task,
        slot: Option<SeedSlot>,
        s: int,
        tx: Transaction,
        i: int,
        sighash_type: SigHashType,
        t: Option<Signed>,
        u: Option<Signed>,
    )
        requires
            self.deterministic(),
            self.tries_slot(task, slot, s, tx, i, sighash_type, t),
            self.tries_slot(task, slot, s, tx, i, sighash_type, u),
        ensures
            t == u,
    {
        if let Some(slot) = slot {
            let (target, in_table) = match task {
                Task::Address { target } => (target, false),
                Task::Position { pubkeys, pos, .. } => (pubkeys@[pos as int], true),
                Task::Covenant { target, .. } => (target, true),
            };
            if self.tries_address(slot.account, target, in_table, tx, i, sighash_type, t)
                && self.tries_address(slot.account, target, in_table, tx, i, sighash_type, u) {
                self.lemma_one_address(
                    slot.account,
                    target,
                    in_table,
                    tx,
                    i,
                    sighash_type,
                    t,
                    u,
                );
            }
        }
    }

    proof fn lemma_one_signature(
        &self,
        task: Task,
        slots: Seq<Option<SeedSlot>>,
        s: int,
        tx: Transaction,
        i: int,
        sighash_type: SigHashType,
        t: Option<Signed>,
        u: Option<Signed>,
    )
        requires
            self.deterministic(),
            self.tries_seeds(task, slots, s, tx, i, sighash_type, t),
            self.tries_seeds(task, slots, s, tx, i, sighash_type, u),
        ensures
            t == u,
        decreases slots.len() - s,
    {
        if s < slots.len() {
            let a = choose|a: Option<Signed>| #[trigger]
                self.tries_slot(task, slots[s], s, tx, i, sighash_type, a) && if a is Some {
                    t == a
                } else {
                    self.tries_seeds(task, slots, s + 1, tx, i, sighash_type, t)
                };
            let b = choose|b: Option<Signed>| #[trigger]
                self.tries_slot(task, slots[s], s, tx, i, sighash_type, b) && if b is Some {
                    u == b
                } else {
                    self.tries_seeds(task, slots, s + 1, tx, i, sighash_type, u)
                };
            self.lemma_one_slot(task, slots[s], s, tx, i, sighash_type, a, b);
            if a is None {
                self.lemma_one_signature(task, slots, s + 1, tx, i, sighash_type, t, u);
            }
        }
    }

    proof fn lemma_one_covenant(
        &self,
        candidates: Seq<[u8; 32]>,
        active: Option<usize>,
        slots: Seq<Option<SeedSlot>>,
        sighash_type: SigHashType,
        tx: Transaction,
        i: int,
        c: int,
        after: Transaction,
        added: int,
        after2: Transaction,
        added2: int,
    )
        requires
            self.deterministic(),
            self.signs_covenant(candidates, active, slots, sighash_type, tx, i, c, after, added),
            self.signs_covenant(candidates, active, slots, sighash_type, tx, i, c, after2, added2),
        ensures
            after == after2,
            added == added2,
        decreases candidates.len() - c,
    {
        if c < candidates.len() {
            let task = Task::Covenant { target: candidates[c], active };
            let t = choose|t: Option<Signed>| #[trigger]
                self.tries_seeds(task, slots, 0, tx, i, sighash_type, t) && match t {
                    Some(signed) => {
                        &&& added == 1
                        &&& after == tx.with_input(
                            i,
                            signing::single_signed(
                                tx.inputs@[i],
                                signed.0,
                                sighash_type,
                                c as u8,
                                signed.1,
                            ),
                        )
                    },
                    None => self.signs_covenant(
                        candidates,
                        active,
                        slots,
                        sighash_type,
                        tx,
                        i,
                        c + 1,
                        after,
                        added,
                    ),
                };
            let u = choose|t: Option<Signed>| #[trigger]
                self.tries_seeds(task, slots, 0, tx, i, sighash_type, t) && match t {
                    Some(signed) => {
                        &&& added2 == 1
                        &&& after2 == tx.with_input(
                            i,
                            signing::single_signed(
                                tx.inputs@[i],
                                signed.0,
                                sighash_type,
                                c as u8,
                                signed.1,
                            ),
                        )
                    },
                    None => self.signs_covenant(
                        candidates,
                        active,
                        slots,
                        sighash_type,
                        tx,
                        i,
                        c + 1,
                        after2,
                        added2,
                    ),
                };
            self.lemma_one_signature(task, slots, 0, tx, i, sighash_type, t, u);
            if t is None {
                self.lemma_one_covenant(
                    candidates,
                    active,
                    slots,
                    sighash_type,
                    tx,
                    i,
                    c + 1,
                    after,
                    added,
                    after2,
                    added2,
                );
            }
        }
    }

    proof fn lemma_one_positions(
        &self,
        ms: MultisigInfo,
        slots: Seq<Option<SeedSlot>>,
        sighash_type: SigHashType,
        tx: Transaction,
        i: int,
        pos: int,
        count: int,
        after: Transaction,
        total: int,
        after2: Transaction,
        total2: int,
    )
        requires
            self.deterministic(),
            self.signs_positions(ms, slots, sighash_type, tx, i, pos, count, after, total),
            self.signs_positions(ms, slots, sighash_type, tx, i, pos, count, after2, total2),
        ensures
            after == after2,
            total == total2,
        decreases ms.n - pos,
    {
        if pos >= ms.n {
        } else if cosigning::has_position(tx.inputs@[i], pos) {
            self.lemma_one_positions(
                ms,
                slots,
                sighash_type,
                tx,
                i,
                pos + 1,
                count,
                after,
                total,
                after2,
                total2,
            );
        } else {
            let task = Task::Position { pubkeys: ms.pubkeys, n: ms.n, pos: pos as u8 };
            let t = choose|t: Option<Signed>| #[trigger]
                self.tries_seeds(task, slots, 0, tx, i, sighash_type, t) && match t {
                    Some(signed) => self.signs_positions(
                        ms,
                        slots,
                        sighash_type,
                        tx.with_input(
                            i,
                            cosigning::appended(tx.inputs@[i], signed, sighash_type, pos as u8),
                        ),
                        i,
                        pos + 1,
                        if tx.inputs@[i].sig_count < MAX_SIGS_PER_INPUT {
                            count + 1
                        } else {
                            count
                        },
                        after,
                        total,
                    ),
                    None => self.signs_positions(
                        ms,
                        slots,
                        sighash_type,
                        tx,
                        i,
                        pos + 1,
                        count,
                        after,
                        total,
                    ),
                };
            let u = choose|t: Option<Signed>| #[trigger]
                self.tries_seeds(task, slots, 0, tx, i, sighash_type, t) && match t {
                    Some(signed) => self.signs_positions(
                        ms,
                        slots,
                        sighash_type,
                        tx.with_input(
                            i,
                            cosigning::appended(tx.inputs@[i], signed, sighash_type, pos as u8),
                        ),
                        i,
                        pos + 1,
                        if tx.inputs@[i].sig_count < MAX_SIGS_PER_INPUT {
                            count + 1
                        } else {
                            count
                        },
                        after2,
                        total2,
                    ),
                    None => self.signs_positions(
                        ms,
                        slots,
                        sighash_type,
                        tx,
                        i,
                        pos + 1,
                        count,
                        after2,
                        total2,
                    ),
                };
            self.lemma_one_signature(task, slots, 0, tx, i, sighash_type, t, u);
            let (next, sum) = match t {
                Some(signed) => (
                    tx.with_input(
                        i,
                        cosigning::appended(tx.inputs@[i], signed, sighash_type, pos as u8),
                    ),
                    if tx.inputs@[i].sig_count < MAX_SIGS_PER_INPUT {
                        count + 1
                    } else {
                        count
                    },
                ),
                None => (tx, count),
            };
            self.lemma_one_positions(
                ms,
                slots,
                sighash_type,
                next,
                i,
                pos + 1,
                sum,
                after,
                total,
                after2,
                total2,
            );
        }
    }

    proof fn lemma_one_input(
        &self,
        slots: Seq<Option<SeedSlot>>,
        sighash_type: SigHashType,
        active: Option<usize>,
        tx: Transaction,
        i: int,
        after: Transaction,
        added: int,
        after2: Transaction,
        added2: int,
    )
        requires
            self.deterministic(),
            self.cosigns_input(slots, sighash_type, active, tx, i, after, added),
            self.cosigns_input(slots, sighash_type, active, tx, i, after2, added2),
        ensures
            after == after2,
            added == added2,
    {
        match status::analysis(tx, i) {
            (ScriptType::Unknown, _) => {},
            (ScriptType::P2PK, _) => {
                if tx.inputs@[i].sig_len == 0 {
                    let spk = tx.inputs@[i].utxo_entry.script_public_key;
                    let task = Task::Address {
                        target: bytes::array_of(spk.script@.subrange(1, 33)),
                    };
                    assert forall|t: Option<Signed>, u: Option<Signed>|
                        #[trigger] self.tries_seeds(task, slots, 0, tx, i, sighash_type, t)
                            && #[trigger] self.tries_seeds(task, slots, 0, tx, i, sighash_type, u)
                            implies t == u by {
                        self.lemma_one_signature(task, slots, 0, tx, i, sighash_type, t, u);
                    }
                }
            },
            (_, Some(ms)) => {
                let mid = choose|mid: Transaction| #[trigger]
                    self.signs_positions(ms, slots, sighash_type, tx, i, 0, 0, mid, added) && after
                        == mid.with_input(i, cosigning::synced(mid.inputs@[i]));
                let mid2 = choose|mid: Transaction| #[trigger]
                    self.signs_positions(ms, slots, sighash_type, tx, i, 0, 0, mid, added2)
                        && after2 == mid.with_input(i, cosigning::synced(mid.inputs@[i]));
                self.lemma_one_positions(
                    ms,
                    slots,
                    sighash_type,
                    tx,
                    i,
                    0,
                    0,
                    mid,
                    added,
                    mid2,
                    added2,
                );
            },
            (_, None) => {
                if tx.inputs@[i].sig_count == 0 {
                    self.lemma_one_covenant(
                        covenant::candidates(tx.redeem(i)),
                        active,
                        slots,
                        sighash_type,
                        tx,
                        i,
                        0,
                        after,
                        added,
                        after2,
                        added2,
                    );
                }
            },
        }
    }

    proof fn lemma_one_outcome(
        &self,
        slots: Seq<Option<SeedSlot>>,
        sighash_type: SigHashType,
        active: Option<usize>,
        tx: Transaction,
        i: int,
        n: int,
        count: int,
        after: Transaction,
        total: int,
        after2: Transaction,
        total2: int,
    )
        requires
            self.deterministic(),
            self.cosigns_from(slots, sighash_type, active, tx, i, n, count, after, total),
            self.cosigns_from(slots, sighash_type, active, tx, i, n, count, after2, total2),
        ensures
            after == after2,
            total == total2,
        decreases n - i,
    {
        if i < n {
            let (mid, added) = choose|mid: Transaction, added: int| #[trigger]
                self.cosigns_input(slots, sighash_type, active, tx, i, mid, added)
                    && self.cosigns_from(
                    slots,
                    sighash_type,
                    active,
                    mid,
                    i + 1,
                    n,
                    count + added,
                    after,
                    total,
                );
            let (mid2, added2) = choose|mid: Transaction, added: int| #[trigger]
                self.cosigns_input(slots, sighash_type, active, tx, i, mid, added)
                    && self.cosigns_from(
                    slots,
                    sighash_type,
                    active,
                    mid,
                    i + 1,
                    n,
                    count + added,
                    after2,
                    total2,
                );
            self.lemma_one_input(
                slots,
                sighash_type,
                active,
                tx,
                i,
                mid,
                added,
                mid2,
                added2,
            );
            self.lemma_one_outcome(
                slots,
                sighash_type,
                active,
                mid,
                i + 1,
                n,
                count + added,
                after,
                total,
                after2,
                total2,
            );
        }
    }

    /// Where deriving, searching and signing have one outcome, so has
    /// cosigning.
    pub proof fn law_cosigning_has_one_outcome(
        &self,
        seeds: Seq<([u8; 64], bool)>,
        sighash_type: SigHashType,
        active: Option<usize>,
        tx: Transaction,
        after: Transaction,
        total: int,
        after2: Transaction,
        total2: int,
    )
        requires
            self.deterministic(),
            self.cosigns(seeds, sighash_type, active, tx, after, total),
            self.cosigns(seeds, sighash_type, active, tx, after2, total2),
        ensures
            after == after2,
            total == total2,
    {
        let n = tx.num_inputs as int;
        let slots = choose|slots: Seq<Option<SeedSlot>>| #[trigger]
            self.loads_all(seeds, slots) && self.cosigns_from(
                slots,
                sighash_type,
                active,
                tx,
                0,
                n,
                0,
                after,
                total,
            );
        let slots2 = choose|slots: Seq<Option<SeedSlot>>| #[trigger]
            self.loads_all(seeds, slots) && self.cosigns_from(
                slots,
                sighash_type,
                active,
                tx,
                0,
                n,
                0,
                after2,
                total2,
            );
        assert forall|s: int| 0 <= s < slots.len() implies slots[s] == slots2[s] by {
            assert(self.loads(seeds[s], slots[s]));
            assert(self.loads(seeds[s], slots2[s]));
        }
        assert(slots =~= slots2);
        self.lemma_one_outcome(
            slots,
            sighash_type,
            active,
            tx,
            0,
            n,
            0,
            after,
            total,
            after2,
            total2,
        );
    }

    /// Where deriving, searching and signing have one outcome, a transaction
    /// of covenant inputs that is signed with an active seed comes out as when
    /// no other seed is loaded and none is active.
    pub proof fn law_active_seed_signs_as_if_alone(
        &self,
        seeds: Seq<([u8; 64], bool)>,
        sighash_type: SigHashType,
        active: usize,
        tx: Transaction,
        after: Transaction,
        total: int,
        alone: Transaction,
        total_alone: int,
    )
        requires
            self.deterministic(),
            tx.num_inputs <= MAX_INPUTS,
            covenants_only(tx),
            self.cosigns(seeds, sighash_type, Some(active), tx, after, total),
            self.cosigns(
                only_seed(seeds, active as int),
                sighash_type,
                None,
                tx,
                alone,
                total_alone,
            ),
        ensures
            after == alone,
            total == total_alone,
    {
        self.law_covenant_uses_active_seed_only(seeds, sighash_type, active, tx, after, total);
        self.law_cosigning_has_one_outcome(
            only_seed(seeds, active as int),
            sighash_type,
            None,
            tx,
            after,
            total,
            alone,
            total_alone,
        );
    }

    proof fn lemma_no_seeds_try(
        &self,
        task: Task,
        slots: Seq<Option<SeedSlot>>,
        s: int,
        tx: Transaction,
        i: int,
        sighash_type: SigHashType,
        t: Option<Signed>,
    )
        requires
            0 <= s,
            forall|k: int| 0 <= k < slots.len() ==> #[trigger] slots[k] is None,
            self.tries_seeds(task, slots, s, tx, i, sighash_type, t),
        ensures
            t is None,
        decreases slots.len() - s,
    {
        if s < slots.len() {
            assert(slots[s] is None);
            self.lemma_no_seeds_try(task, slots, s + 1, tx, i, sighash_type, t);
        }
    }

    proof fn lemma_no_seeds_sign(
        &self,
        candidates: Seq<[u8; 32]>,
        active: Option<usize>,
        slots: Seq<Option<SeedSlot>>,
        sighash_type: SigHashType,
        tx: Transaction,
        i: int,
        c: int,
        after: Transaction,
        added: int,
    )
        requires
            forall|k: int| 0 <= k < slots.len() ==> #[trigger] slots[k] is None,
            self.signs_covenant(candidates, active, slots, sighash_type, tx, i, c, after, added),
        ensures
            after == tx,
            added == 0,
        decreases candidates.len() - c,
    {
        if c < candidates.len() {
            let task = Task::Covenant { target: candidates[c], active };
            let t = choose|t: Option<Signed>| #[trigger]
                self.tries_seeds(task, slots, 0, tx, i, sighash_type, t) && match t {
                    Some(signed) => {
                        &&& added == 1
                        &&& after == tx.with_input(
                            i,
                            signing::single_signed(
                                tx.inputs@[i],
                                signed.0,
                                sighash_type,
                                c as u8,
                                signed.1,
                            ),
                        )
                    },
                    None => self.signs_covenant(
                        candidates,
                        active,
                        slots,
                        sighash_type,
                        tx,
                        i,
                        c + 1,
                        after,
                        added,
                    ),
                };
            self.lemma_no_seeds_try(task, slots, 0, tx, i, sighash_type, t);
            self.lemma_no_seeds_sign(
                candidates,
                active,
                slots,
                sighash_type,
                tx,
                i,
                c + 1,
                after,
                added,
            );
        }
    }

    proof fn lemma_no_seeds(
        &self,
        slots: Seq<Option<SeedSlot>>,
        sighash_type: SigHashType,
        active: Option<usize>,
        tx: Transaction,
        i: int,
        n: int,
        count: int,
        after: Transaction,
        total: int,
    )
        requires
            0 <= i <= n == tx.num_inputs,
            covenants_only(tx),
            forall|k: int| 0 <= k < slots.len() ==> #[trigger] slots[k] is None,
            self.cosigns_from(slots, sighash_type, active, tx, i, n, count, after, total),
        ensures
            after == tx,
            total == count,
        decreases n - i,
    {
        if i < n {
            let (mid, added) = choose|mid: Transaction, added: int| #[trigger]
                self.cosigns_input(slots, sighash_type, active, tx, i, mid, added)
                    && self.cosigns_from(
                    slots,
                    sighash_type,
                    active,
                    mid,
                    i + 1,
                    n,
                    count + added,
                    after,
                    total,
                );
            assert(status::analysis(tx, i).1 is None);
            if tx.inputs@[i].sig_count == 0 {
                self.lemma_no_seeds_sign(
                    covenant::candidates(tx.redeem(i)),
                    active,
                    slots,
                    sighash_type,
                    tx,
                    i,
                    0,
                    mid,
                    added,
                );
            }
            self.lemma_no_seeds(
                slots,
                sighash_type,
                active,
                tx,
                i + 1,
                n,
                count,
                after,
                total,
            );
        }
    }

    /// A transaction of covenant inputs is left alone where the active seed is
    /// not loaded, or not among those that take part.
    pub proof fn law_absent_active_seed_signs_nothing(
        &self,
        seeds: Seq<([u8; 64], bool)>,
        sighash_type: SigHashType,
        active: usize,
        tx: Transaction,
        after: Transaction,
        total: int,
    )
        requires
            tx.num_inputs <= MAX_INPUTS,
            covenants_only(tx),
            active >= seeds.len() || active >= MAX_SEEDS || !seeds[active as int].1,
            self.cosigns(seeds, sighash_type, Some(active), tx, after, total),
        ensures
            after == tx,
            total == 0,
    {
        self.law_covenant_uses_active_seed_only(seeds, sighash_type, active, tx, after, total);
        let only = only_seed(seeds, active as int);
        let n = tx.num_inputs as int;
        let slots = choose|slots: Seq<Option<SeedSlot>>| #[trigger]
            self.loads_all(only, slots) && self.cosigns_from(
                slots,
                sighash_type,
                None,
                tx,
                0,
                n,
                0,
                after,
                total,
            );
        assert forall|k: int| 0 <= k < slots.len() implies #[trigger] slots[k] is None by {
            assert(self.loads(only[k], slots[k]));
        }
        self.lemma_no_seeds(slots, sighash_type, None, tx, 0, n, 0, after, total);
    }
}

} // verus!
