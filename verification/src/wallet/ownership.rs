//! Which inputs cosigning signs, and with whose keys, in terms of the calls
//! that derive keys and sign.
use crate::bytes;
use crate::crypto;
use crate::wallet::cosigning;
use crate::wallet::cosigning::{SeedSlot, Signed, Task};
use crate::wallet::covenant;
use crate::wallet::keys;
use crate::wallet::keys::{ExtendedPrivKey, KeySource};
use crate::wallet::script;
use crate::wallet::script::MultisigInfo;
use crate::wallet::signing;
use crate::wallet::status;
use crate::wallet::transaction::{
    InputSig, SigHashType, Transaction, TransactionInput, MAX_INPUTS, MAX_SIGS_PER_INPUT,
};
use vstd::prelude::*;

verus! {

impl<A, F, T, D, C, S> KeySource<A, F, T, D, C, S> where
    A: Fn(&[u8; 64]) -> Result<ExtendedPrivKey, ()>,
    F: Fn(&ExtendedPrivKey, &[u8; 32]) -> Option<(u32, bool)>,
    T: Fn(&ExtendedPrivKey, &[u8; 32]) -> Option<(u32, bool)>,
    D: Fn(&ExtendedPrivKey, u32) -> Result<ExtendedPrivKey, ()>,
    C: Fn(&ExtendedPrivKey, u32) -> Result<ExtendedPrivKey, ()>,
    S: Fn(&Transaction, usize, &[u8; 32], SigHashType) -> Result<[u8; 64], ()>,
 {
    /// The table of an account's first addresses may have a key, and the key
    /// of the address found may be derived as `key`.
    pub open spec fn may_own_in_table(
        &self,
        account: ExtendedPrivKey,
        target: [u8; 32],
        key: ExtendedPrivKey,
    ) -> bool {
        ||| exists|index: u32| #[trigger]
            call_ensures(self.derive_address_key, (&account, index), Ok(key)) && call_ensures(
                self.find_by_pubkey,
                (&account, &target),
                Some((index, false)),
            )
        ||| exists|index: u32| #[trigger]
            call_ensures(self.derive_change_key, (&account, index), Ok(key)) && call_ensures(
                self.find_by_pubkey,
                (&account, &target),
                Some((index, true)),
            )
    }

    /// Deriving the key of an address never fails.
    pub open spec fn always_derives(&self, account: ExtendedPrivKey) -> bool {
        &&& forall|index: u32|
            !(#[trigger] call_ensures(
                self.derive_address_key,
                (&account, index),
                Err::<ExtendedPrivKey, ()>(()),
            ))
        &&& forall|index: u32|
            !(#[trigger] call_ensures(
                self.derive_change_key,
                (&account, index),
                Err::<ExtendedPrivKey, ()>(()),
            ))
    }

    /// Signing never fails.
    pub open spec fn never_fails_to_sign(&self) -> bool {
        forall|tx: &Transaction, i: usize, k: &[u8; 32], ty: SigHashType|
            !(#[trigger] call_ensures(
                self.sign_input,
                (tx, i, k, ty),
                Err::<[u8; 64], ()>(()),
            ))
    }

    /// Signing with a private key never fails.
    pub open spec fn signs_with(&self, private_key: [u8; 32]) -> bool {
        forall|tx: &Transaction, i: usize, ty: SigHashType|
            !(#[trigger] call_ensures(
                self.sign_input,
                (tx, i, &private_key, ty),
                Err::<[u8; 64], ()>(()),
            ))
    }

    /// Signing never fails with a key for `target` that a seed may have among
    /// its addresses.
    pub open spec fn signs_when_found(&self, seed: ([u8; 64], bool), target: [u8; 32]) -> bool {
        forall|account: ExtendedPrivKey, key: ExtendedPrivKey|
            call_ensures(self.derive_account_key, (&seed.0,), Ok(account))
                && #[trigger] self.may_own(account, target, key) ==> self.signs_with(
                key.private_key,
            )
    }

    /// The same for the table of the account's first addresses.
    pub open spec fn signs_when_in_table(&self, seed: ([u8; 64], bool), target: [u8; 32]) -> bool {
        forall|account: ExtendedPrivKey, key: ExtendedPrivKey|
            call_ensures(self.derive_account_key, (&seed.0,), Ok(account))
                && #[trigger] self.may_own_in_table(account, target, key) ==> self.signs_with(
                key.private_key,
            )
    }

    /// A seed is loaded, and whatever its derivations come to, the address
    /// search of its account finds `target`.
    pub open spec fn surely_finds(&self, seed: ([u8; 64], bool), target: [u8; 32]) -> bool {
        &&& seed.1
        &&& forall|a: Result<ExtendedPrivKey, ()>| #[trigger]
            call_ensures(self.derive_account_key, (&seed.0,), a) ==> {
                &&& a is Ok
                &&& !call_ensures(
                    self.find_address_index_for_pubkey,
                    (&a.unwrap(), &target),
                    None::<(u32, bool)>,
                )
                &&& self.always_derives(a.unwrap())
            }
    }

    /// The same for the table of the account's first addresses.
    pub open spec fn surely_has_in_table(&self, seed: ([u8; 64], bool), target: [u8; 32]) -> bool {
        &&& seed.1
        &&& forall|a: Result<ExtendedPrivKey, ()>| #[trigger]
            call_ensures(self.derive_account_key, (&seed.0,), a) ==> {
                &&& a is Ok
                &&& !call_ensures(
                    self.find_by_pubkey,
                    (&a.unwrap(), &target),
                    None::<(u32, bool)>,
                )
                &&& self.always_derives(a.unwrap())
            }
    }

    /// A seed is loaded, and whatever its derivation comes to, its account key
    /// has the public key `target`.
    pub open spec fn surely_has_account_key(
        &self,
        seed: ([u8; 64], bool),
        target: [u8; 32],
    ) -> bool {
        &&& seed.1
        &&& forall|a: Result<ExtendedPrivKey, ()>| #[trigger]
            call_ensures(self.derive_account_key, (&seed.0,), a) ==> a is Ok && has_public_key(
                a.unwrap().private_key,
                target,
            )
    }

    /// A seed is sure to have the key of a position of a multisig script: in
    /// its address table, or as its account key, where the script lists that
    /// key first.
    pub open spec fn surely_holds_position(
        &self,
        seed: ([u8; 64], bool),
        code: Seq<u8>,
        pos: int,
        target: [u8; 32],
    ) -> bool {
        ||| self.surely_has_in_table(seed, target)
        ||| {
            &&& self.surely_has_account_key(seed, target)
            &&& forall|p: int|
                0 <= p < pos ==> #[trigger] code.subrange(2 + 33 * p, 34 + 33 * p) != target@
        }
    }

    /// Seed `s` takes part, and `account` may be its account key.
    pub open spec fn takes_part(
        &self,
        seeds: Seq<([u8; 64], bool)>,
        s: int,
        account: ExtendedPrivKey,
    ) -> bool {
        &&& 0 <= s < seeds.len()
        &&& s < 8
        &&& seeds[s].1
        &&& call_ensures(self.derive_account_key, (&seeds[s].0,), Ok(account))
    }

    /// `signature` is one that the signer may return for input `i`, as it
    /// stands when this input is being signed, with the private key `k`.
    pub open spec fn signature_with(
        &self,
        tx: Transaction,
        i: int,
        k: [u8; 32],
        sighash_type: SigHashType,
        signature: [u8; 64],
    ) -> bool {
        exists|t: Transaction| #[trigger]
            signing::only_signatures(tx, t) && call_ensures(
                self.sign_input,
                (&t, i as usize, &k, sighash_type),
                Ok(signature),
            )
    }

    /// A signature for `target` was made with the account key of a seed that
    /// takes part, or with a key of its address table; the public key of that
    /// key is noted with it.
    pub open spec fn made_by_seed(
        &self,
        seeds: Seq<([u8; 64], bool)>,
        only: Option<usize>,
        target: [u8; 32],
        tx: Transaction,
        i: int,
        sighash_type: SigHashType,
        slot: InputSig,
    ) -> bool {
        exists|s: int, account: ExtendedPrivKey, key: ExtendedPrivKey|
            #![trigger self.takes_part(seeds, s, account), self.signature_with(tx, i, key.private_key, sighash_type, slot.signature)]
            {
                &&& self.takes_part(seeds, s, account)
                &&& only matches Some(a) ==> a == s
                &&& {
                    ||| key == account && has_public_key(account.private_key, target)
                    ||| self.may_own_in_table(account, target, key)
                }
                &&& self.signature_with(tx, i, key.private_key, sighash_type, slot.signature)
                &&& signing::notes_public_key(key.private_key, slot)
            }
    }

    /// The transaction before and after input `at` is signed.
    proof fn lemma_reach(
        &self,
        slots: Seq<Option<SeedSlot>>,
        sighash_type: SigHashType,
        active: Option<usize>,
        tx: Transaction,
        i: int,
        n: int,
        count: int,
        after: Transaction,
        total: int,
        at: int,
    ) -> (r: (Transaction, Transaction, int))
        requires
            0 <= i <= at < n <= MAX_INPUTS,
            self.cosigns_from(slots, sighash_type, active, tx, i, n, count, after, total),
        ensures
            self.cosigns_input(slots, sighash_type, active, r.0, at, r.1, r.2),
            signing::only_signatures(tx, r.0),
            signing::stage(tx, after, at, r.0),
            after.inputs@[at] == r.1.inputs@[at],
        decreases at - i,
    {
        let (mid, added) = choose|mid: Transaction, added: int| #[trigger]
            self.cosigns_input(slots, sighash_type, active, tx, i, mid, added)
                && self.cosigns_from(
                slots,
                sighash_type,
                active,
                mid,
                i + 1,
                n,
                count + added,
                after,
                total,
            );
        self.lemma_input(slots, sighash_type, active, tx, i, mid, added);
        cosigning::lemma_cosigns(
            self,
            slots,
            sighash_type,
            active,
            mid,
            i + 1,
            n,
            count + added,
            after,
            total,
        );
        if i == at {
            assert forall|k: int| 0 <= k < MAX_INPUTS implies #[trigger] tx.inputs@[k] == if k < at {
                after.inputs@[k]
            } else {
                tx.inputs@[k]
            } by {
                if k < at {
                    assert(after.inputs@[k] == mid.inputs@[k]);
                    assert(mid.inputs@[k] == tx.inputs@[k]);
                }
            }
            (tx, mid, added)
        } else {
            let r = self.lemma_reach(
                slots,
                sighash_type,
                active,
                mid,
                i + 1,
                n,
                count + added,
                after,
                total,
                at,
            );
            assert forall|k: int| 0 <= k < MAX_INPUTS implies #[trigger] r.0.inputs@[k] == if k < at {
                after.inputs@[k]
            } else {
                tx.inputs@[k]
            } by {
                if k >= at {
                    assert(mid.inputs@[k] == tx.inputs@[k]);
                }
            }
            assert forall|k: int|
                #![trigger r.0.inputs@[k]]
                0 <= k < MAX_INPUTS implies signing::resigned(
                tx.inputs@[k],
                r.0.inputs@[k],
            ) by {
                assert(signing::resigned(mid.inputs@[k], r.0.inputs@[k]));
            }
            r
        }
    }

    /// A signature comes from one of the seeds.
    proof fn lemma_which_seed(
        &self,
        task: Task,
        slots: Seq<Option<SeedSlot>>,
        from: int,
        tx: Transaction,
        i: int,
        sighash_type: SigHashType,
        signed: Signed,
    ) -> (s: int)
        requires
            0 <= from,
            self.tries_seeds(task, slots, from, tx, i, sighash_type, Some(signed)),
        ensures
            from <= s < slots.len(),
            slots[s] is Some,
            self.tries_slot(task, slots[s], s, tx, i, sighash_type, Some(signed)),
        decreases slots.len() - from,
    {
        let u = choose|u: Option<Signed>| #[trigger]
            self.tries_slot(task, slots[from], from, tx, i, sighash_type, u) && if u is Some {
                Some(signed) == u
            } else {
                self.tries_seeds(task, slots, from + 1, tx, i, sighash_type, Some(signed))
            };
        if u is Some {
            from
        } else {
            self.lemma_which_seed(task, slots, from + 1, tx, i, sighash_type, signed)
        }
    }

    /// Where one of the seeds is sure to sign, some seed does.
    proof fn lemma_some_seed(
        &self,
        task: Task,
        slots: Seq<Option<SeedSlot>>,
        from: int,
        s: int,
        tx: Transaction,
        i: int,
        sighash_type: SigHashType,
        t: Option<Signed>,
    )
        requires
            0 <= from <= s < slots.len(),
            !self.tries_slot(task, slots[s], s, tx, i, sighash_type, None),
            self.tries_seeds(task, slots, from, tx, i, sighash_type, t),
        ensures
            t is Some,
        decreases s - from,
    {
        let u = choose|u: Option<Signed>| #[trigger]
            self.tries_slot(task, slots[from], from, tx, i, sighash_type, u) && if u is Some {
                t == u
            } else {
                self.tries_seeds(task, slots, from + 1, tx, i, sighash_type, t)
            };
        if u is None {
            self.lemma_some_seed(task, slots, from + 1, s, tx, i, sighash_type, t);
        }
    }

    /// A key that is sure to be found and derived is sure to sign.
    proof fn lemma_address_signs(
        &self,
        account: ExtendedPrivKey,
        target: [u8; 32],
        in_table: bool,
        tx: Transaction,
        i: int,
        sighash_type: SigHashType,
    )
        requires
            in_table ==> forall|key: ExtendedPrivKey| #[trigger]
                self.may_own_in_table(account, target, key) ==> self.signs_with(key.private_key),
            !in_table ==> forall|key: ExtendedPrivKey| #[trigger]
                self.may_own(account, target, key) ==> self.signs_with(key.private_key),
            self.always_derives(account),
            !self.finds(account, target, in_table, None),
        ensures
            !self.tries_address(account, target, in_table, tx, i, sighash_type, None),
    {
        if self.tries_address(account, target, in_table, tx, i, sighash_type, None) {
            let found = choose|found: Option<(u32, bool)>| #[trigger]
                self.finds(account, target, in_table, found) && match found {
                    Some((index, is_change)) => exists|k: Result<ExtendedPrivKey, ()>| #[trigger]
                        self.derives(account, index, is_change, k) && match k {
                            Ok(key) => self.tries_key(
                                tx,
                                i,
                                key.private_key,
                                keys::compressed_key(key.private_key@),
                                sighash_type,
                                None,
                            ),
                            Err(_) => true,
                        },
                    None => true,
                };
            let (index, is_change) = found.unwrap();
            let k = choose|k: Result<ExtendedPrivKey, ()>| #[trigger]
                self.derives(account, index, is_change, k) && match k {
                    Ok(key) => self.tries_key(
                        tx,
                        i,
                        key.private_key,
                        keys::compressed_key(key.private_key@),
                        sighash_type,
                        None,
                    ),
                    Err(_) => true,
                };
            match k {
                Ok(key) => {
                    assert(in_table ==> self.may_own_in_table(account, target, key));
                    assert(!in_table ==> self.may_own(account, target, key));
                    self.lemma_key_signs(
                        tx,
                        i,
                        key.private_key,
                        keys::compressed_key(key.private_key@),
                        sighash_type,
                    );
                },
                Err(e) => {
                    assert(e == ());
                },
            }
        }
    }

    proof fn lemma_key_signs(
        &self,
        tx: Transaction,
        i: int,
        private_key: [u8; 32],
        key: Option<[u8; 33]>,
        sighash_type: SigHashType,
    )
        requires
            self.signs_with(private_key),
        ensures
            !self.tries_key(tx, i, private_key, key, sighash_type, None),
    {
        if self.tries_key(tx, i, private_key, key, sighash_type, None) {
            let g = choose|g: Result<[u8; 64], ()>|
                #![trigger call_ensures(self.sign_input, (&tx, i as usize, &private_key, sighash_type), g)]
                {
                    &&& call_ensures(
                        self.sign_input,
                        (&tx, i as usize, &private_key, sighash_type),
                        g,
                    )
                    &&& None::<Signed> == match g {
                        Ok(signature) => Some((signature, key)),
                        Err(_) => None,
                    }
                };
            match g {
                Ok(_) => {},
                Err(e) => {
                    assert(e == ());
                },
            }
        }
    }

    /// What a key of an address signs, it signs with that key.
    proof fn lemma_address_signed(
        &self,
        account: ExtendedPrivKey,
        target: [u8; 32],
        in_table: bool,
        tx: Transaction,
        i: int,
        sighash_type: SigHashType,
        signed: Signed,
    ) -> (key: ExtendedPrivKey)
        requires
            self.tries_address(account, target, in_table, tx, i, sighash_type, Some(signed)),
        ensures
            in_table ==> self.may_own_in_table(account, target, key),
            !in_table ==> self.may_own(account, target, key),
            call_ensures(
                self.sign_input,
                (&tx, i as usize, &key.private_key, sighash_type),
                Ok(signed.0),
            ),
            signed.1 == keys::compressed_key(key.private_key@),
    {
        let found = choose|found: Option<(u32, bool)>| #[trigger]
            self.finds(account, target, in_table, found) && match found {
                Some((index, is_change)) => exists|k: Result<ExtendedPrivKey, ()>| #[trigger]
                    self.derives(account, index, is_change, k) && match k {
                        Ok(key) => self.tries_key(
                            tx,
                            i,
                            key.private_key,
                            keys::compressed_key(key.private_key@),
                            sighash_type,
                            Some(signed),
                        ),
                        Err(_) => false,
                    },
                None => false,
            };
        let (index, is_change) = found.unwrap();
        let k = choose|k: Result<ExtendedPrivKey, ()>| #[trigger]
            self.derives(account, index, is_change, k) && match k {
                Ok(key) => self.tries_key(
                    tx,
                    i,
                    key.private_key,
                    keys::compressed_key(key.private_key@),
                    sighash_type,
                    Some(signed),
                ),
                Err(_) => false,
            };
        k.unwrap()
    }

    /// A slot holds an account key that its seed may have.
    proof fn lemma_loaded(
        &self,
        seeds: Seq<([u8; 64], bool)>,
        slots: Seq<Option<SeedSlot>>,
        s: int,
    )
        requires
            self.loads_all(seeds, slots),
            0 <= s < slots.len(),
        ensures
            s < seeds.len() && s < 8,
            slots[s] matches Some(slot) ==> self.takes_part(seeds, s, slot.account)
                && slot.public_key == keys::compressed_key(slot.account.private_key@),
            slots[s] is None && seeds[s].1 ==> call_ensures(
                self.derive_account_key,
                (&seeds[s].0,),
                Err::<ExtendedPrivKey, ()>(()),
            ),
    {
        assert(self.loads(seeds[s], slots[s]));
        if seeds[s].1 && slots[s] is None {
            let a = choose|a: Result<ExtendedPrivKey, ()>|
                #![trigger call_ensures(self.derive_account_key, (&seeds[s].0,), a)]
                call_ensures(self.derive_account_key, (&seeds[s].0,), a) && a is Err;
            match a {
                Ok(_) => {},
                Err(e) => {
                    assert(e == ());
                },
            }
        }
    }

    /// A single-key input that is not signed yet is signed with the key of the
    /// address that it pays to, which a seed that takes part has, or is left
    /// as it was. Where a seed is sure to find its key, and signing with
    /// such a key does not fail, it is signed, at whatever index it and the
    /// seed stand, whatever becomes of the attempts with other seeds.
    pub proof fn law_single_key_input_is_signed(
        &self,
        seeds: Seq<([u8; 64], bool)>,
        sighash_type: SigHashType,
        active: Option<usize>,
        tx: Transaction,
        after: Transaction,
        total: int,
        i: int,
        target: [u8; 32],
    )
        requires
            tx.num_inputs <= MAX_INPUTS,
            self.cosigns(seeds, sighash_type, active, tx, after, total),
            0 <= i < tx.num_inputs,
            tx.inputs@[i].utxo_entry.script_public_key.script_len == 34,
            tx.inputs@[i].utxo_entry.script_public_key.script@[0] == 0x20,
            tx.inputs@[i].utxo_entry.script_public_key.script@[33] == 0xAC,
            tx.inputs@[i].utxo_entry.script_public_key.script@.subrange(1, 33) == target@,
            tx.inputs@[i].sig_len == 0,
        ensures
            after.inputs@[i] != tx.inputs@[i] ==> {
                let x = after.inputs@[i];
                &&& x.sig_len == 64 && x.sig_count == 1 && x.sigs@[0].present
                &&& x.sigs@[0].signature == x.signature && x.sigs@[0].pubkey_pos == 0
                &&& x.sighash_type == sighash_type.byte()
                &&& x.sigs@[0].sighash_type == sighash_type.byte()
                &&& exists|s: int, account: ExtendedPrivKey, key: ExtendedPrivKey|
                    #![trigger self.takes_part(seeds, s, account), self.may_own(account, target, key)]
                    {
                        &&& self.takes_part(seeds, s, account)
                        &&& self.may_own(account, target, key)
                        &&& signing::signer_returns(
                            self.sign_input,
                            key.private_key,
                            sighash_type,
                            tx,
                            after,
                            i,
                            Ok(x.signature),
                        )
                        &&& signing::notes_public_key(key.private_key, x.sigs@[0])
                    }
            },
            (exists|s: int|
                {
                    &&& 0 <= s < seeds.len() && s < 8
                    &&& #[trigger] self.surely_finds(seeds[s], target)
                    &&& self.never_fails_to_sign() || self.signs_when_found(seeds[s], target)
                }) ==> after.inputs@[i].sig_len == 64,
    {
        let n = tx.num_inputs as int;
        let slots = choose|slots: Seq<Option<SeedSlot>>| #[trigger]
            self.loads_all(seeds, slots) && self.cosigns_from(
                slots,
                sighash_type,
                active,
                tx,
                0,
                n,
                0,
                after,
                total,
            );
        let (cur, mid, added) = self.lemma_reach(
            slots,
            sighash_type,
            active,
            tx,
            0,
            n,
            0,
            after,
            total,
            i,
        );
        assert(cur.inputs@[i] == tx.inputs@[i]);
        lemma_array(target);
        let task = Task::Address { target };
        let t = choose|t: Option<Signed>| #[trigger]
            self.tries_seeds(task, slots, 0, cur, i, sighash_type, t) && match t {
                Some(signed) => {
                    &&& added == 1
                    &&& mid == cur.with_input(
                        i,
                        signing::single_signed(
                            cur.inputs@[i],
                            signed.0,
                            sighash_type,
                            0,
                            signed.1,
                        ),
                    )
                },
                None => mid == cur && added == 0,
            };
        if let Some(signed) = t {
            let s = self.lemma_which_seed(task, slots, 0, cur, i, sighash_type, signed);
            let account = slots[s].unwrap().account;
            self.lemma_loaded(seeds, slots, s);
            let key = self.lemma_address_signed(
                account,
                target,
                false,
                cur,
                i,
                sighash_type,
                signed,
            );
            assert(signing::signer_returns(
                self.sign_input,
                key.private_key,
                sighash_type,
                tx,
                after,
                i,
                Ok(signed.0),
            ));
            assert(after.inputs@[i].signature == signed.0);
        }
        if exists|s: int|
            {
                &&& 0 <= s < seeds.len() && s < 8
                &&& #[trigger] self.surely_finds(seeds[s], target)
                &&& self.never_fails_to_sign() || self.signs_when_found(seeds[s], target)
            } {
            let s = choose|s: int|
                {
                    &&& 0 <= s < seeds.len() && s < 8
                    &&& #[trigger] self.surely_finds(seeds[s], target)
                    &&& self.never_fails_to_sign() || self.signs_when_found(seeds[s], target)
                };
            self.lemma_loaded(seeds, slots, s);
            let account = slots[s].unwrap().account;
            assert(!self.finds(account, target, false, None));
            self.lemma_address_signs(account, target, false, cur, i, sighash_type);
            self.lemma_some_seed(task, slots, 0, s, cur, i, sighash_type, t);
        }
    }
}

impl<A, F, T, D, C, S> KeySource<A, F, T, D, C, S> where
    A: Fn(&[u8; 64]) -> Result<ExtendedPrivKey, ()>,
    F: Fn(&ExtendedPrivKey, &[u8; 32]) -> Option<(u32, bool)>,
    T: Fn(&ExtendedPrivKey, &[u8; 32]) -> Option<(u32, bool)>,
    D: Fn(&ExtendedPrivKey, u32) -> Result<ExtendedPrivKey, ()>,
    C: Fn(&ExtendedPrivKey, u32) -> Result<ExtendedPrivKey, ()>,
    S: Fn(&Transaction, usize, &[u8; 32], SigHashType) -> Result<[u8; 64], ()>,
 {
    /// A signature for a multisig position comes from the account key or the
    /// address table of a seed.
    proof fn lemma_position_made(
        &self,
        seeds: Seq<([u8; 64], bool)>,
        slots: Seq<Option<SeedSlot>>,
        ms: MultisigInfo,
        pos: int,
        tx: Transaction,
        cur: Transaction,
        i: int,
        sighash_type: SigHashType,
        signed: Signed,
        slot: InputSig,
    )
        requires
            slot.signature == signed.0,
            signed.1 matches Some(k) ==> slot.pubkey_compressed == k,
            0 <= pos < ms.n <= 5,
            self.loads_all(seeds, slots),
            signing::only_signatures(tx, cur),
            self.tries_seeds(
                (Task::Position { pubkeys: ms.pubkeys, n: ms.n, pos: pos as u8 }),
                slots,
                0,
                cur,
                i,
                sighash_type,
                Some(signed),
            ),
        ensures
            self.made_by_seed(
                seeds,
                None,
                ms.pubkeys@[pos],
                tx,
                i,
                sighash_type,
                slot,
            ),
    {
        let task = Task::Position { pubkeys: ms.pubkeys, n: ms.n, pos: pos as u8 };
        let target = ms.pubkeys@[pos];
        let s = self.lemma_which_seed(task, slots, 0, cur, i, sighash_type, signed);
        self.lemma_loaded(seeds, slots, s);
        let seed = slots[s].unwrap();
        let account = seed.account;
        lemma_account_position(seed, ms.pubkeys, ms.n as int, 0);
        let key = if cosigning::account_position(seed, ms.pubkeys, ms.n as int, 0) == Some(pos) {
            account
        } else {
            self.lemma_address_signed(account, target, true, cur, i, sighash_type, signed)
        };
        assert(self.signature_with(tx, i, key.private_key, sighash_type, signed.0));
    }

    proof fn lemma_positions_made(
        &self,
        seeds: Seq<([u8; 64], bool)>,
        slots: Seq<Option<SeedSlot>>,
        ms: MultisigInfo,
        sighash_type: SigHashType,
        tx: Transaction,
        cur: Transaction,
        i: int,
        pos: int,
        count: int,
        after: Transaction,
        total: int,
    )
        requires
            0 <= i < MAX_INPUTS,
            0 <= pos,
            ms.n <= 5,
            cur.inputs@[i].sig_count <= 5,
            self.loads_all(seeds, slots),
            signing::only_signatures(tx, cur),
            self.signs_positions(ms, slots, sighash_type, cur, i, pos, count, after, total),
        ensures
            forall|k: int|
                #![trigger after.inputs@[i].sigs@[k]]
                cur.inputs@[i].sig_count <= k < after.inputs@[i].sig_count ==> self.slot_made(
                    seeds,
                    ms,
                    sighash_type,
                    tx,
                    after,
                    i,
                    k,
                    pos,
                ),
        decreases ms.n - pos,
    {
        self.lemma_positions(ms, slots, sighash_type, cur, i, pos, count, after, total);
        if pos < ms.n {
            if cosigning::has_position(cur.inputs@[i], pos) {
                self.lemma_positions_made(
                    seeds,
                    slots,
                    ms,
                    sighash_type,
                    tx,
                    cur,
                    i,
                    pos + 1,
                    count,
                    after,
                    total,
                );
            } else {
                let task = Task::Position { pubkeys: ms.pubkeys, n: ms.n, pos: pos as u8 };
                let room = cur.inputs@[i].sig_count < 5;
                let t = choose|t: Option<Signed>| #[trigger]
                    self.tries_seeds(task, slots, 0, cur, i, sighash_type, t) && match t {
                        Some(signed) => self.signs_positions(
                            ms,
                            slots,
                            sighash_type,
                            cur.with_input(
                                i,
                                cosigning::appended(
                                    cur.inputs@[i],
                                    signed,
                                    sighash_type,
                                    pos as u8,
                                ),
                            ),
                            i,
                            pos + 1,
                            if cur.inputs@[i].sig_count < MAX_SIGS_PER_INPUT {
                                count + 1
                            } else {
                                count
                            },
                            after,
                            total,
                        ),
                        None => self.signs_positions(
                            ms,
                            slots,
                            sighash_type,
                            cur,
                            i,
                            pos + 1,
                            count,
                            after,
                            total,
                        ),
                    };
                let (next, sum) = match t {
                    Some(signed) => (
                        cur.with_input(
                            i,
                            cosigning::appended(cur.inputs@[i], signed, sighash_type, pos as u8),
                        ),
                        if room {
                            count + 1
                        } else {
                            count
                        },
                    ),
                    None => (cur, count),
                };
                assert forall|k: int|
                    #![trigger next.inputs@[k]]
                    0 <= k < MAX_INPUTS implies signing::resigned(
                    tx.inputs@[k],
                    next.inputs@[k],
                ) by {
                    assert(signing::resigned(tx.inputs@[k], cur.inputs@[k]));
                }
                self.lemma_positions_made(
                    seeds,
                    slots,
                    ms,
                    sighash_type,
                    tx,
                    next,
                    i,
                    pos + 1,
                    sum,
                    after,
                    total,
                );
                self.lemma_positions(ms, slots, sighash_type, next, i, pos + 1, sum, after, total);
                if let Some(signed) = t {
                    if room {
                        let c = cur.inputs@[i].sig_count as int;
                        let slot = after.inputs@[i].sigs@[c];
                        assert(slot == next.inputs@[i].sigs@[c]);
                        assert forall|j: int|
                            0 <= j < c && #[trigger] after.inputs@[i].sigs@[j].present implies
                            after.inputs@[i].sigs@[j].pubkey_pos != pos by {
                            assert(after.inputs@[i].sigs@[j] == next.inputs@[i].sigs@[j]);
                            assert(next.inputs@[i].sigs@[j] == cur.inputs@[i].sigs@[j]);
                        }
                        self.lemma_position_made(
                            seeds,
                            slots,
                            ms,
                            pos,
                            tx,
                            cur,
                            i,
                            sighash_type,
                            signed,
                            slot,
                        );
                    }
                }
            }
        }
    }

    /// Signature slot `k` holds a signature for a position from `pos` on that no
    /// slot in front has, made by a seed that has the key of that position.
    pub open spec fn slot_made(
        &self,
        seeds: Seq<([u8; 64], bool)>,
        ms: MultisigInfo,
        sighash_type: SigHashType,
        tx: Transaction,
        after: Transaction,
        i: int,
        k: int,
        pos: int,
    ) -> bool {
        let slot = after.inputs@[i].sigs@[k];
        &&& slot.present
        &&& slot.sighash_type == sighash_type.byte()
        &&& pos <= slot.pubkey_pos < ms.n
        &&& forall|j: int|
            0 <= j < k && #[trigger] after.inputs@[i].sigs@[j].present
                ==> after.inputs@[i].sigs@[j].pubkey_pos != slot.pubkey_pos
        &&& self.made_by_seed(
            seeds,
            None,
            ms.pubkeys@[slot.pubkey_pos as int],
            tx,
            i,
            sighash_type,
            slot,
        )
    }

    /// A multisig input, direct or behind a script hash, keeps its signatures,
    /// and gets new ones behind them: each is for one of the positions of the
    /// script that has none yet, and made by a seed that has its key. Where signing does not fail
    /// and a seed is sure to have the key of a position, as its account key
    /// (where the script lists it first) or in its address table, that
    /// position is signed, at whatever index input, seed and position stand,
    /// unless all five slots are taken. The first signature is also in the
    /// fields for single-signature readers, unless these were set.
    pub proof fn law_multisig_input_is_signed(
        &self,
        seeds: Seq<([u8; 64], bool)>,
        sighash_type: SigHashType,
        active: Option<usize>,
        tx: Transaction,
        after: Transaction,
        total: int,
        i: int,
        code: Seq<u8>,
        m: int,
        n: int,
        pos: int,
        target: [u8; 32],
    )
        requires
            cosigning::cosignable(tx),
            self.cosigns(seeds, sighash_type, active, tx, after, total),
            0 <= i < tx.num_inputs,
            ({
                let x = tx.inputs@[i];
                let s = x.utxo_entry.script_public_key.script@;
                let len = x.utxo_entry.script_public_key.script_len as int;
                ||| code == s.take(len)
                ||| len == 35 && s[0] == 0xAA && s[1] == 0x20 && s[34] == 0x87
                    && x.redeem_script_len > 0 && code == tx.redeem(i)
            }),
            1 <= m <= n <= 5,
            code.len() == 3 + 33 * n,
            code[0] == 0x50 + m,
            code[code.len() - 2] == 0x50 + n,
            code[code.len() - 1] == 0xAE,
            forall|k: int| 0 <= k < n ==> #[trigger] code[1 + k * 33] == 0x20,
            0 <= pos < n,
            target@ == code.subrange(2 + 33 * pos, 34 + 33 * pos),
        ensures
            tx.inputs@[i].sig_count <= after.inputs@[i].sig_count <= 5,
            forall|k: int|
                0 <= k < tx.inputs@[i].sig_count ==> #[trigger] after.inputs@[i].sigs@[k]
                    == tx.inputs@[i].sigs@[k],
            forall|k: int|
                #![trigger after.inputs@[i].sigs@[k]]
                tx.inputs@[i].sig_count <= k < after.inputs@[i].sig_count ==> {
                    let slot = after.inputs@[i].sigs@[k];
                    &&& slot.present && slot.pubkey_pos < n
                    &&& slot.sighash_type == sighash_type.byte()
                    &&& forall|j: int|
                        0 <= j < k && #[trigger] after.inputs@[i].sigs@[j].present
                            ==> after.inputs@[i].sigs@[j].pubkey_pos != slot.pubkey_pos
                    &&& slot.pubkey_pos == pos ==> self.made_by_seed(
                        seeds,
                        None,
                        target,
                        tx,
                        i,
                        sighash_type,
                        slot,
                    )
                },
            self.never_fails_to_sign() && (exists|s: int|
                0 <= s < seeds.len() && s < 8 && #[trigger] self.surely_holds_position(
                    seeds[s],
                    code,
                    pos,
                    target,
                )) ==> after.inputs@[i].sig_count == 5 || exists|k: int|
                0 <= k < after.inputs@[i].sig_count && #[trigger] after.inputs@[i].sigs@[k].present
                    && after.inputs@[i].sigs@[k].pubkey_pos == pos,
            tx.inputs@[i].sig_len > 0 ==> after.inputs@[i].sig_len == tx.inputs@[i].sig_len
                && after.inputs@[i].signature == tx.inputs@[i].signature,
            tx.inputs@[i].sig_len == 0 && after.inputs@[i].sig_count > 0 ==> {
                &&& after.inputs@[i].sig_len == 64
                &&& after.inputs@[i].signature == after.inputs@[i].sigs@[0].signature
                &&& after.inputs@[i].sighash_type == after.inputs@[i].sigs@[0].sighash_type
            },
    {
        let count = tx.num_inputs as int;
        let slots = choose|slots: Seq<Option<SeedSlot>>| #[trigger]
            self.loads_all(seeds, slots) && self.cosigns_from(
                slots,
                sighash_type,
                active,
                tx,
                0,
                count,
                0,
                after,
                total,
            );
        let ms = lemma_multisig_input(tx, i, code, m, n);
        lemma_position_key(code, n, ms, pos, target);
        let (cur, mid, added) = self.lemma_reach(
            slots,
            sighash_type,
            active,
            tx,
            0,
            count,
            0,
            after,
            total,
            i,
        );
        assert(cur.inputs@[i] == tx.inputs@[i]);
        assert(status::analysis(cur, i) == status::analysis(tx, i));
        let pre = choose|pre: Transaction| #[trigger]
            self.signs_positions(ms, slots, sighash_type, cur, i, 0, 0, pre, added) && mid
                == pre.with_input(i, cosigning::synced(pre.inputs@[i]));
        self.lemma_positions(ms, slots, sighash_type, cur, i, 0, 0, pre, added);
        self.lemma_positions_made(
            seeds,
            slots,
            ms,
            sighash_type,
            tx,
            cur,
            i,
            0,
            0,
            pre,
            added,
        );
        assert(mid.inputs@[i].sigs == pre.inputs@[i].sigs);
        assert forall|k: int|
            #![trigger after.inputs@[i].sigs@[k]]
            tx.inputs@[i].sig_count <= k < after.inputs@[i].sig_count implies {
            let slot = after.inputs@[i].sigs@[k];
            &&& slot.present && slot.pubkey_pos < n
            &&& slot.sighash_type == sighash_type.byte()
            &&& forall|j: int|
                0 <= j < k && #[trigger] after.inputs@[i].sigs@[j].present
                    ==> after.inputs@[i].sigs@[j].pubkey_pos != slot.pubkey_pos
            &&& slot.pubkey_pos == pos ==> self.made_by_seed(
                seeds,
                None,
                target,
                tx,
                i,
                sighash_type,
                slot,
            )
        } by {
            assert(after.inputs@[i].sigs@[k] == pre.inputs@[i].sigs@[k]);
            assert(self.slot_made(seeds, ms, sighash_type, tx, pre, i, k, 0));
        }
        assert forall|k: int| 0 <= k < tx.inputs@[i].sig_count implies #[trigger] after.inputs@[i].sigs@[k]
            == tx.inputs@[i].sigs@[k] by {
            assert(pre.inputs@[i].sigs@[k] == cur.inputs@[i].sigs@[k]);
        }
        if self.never_fails_to_sign() && (exists|s: int|
            0 <= s < seeds.len() && s < 8 && #[trigger] self.surely_holds_position(
                seeds[s],
                code,
                pos,
                target,
            )) {
            let s = choose|s: int|
                0 <= s < seeds.len() && s < 8 && #[trigger] self.surely_holds_position(
                    seeds[s],
                    code,
                    pos,
                    target,
                );
            self.lemma_loaded(seeds, slots, s);
            let slot = slots[s].unwrap();
            self.lemma_slot_holds(seeds, slots, s, code, n, ms, pos, target);
            assert(slots[s] is Some);
            assert(cosigning::holds_position(self, slots, ms, pos));
            self.lemma_always_signs();
            cosigning::law_held_positions_are_signed(
                self,
                slots,
                sighash_type,
                active,
                tx,
                after,
                total,
                i,
                pos,
            );
        }
    }

    proof fn lemma_always_signs(&self)
        requires
            self.never_fails_to_sign(),
        ensures
            cosigning::always_signs(self),
    {
        assert forall|
            tx: &Transaction,
            i: usize,
            k: &[u8; 32],
            ty: SigHashType,
            g: Result<[u8; 64], ()>,
        | #[trigger] call_ensures(self.sign_input, (tx, i, k, ty), g) implies g is Ok by {
            match g {
                Ok(_) => {},
                Err(e) => {
                    assert(e == ());
                },
            }
        }
    }

    proof fn lemma_slot_holds(
        &self,
        seeds: Seq<([u8; 64], bool)>,
        slots: Seq<Option<SeedSlot>>,
        s: int,
        code: Seq<u8>,
        n: int,
        ms: MultisigInfo,
        pos: int,
        target: [u8; 32],
    )
        requires
            self.loads_all(seeds, slots),
            0 <= s < slots.len(),
            0 <= pos < n == ms.n <= 5,
            ms.pubkeys@[pos] == target,
            forall|p: int|
                0 <= p < n ==> (#[trigger] ms.pubkeys@[p])@ == code.subrange(
                    2 + 33 * p,
                    34 + 33 * p,
                ),
            self.surely_holds_position(seeds[s], code, pos, target),
        ensures
            slots[s] is Some,
            cosigning::slot_holds(self, slots[s].unwrap(), ms, pos),
    {
        self.lemma_loaded(seeds, slots, s);
        let slot = slots[s].unwrap();
        let account = slot.account;
        if self.surely_has_in_table(seeds[s], target) {
            assert forall|found: Option<(u32, bool)>| #[trigger]
                self.finds(account, target, true, found) implies found is Some && forall|
                k: Result<ExtendedPrivKey, ()>,
            | #[trigger]
                self.derives(account, found.unwrap().0, found.unwrap().1, k) ==> k is Ok by {
                assert forall|k: Result<ExtendedPrivKey, ()>| #[trigger]
                    self.derives(account, found.unwrap().0, found.unwrap().1, k) implies k is Ok by {
                    match k {
                        Ok(_) => {},
                        Err(e) => {
                            assert(e == ());
                        },
                    }
                }
            }
            assert(cosigning::holds_address(self, account, target));
        } else {
            assert forall|p: int| 0 <= p < pos implies #[trigger] ms.pubkeys@[p] != target by {
                assert(ms.pubkeys@[p]@ == code.subrange(2 + 33 * p, 34 + 33 * p));
            }
            lemma_first_position(slot, ms.pubkeys, n, 0, pos);
        }
    }
}

impl<A, F, T, D, C, S> KeySource<A, F, T, D, C, S> where
    A: Fn(&[u8; 64]) -> Result<ExtendedPrivKey, ()>,
    F: Fn(&ExtendedPrivKey, &[u8; 32]) -> Option<(u32, bool)>,
    T: Fn(&ExtendedPrivKey, &[u8; 32]) -> Option<(u32, bool)>,
    D: Fn(&ExtendedPrivKey, u32) -> Result<ExtendedPrivKey, ()>,
    C: Fn(&ExtendedPrivKey, u32) -> Result<ExtendedPrivKey, ()>,
    S: Fn(&Transaction, usize, &[u8; 32], SigHashType) -> Result<[u8; 64], ()>,
 {
    /// A signature for a covenant key comes from the account key or the
    /// address table of a seed.
    proof fn lemma_covenant_made(
        &self,
        seeds: Seq<([u8; 64], bool)>,
        slots: Seq<Option<SeedSlot>>,
        active: Option<usize>,
        target: [u8; 32],
        tx: Transaction,
        cur: Transaction,
        i: int,
        sighash_type: SigHashType,
        signed: Signed,
        slot: InputSig,
    )
        requires
            slot.signature == signed.0,
            signed.1 matches Some(k) ==> slot.pubkey_compressed == k,
            self.loads_all(seeds, slots),
            signing::only_signatures(tx, cur),
            self.tries_seeds(
                (Task::Covenant { target, active }),
                slots,
                0,
                cur,
                i,
                sighash_type,
                Some(signed),
            ),
        ensures
            self.made_by_seed(seeds, active, target, tx, i, sighash_type, slot),
    {
        let task = Task::Covenant { target, active };
        let s = self.lemma_which_seed(task, slots, 0, cur, i, sighash_type, signed);
        self.lemma_loaded(seeds, slots, s);
        let seed = slots[s].unwrap();
        let account = seed.account;
        assert(s as usize == s);
        let own = seed.public_key is Some && keys::x_only(seed.public_key.unwrap()) == target;
        let key = if own && self.tries_key(
            cur,
            i,
            account.private_key,
            seed.public_key,
            sighash_type,
            Some(signed),
        ) {
            account
        } else {
            self.lemma_address_signed(account, target, true, cur, i, sighash_type, signed)
        };
        assert(self.signature_with(tx, i, key.private_key, sighash_type, signed.0));
    }

    /// A seed that is sure to have a covenant key signs with it.
    proof fn lemma_covenant_signs(
        &self,
        seeds: Seq<([u8; 64], bool)>,
        slots: Seq<Option<SeedSlot>>,
        active: Option<usize>,
        target: [u8; 32],
        s: int,
        cur: Transaction,
        i: int,
        sighash_type: SigHashType,
    )
        requires
            self.loads_all(seeds, slots),
            0 <= s < slots.len(),
            active matches Some(a) ==> a == s,
            self.surely_signs(seeds[s], target),
        ensures
            !self.tries_slot(
                (Task::Covenant { target, active }),
                slots[s],
                s,
                cur,
                i,
                sighash_type,
                None,
            ),
    {
        self.lemma_loaded(seeds, slots, s);
        let slot = slots[s].unwrap();
        let account = slot.account;
        if self.never_fails_to_sign() {
            self.lemma_key_signs(cur, i, account.private_key, slot.public_key, sighash_type);
        }
        if self.surely_has_in_table(seeds[s], target) {
            assert(!self.finds(account, target, true, None));
            self.lemma_address_signs(account, target, true, cur, i, sighash_type);
        }
    }

    proof fn lemma_covenant_outcome(
        &self,
        seeds: Seq<([u8; 64], bool)>,
        slots: Seq<Option<SeedSlot>>,
        active: Option<usize>,
        candidates: Seq<[u8; 32]>,
        sighash_type: SigHashType,
        tx: Transaction,
        cur: Transaction,
        i: int,
        c: int,
        mid: Transaction,
        added: int,
    )
        requires
            0 <= i < MAX_INPUTS,
            0 <= c,
            candidates.len() <= 8,
            self.loads_all(seeds, slots),
            signing::only_signatures(tx, cur),
            self.signs_covenant(
                candidates,
                active,
                slots,
                sighash_type,
                cur,
                i,
                c,
                mid,
                added,
            ),
        ensures
            mid.inputs@[i] != cur.inputs@[i] ==> {
                let x = mid.inputs@[i];
                &&& c <= x.sigs@[0].pubkey_pos < candidates.len()
                &&& covenant_signed(x, sighash_type)
                &&& self.made_by_seed(
                    seeds,
                    active,
                    candidates[x.sigs@[0].pubkey_pos as int],
                    tx,
                    i,
                    sighash_type,
                    x.sigs@[0],
                )
            },
            (exists|d: int, s: int|
                c <= d < candidates.len() && 0 <= s < slots.len() && (active matches Some(a) ==> a
                    == s) && #[trigger] self.surely_signs(seeds[s], candidates[d]))
                ==> mid.inputs@[i].sig_count == 1 && covenant_signed(mid.inputs@[i], sighash_type),
        decreases candidates.len() - c,
    {
        if c < candidates.len() {
            let task = Task::Covenant { target: candidates[c], active };
            let t = choose|t: Option<Signed>| #[trigger]
                self.tries_seeds(task, slots, 0, cur, i, sighash_type, t) && match t {
                    Some(signed) => {
                        &&& added == 1
                        &&& mid == cur.with_input(
                            i,
                            signing::single_signed(
                                cur.inputs@[i],
                                signed.0,
                                sighash_type,
                                c as u8,
                                signed.1,
                            ),
                        )
                    },
                    None => self.signs_covenant(
                        candidates,
                        active,
                        slots,
                        sighash_type,
                        cur,
                        i,
                        c + 1,
                        mid,
                        added,
                    ),
                };
            match t {
                Some(signed) => {
                    self.lemma_covenant_made(
                        seeds,
                        slots,
                        active,
                        candidates[c],
                        tx,
                        cur,
                        i,
                        sighash_type,
                        signed,
                        mid.inputs@[i].sigs@[0],
                    );
                },
                None => {
                    self.lemma_covenant_outcome(
                        seeds,
                        slots,
                        active,
                        candidates,
                        sighash_type,
                        tx,
                        cur,
                        i,
                        c + 1,
                        mid,
                        added,
                    );
                    assert forall|s: int|
                        0 <= s < slots.len() && (active matches Some(a) ==> a == s) implies !(
                    #[trigger] self.surely_signs(seeds[s], candidates[c])) by {
                        if self.surely_signs(seeds[s], candidates[c]) {
                            self.lemma_covenant_signs(
                                seeds,
                                slots,
                                active,
                                candidates[c],
                                s,
                                cur,
                                i,
                                sighash_type,
                            );
                            self.lemma_some_seed(
                                task,
                                slots,
                                0,
                                s,
                                cur,
                                i,
                                sighash_type,
                                t,
                            );
                        }
                    }
                },
            }
        }
    }

    /// A seed is sure to have a key, as its account key or in its address
    /// table, and signing does not fail; or it has it in the table, and signing
    /// does not fail with that.
    pub open spec fn surely_signs(&self, seed: ([u8; 64], bool), target: [u8; 32]) -> bool {
        ||| self.never_fails_to_sign() && self.surely_has_account_key(seed, target)
        ||| self.never_fails_to_sign() && self.surely_has_in_table(seed, target)
        ||| self.signs_when_in_table(seed, target) && self.surely_has_in_table(seed, target)
    }

    /// A covenant input that is not signed yet is left as it was, or signed
    /// for one of the keys that its redeem script asks for, whose number among
    /// them is noted, by a seed that has that key, and by no other than the
    /// active seed where there is one. Where a seed that may sign is sure to
    /// have one of the keys, and signing with it does not fail, it is signed.
    pub proof fn law_covenant_input_is_signed(
        &self,
        seeds: Seq<([u8; 64], bool)>,
        sighash_type: SigHashType,
        active: Option<usize>,
        tx: Transaction,
        after: Transaction,
        total: int,
        i: int,
    )
        requires
            cosigning::cosignable(tx),
            self.cosigns(seeds, sighash_type, active, tx, after, total),
            0 <= i < tx.num_inputs,
            tx.inputs@[i].utxo_entry.script_public_key.script_len == 35,
            tx.inputs@[i].utxo_entry.script_public_key.script@[0] == 0xAA,
            tx.inputs@[i].utxo_entry.script_public_key.script@[1] == 0x20,
            tx.inputs@[i].utxo_entry.script_public_key.script@[34] == 0x87,
            !(script::script_type(tx.redeem(i), tx.redeem(i).len() as int) is Multisig),
            tx.inputs@[i].sig_count == 0,
        ensures
            ({
                let found = covenant::candidates(tx.redeem(i));
                let x = after.inputs@[i];
                &&& x != tx.inputs@[i] ==> {
                    &&& x.sigs@[0].pubkey_pos < found.len()
                    &&& covenant_signed(x, sighash_type)
                    &&& self.made_by_seed(
                        seeds,
                        active,
                        found[x.sigs@[0].pubkey_pos as int],
                        tx,
                        i,
                        sighash_type,
                        x.sigs@[0],
                    )
                }
                &&& (exists|d: int, s: int|
                    0 <= d < found.len() && 0 <= s < seeds.len() && s < 8 && (active matches Some(
                        a,
                    ) ==> a == s) && #[trigger] self.surely_signs(seeds[s], found[d]))
                    ==> covenant_signed(x, sighash_type)
            }),
    {
        let n = tx.num_inputs as int;
        let slots = choose|slots: Seq<Option<SeedSlot>>| #[trigger]
            self.loads_all(seeds, slots) && self.cosigns_from(
                slots,
                sighash_type,
                active,
                tx,
                0,
                n,
                0,
                after,
                total,
            );
        let (cur, mid, added) = self.lemma_reach(
            slots,
            sighash_type,
            active,
            tx,
            0,
            n,
            0,
            after,
            total,
            i,
        );
        assert(cur.inputs@[i] == tx.inputs@[i]);
        assert(cur.redeem(i) == tx.redeem(i));
        assert(status::analyzable(tx, i));
        let found = covenant::candidates(tx.redeem(i));
        covenant::lemma_room(tx.redeem(i), 0, 8, 8);
        assert(status::analysis(cur, i).0 is P2SH);
        assert(status::analysis(cur, i).1 is None);
        self.lemma_covenant_outcome(
            seeds,
            slots,
            active,
            found,
            sighash_type,
            tx,
            cur,
            i,
            0,
            mid,
            added,
        );
    }

    /// An input whose script is of no known kind, and one that is not in use,
    /// is left as it was.
    pub proof fn law_other_inputs_are_left_alone(
        &self,
        seeds: Seq<([u8; 64], bool)>,
        sighash_type: SigHashType,
        active: Option<usize>,
        tx: Transaction,
        after: Transaction,
        total: int,
        i: int,
    )
        requires
            tx.num_inputs <= MAX_INPUTS,
            self.cosigns(seeds, sighash_type, active, tx, after, total),
            0 <= i < MAX_INPUTS,
            i >= tx.num_inputs || script::script_type(
                tx.inputs@[i].utxo_entry.script_public_key.script@,
                tx.inputs@[i].utxo_entry.script_public_key.script_len as int,
            ) is Unknown,
        ensures
            after.inputs@[i] == tx.inputs@[i],
    {
        let n = tx.num_inputs as int;
        let slots = choose|slots: Seq<Option<SeedSlot>>| #[trigger]
            self.loads_all(seeds, slots) && self.cosigns_from(
                slots,
                sighash_type,
                active,
                tx,
                0,
                n,
                0,
                after,
                total,
            );
        if i < n {
            let (cur, mid, added) = self.lemma_reach(
                slots,
                sighash_type,
                active,
                tx,
                0,
                n,
                0,
                after,
                total,
                i,
            );
            assert(cur.inputs@[i] == tx.inputs@[i]);
        } else {
            cosigning::lemma_cosigns(
                self,
                slots,
                sighash_type,
                active,
                tx,
                0,
                n,
                0,
                after,
                total,
            );
        }
    }
}

/// An input has one signature, in its first slot and in the fields for
/// single-signature readers.
pub open spec fn covenant_signed(x: TransactionInput, sighash_type: SigHashType) -> bool {
    &&& x.sig_count == 1 && x.sig_len == 64 && x.sigs@[0].present
    &&& x.sigs@[0].signature == x.signature
    &&& x.sighash_type == sighash_type.byte()
    &&& x.sigs@[0].sighash_type == sighash_type.byte()
}

/// The parameters of a multisig input.
proof fn lemma_multisig_input(tx: Transaction, i: int, code: Seq<u8>, m: int, n: int) -> (ms:
    MultisigInfo)
    requires
        cosigning::cosignable(tx),
        0 <= i < tx.num_inputs,
        ({
            let x = tx.inputs@[i];
            let s = x.utxo_entry.script_public_key.script@;
            let len = x.utxo_entry.script_public_key.script_len as int;
            ||| code == s.take(len)
            ||| len == 35 && s[0] == 0xAA && s[1] == 0x20 && s[34] == 0x87 && x.redeem_script_len
                > 0 && code == tx.redeem(i)
        }),
        1 <= m <= n <= 5,
        code.len() == 3 + 33 * n,
        code[0] == 0x50 + m,
        code[code.len() - 2] == 0x50 + n,
        code[code.len() - 1] == 0xAE,
        forall|k: int| 0 <= k < n ==> #[trigger] code[1 + k * 33] == 0x20,
    ensures
        status::analysis(tx, i).1 == Some(ms),
        status::analysis(tx, i).0 is Multisig || status::analysis(tx, i).0 is P2SH,
        ms.m == m,
        ms.n == n,
        forall|k: int|
            0 <= k < n ==> (#[trigger] ms.pubkeys@[k])@ == code.subrange(2 + 33 * k, 34 + 33 * k),
        tx.inputs@[i].sig_count <= 5,
{
    let x = tx.inputs@[i];
    let s = x.utxo_entry.script_public_key.script@;
    let len = x.utxo_entry.script_public_key.script_len as int;
    assert(status::analyzable(tx, i));
    script::law_multisig_script(code, code.len() as int, m, n);
    status::law_redeem_script_decides(tx, i);
    if code == s.take(len) {
        assert(s[0] == code[0]);
        assert(s[len - 2] == code[len - 2]);
        assert(s[len - 1] == code[len - 1]);
        assert forall|k: int| 0 <= k < n implies #[trigger] s[1 + k * 33] == 0x20 by {
            assert(code[1 + k * 33] == 0x20);
        }
        script::law_multisig_script(s, len, m, n);
        let ms = script::multisig_info(s, len).unwrap();
        assert forall|k: int| 0 <= k < n implies (#[trigger] ms.pubkeys@[k])@ == code.subrange(
            2 + 33 * k,
            34 + 33 * k,
        ) by {
            assert(code.subrange(2 + 33 * k, 34 + 33 * k) =~= s.subrange(2 + 33 * k, 34 + 33 * k));
        }
        ms
    } else {
        script::multisig_info(code, code.len() as int).unwrap()
    }
}

proof fn lemma_position_key(code: Seq<u8>, n: int, ms: MultisigInfo, pos: int, target: [u8; 32])
    requires
        0 <= pos < n == ms.n <= 5,
        forall|k: int|
            0 <= k < n ==> (#[trigger] ms.pubkeys@[k])@ == code.subrange(2 + 33 * k, 34 + 33 * k),
        target@ == code.subrange(2 + 33 * pos, 34 + 33 * pos),
    ensures
        ms.pubkeys@[pos] == target,
{
    assert(ms.pubkeys@[pos]@ == target@);
    assert(ms.pubkeys@[pos] =~= target);
}

/// A position found for an account key is one of that key.
proof fn lemma_account_position(slot: SeedSlot, pubkeys: [[u8; 32]; 5], n: int, p: int)
    ensures
        cosigning::account_position(slot, pubkeys, n, p) matches Some(q) ==> p <= q < n
            && slot.public_key is Some && keys::x_only(slot.public_key.unwrap()) == pubkeys@[q],
    decreases n - p,
{
    if p < n {
        lemma_account_position(slot, pubkeys, n, p + 1);
    }
}

/// The first position of an account key is found.
proof fn lemma_first_position(
    slot: SeedSlot,
    pubkeys: [[u8; 32]; 5],
    n: int,
    p: int,
    pos: int,
)
    requires
        0 <= p <= pos < n <= 5,
        slot.public_key is Some,
        keys::x_only(slot.public_key.unwrap()) == pubkeys@[pos],
        forall|k: int| p <= k < pos ==> #[trigger] pubkeys@[k] != pubkeys@[pos],
    ensures
        cosigning::account_position(slot, pubkeys, n, p) == Some(pos),
    decreases pos - p,
{
    if p < pos {
        assert(pubkeys@[p] != pubkeys@[pos]);
        lemma_first_position(slot, pubkeys, n, p + 1, pos);
    }
}

/// The x coordinate of the public key of a private key.
pub open spec fn has_public_key(private_key: [u8; 32], target: [u8; 32]) -> bool {
    &&& crypto::is_secret_key(private_key@)
    &&& keys::x_only(bytes::array_of(crypto::generator_multiple(private_key@))) == target
}

/// An array is made of its own contents.
proof fn lemma_array(a: [u8; 32])
    ensures
        bytes::array_of::<32>(a@) == a,
{
    bytes::lemma_array_with(bytes::zero_array::<32>(), a@);
    assert(bytes::array_of::<32>(a@) =~= a);
}

} // verus!
