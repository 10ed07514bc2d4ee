//! Extended keys, and where they come from.
use crate::bytes;
use crate::crypto;
use crate::wallet::transaction::{SigHashType, Transaction};
use vstd::prelude::*;

verus! {

/// A private key of the derivation tree.
#[verifier::ext_equal]
pub struct ExtendedPrivKey {
    pub private_key: [u8; 32],
    pub chain_code: [u8; 32],
    pub depth: u8,
}

/// A private key outside the range of secret keys has no public key.
#[derive(Debug, Clone, Copy, PartialEq, Eq, Structural)]
pub struct InvalidKey;

/// The compressed public key of a private key.
pub open spec fn compressed_key(private_key: Seq<u8>) -> Option<[u8; 33]> {
    if crypto::is_secret_key(private_key) {
        Some(bytes::array_of(crypto::generator_multiple(private_key)))
    } else {
        None
    }
}

/// The x coordinate of a compressed public key.
pub open spec fn x_only(key: [u8; 33]) -> [u8; 32] {
    bytes::array_of(key@.subrange(1, 33))
}

impl ExtendedPrivKey {
    pub fn private_key_bytes(&self) -> (r: &[u8; 32])
        ensures
            *r == self.private_key,
    {
        &self.private_key
    }

    pub fn public_key_compressed(&self) -> (r: Result<[u8; 33], InvalidKey>)
        ensures
            match r {
                Ok(k) => compressed_key(self.private_key@) == Some(k),
                Err(_) => compressed_key(self.private_key@) is None,
            },
    {
        if !crypto::is_scalar(&self.private_key) {
            return Err(InvalidKey);
        }
        let point = crypto::generator_times(&self.private_key);
        if point.len() != 33 {
            return Err(InvalidKey);
        }
        Ok(bytes::to_array(point.as_slice()))
    }
}

/// A public key of the derivation tree.
#[verifier::ext_equal]
pub struct ExtendedPubKey {
    pub pubkey: [u8; 33],
    pub chain_code: [u8; 32],
    pub depth: u8,
}

impl ExtendedPubKey {
    /// The key without the parity of its y coordinate.
    pub fn x_only(&self) -> (r: [u8; 32])
        ensures
            r == x_only(self.pubkey),
    {
        bytes::to_array(vstd::slice::slice_subrange(self.pubkey.as_slice(), 1, 33))
    }
}

/// The functions that derive keys and make signatures.
pub struct KeySource<A, F, T, D, C, S> {
    /// The account key of a seed.
    pub derive_account_key: A,
    /// Searches the receive and change addresses of an account for a key;
    /// finds its index and whether it is a change address.
    pub find_address_index_for_pubkey: F,
    /// The same search in the shorter table of an account's first addresses.
    pub find_by_pubkey: T,
    /// The key of a receive address.
    pub derive_address_key: D,
    /// The key of a change address.
    pub derive_change_key: C,
    /// Signs one input of a transaction.
    pub sign_input: S,
}

impl<A, F, T, D, C, S> KeySource<A, F, T, D, C, S> where
    A: Fn(&[u8; 64]) -> Result<ExtendedPrivKey, ()>,
    F: Fn(&ExtendedPrivKey, &[u8; 32]) -> Option<(u32, bool)>,
    T: Fn(&ExtendedPrivKey, &[u8; 32]) -> Option<(u32, bool)>,
    D: Fn(&ExtendedPrivKey, u32) -> Result<ExtendedPrivKey, ()>,
    C: Fn(&ExtendedPrivKey, u32) -> Result<ExtendedPrivKey, ()>,
    S: Fn(&Transaction, usize, &[u8; 32], SigHashType) -> Result<[u8; 64], ()>,
 {
    /// Every function can be called with any arguments.
    pub open spec fn total(&self) -> bool {
        &&& forall|seed: &[u8; 64]| #[trigger] call_requires(self.derive_account_key, (seed,))
        &&& forall|k: &ExtendedPrivKey, pk: &[u8; 32]| #[trigger]
            call_requires(self.find_address_index_for_pubkey, (k, pk))
        &&& forall|k: &ExtendedPrivKey, pk: &[u8; 32]| #[trigger]
            call_requires(self.find_by_pubkey, (k, pk))
        &&& forall|k: &ExtendedPrivKey, i: u32| #[trigger]
            call_requires(self.derive_address_key, (k, i))
        &&& forall|k: &ExtendedPrivKey, i: u32| #[trigger]
            call_requires(self.derive_change_key, (k, i))
        &&& forall|tx: &Transaction, i: usize, k: &[u8; 32], t: SigHashType| #[trigger]
            call_requires(self.sign_input, (tx, i, k, t))
    }

    /// `r` is an outcome of deriving the key of an address.
    pub open spec fn derives(
        &self,
        account: ExtendedPrivKey,
        index: u32,
        is_change: bool,
        r: Result<ExtendedPrivKey, ()>,
    ) -> bool {
        if is_change {
            call_ensures(self.derive_change_key, (&account, index), r)
        } else {
            call_ensures(self.derive_address_key, (&account, index), r)
        }
    }

    /// The key of a receive or change address.
    pub fn derive_key(&self, account: &ExtendedPrivKey, index: u32, is_change: bool) -> (r: Result<
        ExtendedPrivKey,
        (),
    >)
        requires
            self.total(),
        ensures
            self.derives(*account, index, is_change, r),
    {
        if is_change {
            (self.derive_change_key)(account, index)
        } else {
            (self.derive_address_key)(account, index)
        }
    }
}

/// A private key has a public key exactly where it is a number from 1 to the
/// group order less 1: the generator times that number. Its x coordinate is
/// what follows the tag.
pub proof fn law_public_keys(private_key: Seq<u8>, key: [u8; 33])
    ensures
        compressed_key(private_key) is Some <==> 0 < bytes::be_nat(private_key)
            < crypto::group_order(),
        compressed_key(private_key) is Some && crypto::generator_multiple(private_key).len() == 33
            ==> compressed_key(private_key).unwrap()@ == crypto::generator_multiple(private_key),
        x_only(key)@ == key@.subrange(1, 33),
{
    let point = crypto::generator_multiple(private_key);
    if point.len() == 33 {
        bytes::lemma_array_with(bytes::zero_array::<33>(), point);
        assert(bytes::array_of::<33>(point)@ =~= point);
    }
    bytes::lemma_array_with(bytes::zero_array::<32>(), key@.subrange(1, 33));
    assert(x_only(key)@ =~= key@.subrange(1, 33));
}

} // verus!
