//! Multisig wallets that the device takes part in. They live in memory only.
use crate::bytes;
use crate::decimal;
use crate::wallet::keys;
use crate::wallet::keys::ExtendedPubKey;
use crate::wallet::script;
use crate::wallet::script::{OP_1, OP_CHECKMULTISIG, OP_DATA_32};
use crate::wallet::transaction::{MAX_MULTISIG_KEYS, MAX_SCRIPT_SIZE};
use vstd::prelude::*;

verus! {

/// Most wallets at a time.
pub const MAX_MULTISIG_WALLETS: usize = 2;

/// An M-of-N wallet. Each cosigner gives the public key of an account; the
/// keys in the script are children of those at `/0/addr_index`, so that every
/// index is an address of its own.
#[verifier::ext_equal]
pub struct MultisigConfig {
    pub m: u8,
    pub n: u8,
    /// Account keys, with the parity of their y coordinates.
    pub cosigner_pubkeys: [[u8; 33]; MAX_MULTISIG_KEYS],
    pub cosigner_chain_codes: [[u8; 32]; MAX_MULTISIG_KEYS],
    pub addr_index: u32,
    /// The script for `addr_index`, once built.
    pub script: [u8; MAX_SCRIPT_SIZE],
    pub script_len: usize,
    pub active: bool,
}

/// Keys by their value as big-endian numbers.
pub open spec fn key_order() -> spec_fn([u8; 32], [u8; 32]) -> bool {
    |a: [u8; 32], b: [u8; 32]| bytes::be_nat(a@) <= bytes::be_nat(b@)
}

/// Keys as a script pushes them.
pub open spec fn pushes(keys: Seq<[u8; 32]>) -> Seq<u8>
    decreases keys.len(),
{
    if keys.len() == 0 {
        Seq::empty()
    } else {
        pushes(keys.drop_last()) + (seq![OP_DATA_32] + keys.last()@)
    }
}

/// The script that asks for `m` signatures under the given keys, which it
/// lists in order of their values.
pub open spec fn multisig_script(m: u8, keys: Seq<[u8; 32]>) -> Seq<u8> {
    seq![(OP_1 + m - 1) as u8] + pushes(keys.sort_by(key_order())) + seq![
        (OP_1 + keys.len() - 1) as u8,
        OP_CHECKMULTISIG,
    ]
}

/// Deriving the key of an account for an address, at `/0/index`, can lead to
/// `key`.
pub open spec fn derives_child<P>(
    derive_child_pub: P,
    account: ExtendedPubKey,
    index: u32,
    key: Option<[u8; 32]>,
) -> bool where P: Fn(&ExtendedPubKey, u32) -> Result<ExtendedPubKey, ()> {
    exists|a: Result<ExtendedPubKey, ()>|
        #![trigger call_ensures(derive_child_pub, (&account, 0u32), a)]
        {
            &&& call_ensures(derive_child_pub, (&account, 0u32), a)
            &&& match a {
                Ok(chain) => exists|b: Result<ExtendedPubKey, ()>|
                    #![trigger call_ensures(derive_child_pub, (&chain, index), b)]
                    {
                        &&& call_ensures(derive_child_pub, (&chain, index), b)
                        &&& match b {
                            Ok(child) => key == Some(keys::x_only(child.pubkey)),
                            Err(_) => key is None,
                        }
                    },
                Err(_) => key is None,
            }
        }
}

impl MultisigConfig {
    /// The unused wallet.
    pub open spec fn blank() -> MultisigConfig {
        MultisigConfig {
            m: 0,
            n: 0,
            cosigner_pubkeys: [bytes::zero_array(); MAX_MULTISIG_KEYS],
            cosigner_chain_codes: [bytes::zero_array(); MAX_MULTISIG_KEYS],
            addr_index: 0,
            script: bytes::zero_array(),
            script_len: 0,
            active: false,
        }
    }

    /// At least one signature, and not more than keys.
    pub open spec fn valid(self) -> bool {
        1 <= self.m <= self.n <= MAX_MULTISIG_KEYS
    }

    /// The account key of cosigner `i`.
    pub open spec fn cosigner(self, i: int) -> ExtendedPubKey {
        ExtendedPubKey {
            pubkey: self.cosigner_pubkeys@[i],
            chain_code: self.cosigner_chain_codes@[i],
            depth: 3,
        }
    }

    /// Deriving the key of cosigner `i` for the current address can lead to
    /// `key`.
    pub open spec fn derives<P>(self, derive_child_pub: P, i: int, key: Option<[u8; 32]>) -> bool where
        P: Fn(&ExtendedPubKey, u32) -> Result<ExtendedPubKey, ()>,
     {
        derives_child(derive_child_pub, self.cosigner(i), self.addr_index, key)
    }

    /// Each cosigner's key for the current address is among the outcomes of
    /// its derivation.
    pub open spec fn derives_all<P>(self, derive_child_pub: P, children: Seq<[u8; 32]>) -> bool where
        P: Fn(&ExtendedPubKey, u32) -> Result<ExtendedPubKey, ()>,
     {
        &&& children.len() == self.n
        &&& forall|i: int|
            0 <= i < self.n ==> self.derives(derive_child_pub, i, Some(#[trigger] children[i]))
    }

    /// This wallet with a script.
    pub open spec fn with_script(self, text: Seq<u8>) -> MultisigConfig {
        MultisigConfig {
            script: bytes::array_with(self.script, text),
            script_len: text.len() as usize,
            ..self
        }
    }

    /// The account keys of the cosigners.
    pub open spec fn cosigners(self) -> Seq<ExtendedPubKey> {
        Seq::new(self.n as nat, |i: int| self.cosigner(i))
    }

    /// Building the script for the current address can lead to `after` and
    /// the length `r`: 0, and no change, when the wallet is not valid or a key
    /// cannot be derived, else that of the script for the derived keys.
    pub open spec fn builds<P>(self, derive_child_pub: P, after: MultisigConfig, r: usize) -> bool where
        P: Fn(&ExtendedPubKey, u32) -> Result<ExtendedPubKey, ()>,
     {
        if r == 0 {
            &&& after == self
            &&& self.valid() ==> exists|i: int|
                0 <= i < self.n && #[trigger] self.derives(derive_child_pub, i, None)
        } else {
            &&& self.valid()
            &&& r == after.script_len == 3 + 33 * self.n
            &&& exists|children: Seq<[u8; 32]>| #[trigger]
                self.derives_all(derive_child_pub, children) && after == self.with_script(
                    multisig_script(self.m, children),
                )
        }
    }

    /// The unused wallet.
    pub fn new() -> (r: Self)
        ensures
            r == MultisigConfig::blank(),
    {
        MultisigConfig {
            m: 0,
            n: 0,
            cosigner_pubkeys: [[0u8; 33]; MAX_MULTISIG_KEYS],
            cosigner_chain_codes: [[0u8; 32]; MAX_MULTISIG_KEYS],
            addr_index: 0,
            script: [0u8; MAX_SCRIPT_SIZE],
            script_len: 0,
            active: false,
        }
    }

    /// Whether cosigner slot `i` has no key yet.
    pub fn slot_empty(&self, i: usize) -> (r: bool)
        ensures
            r == (i < MAX_MULTISIG_KEYS && self.cosigner_pubkeys@[i as int] == bytes::zero_array::<
                33,
            >()),
    {
        if i >= MAX_MULTISIG_KEYS {
            return false;
        }
        let zero: [u8; 33] = [0u8; 33];
        let r = bytes::slice_eq(self.cosigner_pubkeys[i].as_slice(), zero.as_slice());
        assert(r ==> self.cosigner_pubkeys@[i as int] =~= zero);
        r
    }
}

/// Keys of one length are totally ordered by their values.
proof fn lemma_key_order()
    ensures
        vstd::relations::total_ordering(key_order()),
{
    assert forall|a: [u8; 32], b: [u8; 32]| #[trigger]
        key_order()(a, b) && #[trigger] key_order()(b, a) implies a == b by {
        bytes::lemma_be_injective(a@, b@);
        assert(a =~= b);
    }
}

/// Swapping two neighbours keeps the contents.
proof fn lemma_swap(s: Seq<[u8; 32]>, j: int)
    requires
        0 < j < s.len(),
    ensures
        s.update(j - 1, s[j]).update(j, s[j - 1]).to_multiset() == s.to_multiset(),
{
    broadcast use vstd::seq_lib::group_to_multiset_ensures;

    let u = s.update(j - 1, s[j]);
    assert(u.update(j, s[j - 1]).to_multiset() =~= s.to_multiset());
}

/// Sorts keys by their values.
fn sort_keys(keys: &mut Vec<[u8; 32]>)
    ensures
        final(keys)@ == old(keys)@.sort_by(key_order()),
        final(keys)@.len() == old(keys)@.len(),
{
    let n = keys.len();
    let mut i: usize = 1;
    while i < n
        invariant
            1 <= i,
            keys.len() == n == old(keys).len(),
            i <= n || n == 0,
            keys@.to_multiset() == old(keys)@.to_multiset(),
            forall|a: int, b: int|
                0 <= a < b < i && b < n ==> #[trigger] key_order()(keys@[a], keys@[b]),
        decreases n - i,
    {
        let mut j: usize = i;
        while j > 0 && bytes::be_less(&keys[j], &keys[j - 1])
            invariant
                j <= i < n == keys.len(),
                n == old(keys).len(),
                keys@.to_multiset() == old(keys)@.to_multiset(),
                forall|a: int, b: int|
                    0 <= a < b <= i && b != j ==> #[trigger] key_order()(keys@[a], keys@[b]),
                forall|b: int| j < b <= i ==> #[trigger] key_order()(keys@[j as int], keys@[b]),
            decreases j,
        {
            proof {
                lemma_swap(keys@, j as int);
            }
            let upper = keys[j - 1];
            let lower = keys[j];
            let ghost before = keys@;
            keys.set(j - 1, lower);
            keys.set(j, upper);
            assert forall|a: int, b: int| 0 <= a < b <= i && b != j - 1 implies #[trigger] key_order()(
                keys@[a],
                keys@[b],
            ) by {
                if b == j {
                    if a < j - 1 {
                        assert(key_order()(before[a], before[j - 1]));
                    }
                } else if a == j {
                    assert(key_order()(before[j - 1], before[b]));
                } else if a == j - 1 {
                    assert(key_order()(before[j as int], before[b]));
                } else {
                    assert(key_order()(before[a], before[b]));
                }
            }
            assert forall|b: int| j - 1 < b <= i implies #[trigger] key_order()(
                keys@[j - 1],
                keys@[b],
            ) by {
                if b > j {
                    assert(key_order()(before[j as int], before[b]));
                }
            }
            j -= 1;
        }
        proof {
            assert forall|a: int, b: int| 0 <= a < b < i + 1 && b < n implies #[trigger] key_order()(
                keys@[a],
                keys@[b],
            ) by {
                if b == j && a < j - 1 {
                    assert(key_order()(keys@[a], keys@[j - 1]));
                }
            }
        }
        i += 1;
    }
    proof {
        lemma_key_order();
        old(keys)@.lemma_sort_by_ensures(key_order());
        assert(vstd::relations::sorted_by(keys@, key_order()));
        vstd::seq_lib::lemma_sorted_unique(
            keys@,
            old(keys)@.sort_by(key_order()),
            key_order(),
        );
    }
}

/// Every key takes 33 bytes.
proof fn lemma_pushes_len(keys: Seq<[u8; 32]>)
    ensures
        pushes(keys).len() == 33 * keys.len(),
    decreases keys.len(),
{
    if keys.len() > 0 {
        lemma_pushes_len(keys.drop_last());
    }
}

/// Writes the pushes of `keys` into a script, from its second byte on.
fn write_pushes(script: &mut [u8; MAX_SCRIPT_SIZE], keys: &Vec<[u8; 32]>)
    requires
        keys.len() <= MAX_MULTISIG_KEYS,
    ensures
        final(script)@ == old(script)@.take(1) + pushes(keys@) + old(script)@.skip(
            1 + 33 * keys@.len() as int,
        ),
{
    let mut i: usize = 0;
    assert(script@ =~= old(script)@.take(1) + pushes(keys@.take(0)) + old(script)@.skip(1));
    while i < keys.len()
        invariant
            i <= keys.len() <= MAX_MULTISIG_KEYS,
            script@ == old(script)@.take(1) + pushes(keys@.take(i as int)) + old(script)@.skip(
                1 + 33 * i,
            ),
        decreases keys.len() - i,
    {
        proof {
            lemma_pushes_len(keys@.take(i as int));
            lemma_pushes_len(keys@.take(i + 1));
            assert(keys@.take(i + 1).drop_last() =~= keys@.take(i as int));
        }
        let pos: usize = 1 + 33 * i;
        script[pos] = OP_DATA_32;
        bytes::copy_at(script, pos + 1, keys[i].as_slice());
        i += 1;
        assert(script@ =~= old(script)@.take(1) + pushes(keys@.take(i as int)) + old(
            script,
        )@.skip(1 + 33 * i));
    }
    assert(keys@.take(i as int) =~= keys@);
}

impl MultisigConfig {
    /// Derives the key of cosigner `i` for the current address.
    fn child_key<P>(&self, i: usize, derive_child_pub: &P) -> (r: Option<[u8; 32]>) where
        P: Fn(&ExtendedPubKey, u32) -> Result<ExtendedPubKey, ()>,

        requires
            i < MAX_MULTISIG_KEYS,
            forall|k: &ExtendedPubKey, x: u32| #[trigger]
                call_requires(*derive_child_pub, (k, x)),
        ensures
            self.derives(*derive_child_pub, i as int, r),
    {
        let account = ExtendedPubKey {
            pubkey: self.cosigner_pubkeys[i],
            chain_code: self.cosigner_chain_codes[i],
            depth: 3,
        };
        assert(account == self.cosigner(i as int));
        match derive_child_pub(&account, 0) {
            Ok(chain) => match derive_child_pub(&chain, self.addr_index) {
                Ok(child) => Some(child.x_only()),
                Err(_) => None,
            },
            Err(_) => None,
        }
    }

    /// Builds the script for the current address. Returns its length, or 0
    /// when the wallet is not valid or a key cannot be derived.
    pub fn build_script<P>(&mut self, derive_child_pub: &P) -> (r: usize) where
        P: Fn(&ExtendedPubKey, u32) -> Result<ExtendedPubKey, ()>,

        requires
            forall|k: &ExtendedPubKey, x: u32| #[trigger]
                call_requires(*derive_child_pub, (k, x)),
        ensures
            old(self).builds(*derive_child_pub, *final(self), r),
            r != 0 ==> exists|children: Seq<[u8; 32]>, listed: Seq<[u8; 32]>| #[trigger]
                lists_children(
                    *derive_child_pub,
                    *old(self),
                    final(self).script@,
                    children,
                    listed,
                ),
    {
        if self.m == 0 || self.n == 0 || self.m > self.n || self.n as usize > MAX_MULTISIG_KEYS {
            return 0;
        }
        let n = self.n as usize;
        let mut keys: Vec<[u8; 32]> = Vec::new();
        while keys.len() < n
            invariant
                keys.len() <= n <= MAX_MULTISIG_KEYS,
                n == self.n,
                *self == *old(self),
                self.valid(),
                forall|k: &ExtendedPubKey, x: u32| #[trigger]
                    call_requires(*derive_child_pub, (k, x)),
                forall|i: int|
                    0 <= i < keys@.len() ==> self.derives(
                        *derive_child_pub,
                        i,
                        Some(#[trigger] keys@[i]),
                    ),
            decreases n - keys.len(),
        {
            match self.child_key(keys.len(), derive_child_pub) {
                Some(key) => {
                    keys.push(key);
                },
                None => {
                    assert(old(self).derives(*derive_child_pub, keys.len() as int, None));
                    return 0;
                },
            }
        }
        let ghost children = keys@;
        assert(old(self).derives_all(*derive_child_pub, children));
        sort_keys(&mut keys);
        let ghost before = self.script;
        let len: usize = 3 + 33 * n;
        self.script[0] = OP_1 + self.m - 1;
        write_pushes(&mut self.script, &keys);
        self.script[len - 2] = OP_1 + self.n - 1;
        self.script[len - 1] = OP_CHECKMULTISIG;
        self.script_len = len;
        proof {
            lemma_pushes_len(keys@);
            let text = multisig_script(self.m, children);
            assert(text.len() == len);
            bytes::lemma_array_with(before, text);
            assert(self.script@ =~= text + before@.skip(len as int));
            assert(self.script =~= bytes::array_with(before, text));
            law_script_lists_the_children(*derive_child_pub, *old(self), *self, len);
        }
        len
    }

    /// Writes a label such as "2-of-3", cut off at the end of `buf`. Returns
    /// its length.
    pub fn label(&self, buf: &mut [u8]) -> (r: usize)
        requires
            old(buf)@.len() >= 1 ==> self.m <= 207,
            old(buf)@.len() >= 6 ==> self.n <= 207,
        ensures
            r == if old(buf)@.len() < 6 {
                old(buf)@.len()
            } else {
                6
            },
            final(buf)@ == label_text(self.m, self.n).take(r as int) + old(buf)@.skip(r as int),
    {
        let mut pos: usize = 0;
        if buf.len() > 0 {
            buf[0] = 48 + self.m;
            pos = 1;
        }
        let middle: [u8; 4] = [0x2D, 0x6F, 0x66, 0x2D];
        let ghost text = label_text(self.m, self.n);
        assert(buf@ =~= text.take(pos as int) + old(buf)@.skip(pos as int));
        let mut i: usize = 0;
        while i < 4
            invariant
                i <= 4,
                middle@ == seq![0x2Du8, 0x6F, 0x66, 0x2D],
                buf@.len() == old(buf)@.len(),
                pos == if buf@.len() < 1 + i {
                    buf@.len() as int
                } else {
                    1 + i
                },
                text == label_text(self.m, self.n),
                buf@ == text.take(pos as int) + old(buf)@.skip(pos as int),
            decreases 4 - i,
        {
            if pos < buf.len() {
                buf[pos] = middle[i];
                pos += 1;
                assert(buf@ =~= text.take(pos as int) + old(buf)@.skip(pos as int));
            }
            i += 1;
        }
        if pos < buf.len() {
            buf[pos] = 48 + self.n;
            pos += 1;
            assert(buf@ =~= text.take(pos as int) + old(buf)@.skip(pos as int));
        }
        pos
    }
}

/// "M-of-N" for one-digit numbers.
pub open spec fn label_text(m: u8, n: u8) -> Seq<u8> {
    seq![(48 + m) as u8, 0x2D, 0x6F, 0x66, 0x2D, (48 + n) as u8]
}

/// The wallets of the device.
#[verifier::ext_equal]
pub struct MultisigStore {
    pub configs: [MultisigConfig; MAX_MULTISIG_WALLETS],
}

impl MultisigStore {
    /// No wallets.
    pub fn new() -> (r: Self)
        ensures
            r.configs@ == seq![MultisigConfig::blank(), MultisigConfig::blank()],
    {
        let r = MultisigStore { configs: [MultisigConfig::new(), MultisigConfig::new()] };
        assert(r.configs@ =~= seq![MultisigConfig::blank(), MultisigConfig::blank()]);
        r
    }

    /// The first place that is not in use.
    pub fn find_free(&self) -> (r: Option<usize>)
        ensures
            match r {
                Some(i) => i < MAX_MULTISIG_WALLETS && !self.configs@[i as int].active && forall|
                    j: int,
                |
                    0 <= j < i ==> #[trigger] self.configs@[j].active,
                None => forall|j: int|
                    0 <= j < MAX_MULTISIG_WALLETS ==> #[trigger] self.configs@[j].active,
            },
    {
        let mut i: usize = 0;
        while i < MAX_MULTISIG_WALLETS
            invariant
                i <= MAX_MULTISIG_WALLETS,
                forall|j: int| 0 <= j < i ==> #[trigger] self.configs@[j].active,
            decreases MAX_MULTISIG_WALLETS - i,
        {
            if !self.configs[i].active {
                return Some(i);
            }
            i += 1;
        }
        None
    }
}

/// Key `i` is pushed at `33 * i`.
proof fn lemma_pushed_key(keys: Seq<[u8; 32]>, i: int)
    requires
        0 <= i < keys.len(),
    ensures
        pushes(keys).len() == 33 * keys.len(),
        pushes(keys)[33 * i] == OP_DATA_32,
        pushes(keys).subrange(33 * i + 1, 33 * i + 33) == keys[i]@,
    decreases keys.len(),
{
    lemma_pushes_len(keys);
    lemma_pushes_len(keys.drop_last());
    if i < keys.len() - 1 {
        lemma_pushed_key(keys.drop_last(), i);
        assert(pushes(keys).subrange(33 * i + 1, 33 * i + 33) =~= pushes(
            keys.drop_last(),
        ).subrange(33 * i + 1, 33 * i + 33));
    } else {
        assert(pushes(keys).subrange(33 * i + 1, 33 * i + 33) =~= keys[i]@);
    }
}

/// The order in which cosigners are entered does not matter to the script.
pub proof fn law_script_ignores_cosigner_order(m: u8, a: Seq<[u8; 32]>, b: Seq<[u8; 32]>)
    requires
        a.to_multiset() == b.to_multiset(),
    ensures
        multisig_script(m, a) == multisig_script(m, b),
{
    broadcast use vstd::seq_lib::group_to_multiset_ensures;

    lemma_key_order();
    a.lemma_sort_by_ensures(key_order());
    b.lemma_sort_by_ensures(key_order());
    vstd::seq_lib::lemma_sorted_unique(
        a.sort_by(key_order()),
        b.sort_by(key_order()),
        key_order(),
    );
    assert(a.len() == a.to_multiset().len());
    assert(b.len() == b.to_multiset().len());
}

/// Deriving a key has one outcome for given arguments.
pub open spec fn derives_once<P>(derive_child_pub: P) -> bool where
    P: Fn(&ExtendedPubKey, u32) -> Result<ExtendedPubKey, ()>,
 {
    forall|
        k: &ExtendedPubKey,
        x: u32,
        a: Result<ExtendedPubKey, ()>,
        b: Result<ExtendedPubKey, ()>,
    | #[trigger]
        call_ensures(derive_child_pub, (k, x), a) && #[trigger]
            call_ensures(derive_child_pub, (k, x), b) ==> a == b
}

/// The keys derived for the same accounts in two orders are the same keys.
proof fn lemma_children<P>(
    derive_child_pub: P,
    index: u32,
    a: Seq<ExtendedPubKey>,
    b: Seq<ExtendedPubKey>,
    x: Seq<[u8; 32]>,
    y: Seq<[u8; 32]>,
) where P: Fn(&ExtendedPubKey, u32) -> Result<ExtendedPubKey, ()>
    requires
        derives_once(derive_child_pub),
        a.to_multiset() == b.to_multiset(),
        x.len() == a.len(),
        y.len() == b.len(),
        forall|i: int|
            0 <= i < x.len() ==> derives_child(
                derive_child_pub,
                a[i],
                index,
                Some(#[trigger] x[i]),
            ),
        forall|i: int|
            0 <= i < y.len() ==> derives_child(
                derive_child_pub,
                b[i],
                index,
                Some(#[trigger] y[i]),
            ),
    ensures
        x.to_multiset() == y.to_multiset(),
    decreases a.len(),
{
    broadcast use vstd::seq_lib::group_to_multiset_ensures;

    assert(a.len() == a.to_multiset().len());
    assert(b.len() == b.to_multiset().len());
    if a.len() == 0 {
        assert(x =~= y);
    } else {
        assert(b.to_multiset().count(a[0]) > 0) by {
            assert(a.contains(a[0]));
        }
        assert(b.contains(a[0]));
        let j = choose|j: int| 0 <= j < b.len() && b[j] == a[0];
        assert(derives_child(derive_child_pub, a[0], index, Some(x[0])));
        assert(derives_child(derive_child_pub, b[j], index, Some(y[j])));
        assert(x[0] == y[j]);
        let (a1, b1, x1, y1) = (a.remove(0), b.remove(j), x.remove(0), y.remove(j));
        assert forall|i: int| 0 <= i < x1.len() implies derives_child(
            derive_child_pub,
            a1[i],
            index,
            Some(#[trigger] x1[i]),
        ) by {
            assert(x1[i] == x[i + 1]);
        }
        assert forall|i: int| 0 <= i < y1.len() implies derives_child(
            derive_child_pub,
            b1[i],
            index,
            Some(#[trigger] y1[i]),
        ) by {
            let k = if i < j {
                i
            } else {
                i + 1
            };
            assert(y1[i] == y[k]);
        }
        lemma_children(derive_child_pub, index, a1, b1, x1, y1);
        assert(x.to_multiset() =~= x1.to_multiset().insert(x[0]));
        assert(y.to_multiset() =~= y1.to_multiset().insert(y[j]));
    }
}

/// Where a key of one of the cosigners cannot be derived, no order of them
/// makes a script.
proof fn lemma_failed_child<P>(
    derive_child_pub: P,
    c: MultisigConfig,
    d: MultisigConfig,
    after: MultisigConfig,
    r: usize,
) where P: Fn(&ExtendedPubKey, u32) -> Result<ExtendedPubKey, ()>
    requires
        derives_once(derive_child_pub),
        c.n == d.n,
        c.addr_index == d.addr_index,
        c.cosigners().to_multiset() == d.cosigners().to_multiset(),
        exists|i: int| 0 <= i < c.n && #[trigger] c.derives(derive_child_pub, i, None),
        d.builds(derive_child_pub, after, r),
    ensures
        r == 0,
{
    broadcast use vstd::seq_lib::group_to_multiset_ensures;

    if r != 0 {
        let i = choose|i: int| 0 <= i < c.n && #[trigger] c.derives(derive_child_pub, i, None);
        let children = choose|children: Seq<[u8; 32]>| #[trigger]
            d.derives_all(derive_child_pub, children) && after == d.with_script(
                multisig_script(d.m, children),
            );
        assert(c.cosigners()[i] == c.cosigner(i));
        assert(c.cosigners().contains(c.cosigner(i)));
        assert(d.cosigners().to_multiset().count(c.cosigner(i)) > 0);
        assert(d.cosigners().contains(c.cosigner(i)));
        let j = choose|j: int|
            0 <= j < d.cosigners().len() && d.cosigners()[j] == c.cosigner(i);
        assert(d.derives(derive_child_pub, j, Some(children[j])));
        assert(d.cosigner(j) == c.cosigner(i));
    }
}

/// Two wallets with the same cosigners, entered in whatever order, the same
/// threshold and the same address index have the same script, where deriving
/// a key has one outcome.
pub proof fn law_wallets_ignore_cosigner_order<P>(
    derive_child_pub: P,
    c: MultisigConfig,
    d: MultisigConfig,
    c_after: MultisigConfig,
    d_after: MultisigConfig,
    c_len: usize,
    d_len: usize,
) where P: Fn(&ExtendedPubKey, u32) -> Result<ExtendedPubKey, ()>
    requires
        derives_once(derive_child_pub),
        c.m == d.m,
        c.n == d.n,
        c.addr_index == d.addr_index,
        c.cosigners().to_multiset() == d.cosigners().to_multiset(),
        c.builds(derive_child_pub, c_after, c_len),
        d.builds(derive_child_pub, d_after, d_len),
    ensures
        c_len == d_len,
        c_after.script@.take(c_len as int) == d_after.script@.take(d_len as int),
        c_len != 0 ==> c_after.script_len == d_after.script_len == c_len,
{
    if c.valid() && c_len == 0 {
        lemma_failed_child(derive_child_pub, c, d, d_after, d_len);
    }
    if c.valid() && d_len == 0 {
        lemma_failed_child(derive_child_pub, d, c, c_after, c_len);
    }
    if c_len == 0 {
        assert(c_after.script@.take(0) =~= d_after.script@.take(0));
    } else {
        let x = choose|x: Seq<[u8; 32]>| #[trigger]
            c.derives_all(derive_child_pub, x) && c_after == c.with_script(
                multisig_script(c.m, x),
            );
        let y = choose|y: Seq<[u8; 32]>| #[trigger]
            d.derives_all(derive_child_pub, y) && d_after == d.with_script(
                multisig_script(d.m, y),
            );
        assert forall|i: int| 0 <= i < x.len() implies derives_child(
            derive_child_pub,
            c.cosigners()[i],
            c.addr_index,
            Some(#[trigger] x[i]),
        ) by {
            assert(c.derives(derive_child_pub, i, Some(x[i])));
        }
        assert forall|i: int| 0 <= i < y.len() implies derives_child(
            derive_child_pub,
            d.cosigners()[i],
            d.addr_index,
            Some(#[trigger] y[i]),
        ) by {
            assert(d.derives(derive_child_pub, i, Some(y[i])));
        }
        lemma_children(derive_child_pub, c.addr_index, c.cosigners(), d.cosigners(), x, y);
        law_script_ignores_cosigner_order(c.m, x, y);
        law_built_script_is_recognised(c.m, x, Seq::empty());
        let text = multisig_script(c.m, x);
        bytes::lemma_array_with(c.script, text);
        bytes::lemma_array_with(d.script, text);
        assert(c_after.script@.take(c_len as int) =~= text);
        assert(d_after.script@.take(d_len as int) =~= text);
    }
}

/// A script that is built is recognised as multisig, wherever it is stored,
/// and taken apart into its threshold and its keys in order.
pub proof fn law_built_script_is_recognised(m: u8, keys: Seq<[u8; 32]>, behind: Seq<u8>)
    requires
        1 <= m <= keys.len(),
        keys.len() <= MAX_MULTISIG_KEYS,
    ensures
        ({
            let text = multisig_script(m, keys);
            let info = script::multisig_info(text + behind, text.len() as int);
            &&& text.len() == 3 + 33 * keys.len()
            &&& script::script_type(text + behind, text.len() as int) is Multisig
            &&& info matches Some(ms) && ms.m == m && ms.n == keys.len() && forall|i: int|
                0 <= i < keys.len() ==> #[trigger] ms.pubkeys@[i] == keys.sort_by(key_order())[i]
        }),
{
    broadcast use vstd::seq_lib::group_to_multiset_ensures;

    lemma_key_order();
    keys.lemma_sort_by_ensures(key_order());
    let sorted = keys.sort_by(key_order());
    assert(sorted.len() == sorted.to_multiset().len());
    assert(keys.len() == keys.to_multiset().len());
    let text = multisig_script(m, keys);
    let all = text + behind;
    let n = keys.len() as int;
    lemma_pushes_len(sorted);
    assert(text.len() == 3 + 33 * n);
    assert(all[0] == OP_1 + m - 1);
    assert(all[text.len() - 2] == OP_1 + n - 1);
    assert(all[text.len() - 1] == OP_CHECKMULTISIG);
    assert forall|i: int| 0 <= i < n implies #[trigger] all[1 + i * 33] == OP_DATA_32
        && script::script_key(all, n, i) == sorted[i] by {
        lemma_pushed_key(sorted, i);
        assert(all[1 + i * 33] == pushes(sorted)[33 * i]);
        assert(all.subrange(2 + i * 33, 34 + i * 33) =~= pushes(sorted).subrange(
            33 * i + 1,
            33 * i + 33,
        ));
        bytes::lemma_array_with(bytes::zero_array::<32>(), sorted[i]@);
        assert(bytes::array_of::<32>(sorted[i]@) =~= sorted[i]);
    }
    assert(script::is_multisig(all, text.len() as int));
    let ms = script::multisig_info(all, text.len() as int).unwrap();
    assert forall|i: int| 0 <= i < n implies #[trigger] ms.pubkeys@[i] == sorted[i] by {
        assert(all[1 + i * 33] == OP_DATA_32);
        assert(ms.pubkeys@[i] == script::script_key(all, n, i));
    }
}

/// `key` is the x coordinate of a child that may be derived for `index` from a
/// chain key, which may be derived for index 0 from an account key.
pub open spec fn may_be_child<P>(
    derive_child_pub: P,
    pubkey: [u8; 33],
    chain_code: [u8; 32],
    index: u32,
    key: [u8; 32],
) -> bool where P: Fn(&ExtendedPubKey, u32) -> Result<ExtendedPubKey, ()> {
    let account = ExtendedPubKey { pubkey, chain_code, depth: 3 };
    exists|chain: ExtendedPubKey, child: ExtendedPubKey|
        #![trigger call_ensures(derive_child_pub, (&account, 0u32), Ok(chain)), call_ensures(derive_child_pub, (&chain, index), Ok(child))]
        {
            &&& call_ensures(derive_child_pub, (&account, 0u32), Ok(chain))
            &&& call_ensures(derive_child_pub, (&chain, index), Ok(child))
            &&& key@ == child.pubkey@.subrange(1, 33)
        }
}

/// The chain key of an account, or its child for `index`, may fail to be
/// derived.
pub open spec fn may_lack_child<P>(
    derive_child_pub: P,
    pubkey: [u8; 33],
    chain_code: [u8; 32],
    index: u32,
) -> bool where P: Fn(&ExtendedPubKey, u32) -> Result<ExtendedPubKey, ()> {
    let account = ExtendedPubKey { pubkey, chain_code, depth: 3 };
    ||| call_ensures(derive_child_pub, (&account, 0u32), Err::<ExtendedPubKey, ()>(()))
    ||| exists|chain: ExtendedPubKey| #[trigger]
        call_ensures(derive_child_pub, (&account, 0u32), Ok(chain)) && call_ensures(
            derive_child_pub,
            (&chain, index),
            Err::<ExtendedPubKey, ()>(()),
        )
}

/// A script pushes `listed` behind its first byte, in ascending order. These
/// are the keys in `children`, of which the one at `i` may be the child of the
/// cosigner at `i`.
pub open spec fn lists_children<P>(
    derive_child_pub: P,
    c: MultisigConfig,
    script: Seq<u8>,
    children: Seq<[u8; 32]>,
    listed: Seq<[u8; 32]>,
) -> bool where P: Fn(&ExtendedPubKey, u32) -> Result<ExtendedPubKey, ()> {
    &&& children.len() == c.n && listed.len() == c.n
    &&& children.to_multiset() == listed.to_multiset()
    &&& forall|i: int|
        0 <= i < c.n ==> may_be_child(
            derive_child_pub,
            c.cosigner_pubkeys@[i],
            c.cosigner_chain_codes@[i],
            c.addr_index,
            #[trigger] children[i],
        )
    &&& forall|i: int|
        0 <= i < c.n ==> #[trigger] script.subrange(1 + 33 * i, 34 + 33 * i) == seq![0x20u8]
            + listed[i]@
    &&& forall|i: int, j: int|
        0 <= i < j < c.n ==> bytes::be_nat((#[trigger] listed[i])@) <= bytes::be_nat(
            (#[trigger] listed[j])@,
        )
}

proof fn lemma_child<P>(derive_child_pub: P, c: MultisigConfig, i: int, key: Option<[u8; 32]>) where
    P: Fn(&ExtendedPubKey, u32) -> Result<ExtendedPubKey, ()>,

    requires
        0 <= i < MAX_MULTISIG_KEYS,
        c.derives(derive_child_pub, i, key),
    ensures
        key matches Some(k) ==> may_be_child(
            derive_child_pub,
            c.cosigner_pubkeys@[i],
            c.cosigner_chain_codes@[i],
            c.addr_index,
            k,
        ),
        key is None ==> may_lack_child(
            derive_child_pub,
            c.cosigner_pubkeys@[i],
            c.cosigner_chain_codes@[i],
            c.addr_index,
        ),
{
    let account = c.cosigner(i);
    let a = choose|a: Result<ExtendedPubKey, ()>|
        #![trigger call_ensures(derive_child_pub, (&account, 0u32), a)]
        {
            &&& call_ensures(derive_child_pub, (&account, 0u32), a)
            &&& match a {
                Ok(chain) => exists|b: Result<ExtendedPubKey, ()>|
                    #![trigger call_ensures(derive_child_pub, (&chain, c.addr_index), b)]
                    {
                        &&& call_ensures(derive_child_pub, (&chain, c.addr_index), b)
                        &&& match b {
                            Ok(child) => key == Some(keys::x_only(child.pubkey)),
                            Err(_) => key is None,
                        }
                    },
                Err(_) => key is None,
            }
        };
    match a {
        Ok(chain) => {
            let b = choose|b: Result<ExtendedPubKey, ()>|
                #![trigger call_ensures(derive_child_pub, (&chain, c.addr_index), b)]
                {
                    &&& call_ensures(derive_child_pub, (&chain, c.addr_index), b)
                    &&& match b {
                        Ok(child) => key == Some(keys::x_only(child.pubkey)),
                        Err(_) => key is None,
                    }
                };
            match b {
                Ok(child) => {
                    let x = child.pubkey@.subrange(1, 33);
                    bytes::lemma_array_with(bytes::zero_array::<32>(), x);
                    assert(key.unwrap()@ =~= x);
                },
                Err(e) => {
                    assert(e == ());
                },
            }
        },
        Err(e) => {
            assert(e == ());
        },
    }
}

/// A script is built exactly where the threshold is at least one and not above
/// the number of keys, five at most, and no derivation fails. It starts with
/// OP_m and ends with OP_n and OP_CHECKMULTISIG. Between, it pushes in
/// ascending order one key for each cosigner: the x coordinate of the child
/// for the address index of the child for index 0 of that cosigner's account
/// key.
pub proof fn law_script_lists_the_children<P>(
    derive_child_pub: P,
    c: MultisigConfig,
    after: MultisigConfig,
    r: usize,
) where P: Fn(&ExtendedPubKey, u32) -> Result<ExtendedPubKey, ()>
    requires
        c.builds(derive_child_pub, after, r),
    ensures
        !(1 <= c.m <= c.n <= 5) ==> r == 0,
        r == 0 && 1 <= c.m <= c.n <= 5 ==> exists|i: int|
            #![trigger c.cosigner_pubkeys@[i]]
            0 <= i < c.n && may_lack_child(
                derive_child_pub,
                c.cosigner_pubkeys@[i],
                c.cosigner_chain_codes@[i],
                c.addr_index,
            ),
        r == 0 ==> after == c,
        r != 0 ==> {
            &&& r == 3 + 33 * c.n && after.script_len == r
            &&& after.script@[0] == 0x50 + c.m
            &&& after.script@[r - 2] == 0x50 + c.n
            &&& after.script@[r - 1] == 0xAE
            &&& after.script@.skip(r as int) == c.script@.skip(r as int)
            &&& after == MultisigConfig { script: after.script, script_len: after.script_len, ..c }
            &&& exists|children: Seq<[u8; 32]>, listed: Seq<[u8; 32]>| #[trigger]
                lists_children(derive_child_pub, c, after.script@, children, listed)
        },
{
    if c.valid() && r == 0 {
        let i = choose|i: int| 0 <= i < c.n && #[trigger] c.derives(derive_child_pub, i, None);
        lemma_child(derive_child_pub, c, i, None);
        assert(0 <= i < c.n && may_lack_child(
            derive_child_pub,
            c.cosigner_pubkeys@[i],
            c.cosigner_chain_codes@[i],
            c.addr_index,
        ));
    }
    if r != 0 {
        broadcast use vstd::seq_lib::group_to_multiset_ensures;

        let children = choose|children: Seq<[u8; 32]>| #[trigger]
            c.derives_all(derive_child_pub, children) && after == c.with_script(
                multisig_script(c.m, children),
            );
        lemma_key_order();
        children.lemma_sort_by_ensures(key_order());
        let listed = children.sort_by(key_order());
        assert(listed.len() == listed.to_multiset().len());
        assert(children.len() == children.to_multiset().len());
        assert forall|i: int| 0 <= i < c.n implies may_be_child(
            derive_child_pub,
            c.cosigner_pubkeys@[i],
            c.cosigner_chain_codes@[i],
            c.addr_index,
            #[trigger] children[i],
        ) by {
            assert(c.derives(derive_child_pub, i, Some(children[i])));
            lemma_child(derive_child_pub, c, i, Some(children[i]));
        }
        let text = multisig_script(c.m, children);
        lemma_pushes_len(listed);
        assert(text.len() == r);
        bytes::lemma_array_with(c.script, text);
        let script = after.script@;
        assert(script == text + c.script@.skip(r as int));
        assert(script[0] == text[0] && text[0] == 0x50 + c.m);
        assert(script[r - 2] == text[r - 2] && text[r - 2] == 0x50 + c.n);
        assert(script[r - 1] == text[r - 1] && text[r - 1] == 0xAE);
        assert(script.skip(r as int) =~= c.script@.skip(r as int));
        assert forall|i: int| 0 <= i < c.n implies #[trigger] script.subrange(
            1 + 33 * i,
            34 + 33 * i,
        ) == seq![0x20u8] + listed[i]@ by {
            lemma_pushed_key(listed, i);
            let push = pushes(listed).subrange(33 * i, 33 * i + 33);
            assert(script.subrange(1 + 33 * i, 34 + 33 * i) =~= push);
            assert(push =~= seq![push[0]] + pushes(listed).subrange(33 * i + 1, 33 * i + 33));
        }
        assert forall|i: int, j: int| 0 <= i < j < c.n implies bytes::be_nat(
            (#[trigger] listed[i])@,
        ) <= bytes::be_nat((#[trigger] listed[j])@) by {
            assert(key_order()(listed[i], listed[j]));
        }
        assert(lists_children(derive_child_pub, c, script, children, listed));
    }
}

/// Where the derivation always gives one and the same result for a key and an
/// index, the script lists the x coordinates of the keys that it gives at
/// index 0 and then at the address index, one for each cosigner.
pub proof fn law_script_is_that_of_the_derived_keys<P>(
    derive_child_pub: P,
    c: MultisigConfig,
    after: MultisigConfig,
    r: usize,
    chains: Seq<ExtendedPubKey>,
    derived: Seq<ExtendedPubKey>,
) where P: Fn(&ExtendedPubKey, u32) -> Result<ExtendedPubKey, ()>
    requires
        c.builds(derive_child_pub, after, r),
        1 <= c.m <= c.n <= 5,
        chains.len() == c.n && derived.len() == c.n,
        forall|i: int, a: Result<ExtendedPubKey, ()>|
            0 <= i < c.n && #[trigger] call_ensures(
                derive_child_pub,
                (
                    &(ExtendedPubKey {
                        pubkey: c.cosigner_pubkeys@[i],
                        chain_code: c.cosigner_chain_codes@[i],
                        depth: 3,
                    }),
                    0u32,
                ),
                a,
            ) ==> a == Ok::<ExtendedPubKey, ()>(chains[i]),
        forall|i: int, b: Result<ExtendedPubKey, ()>|
            0 <= i < c.n && #[trigger] call_ensures(
                derive_child_pub,
                (&chains[i], c.addr_index),
                b,
            ) ==> b == Ok::<ExtendedPubKey, ()>(derived[i]),
    ensures
        r == 3 + 33 * c.n,
        exists|children: Seq<[u8; 32]>, listed: Seq<[u8; 32]>|
            {
                &&& #[trigger] lists_children(
                    derive_child_pub,
                    c,
                    after.script@,
                    children,
                    listed,
                )
                &&& forall|i: int|
                    0 <= i < c.n ==> (#[trigger] children[i])@ == derived[i].pubkey@.subrange(1, 33)
            },
{
    law_script_lists_the_children(derive_child_pub, c, after, r);
    assert(r != 0);
    let (children, listed) = choose|children: Seq<[u8; 32]>, listed: Seq<[u8; 32]>| #[trigger]
        lists_children(derive_child_pub, c, after.script@, children, listed);
    assert forall|i: int| 0 <= i < c.n implies (#[trigger] children[i])@
        == derived[i].pubkey@.subrange(1, 33) by {
        assert(may_be_child(
            derive_child_pub,
            c.cosigner_pubkeys@[i],
            c.cosigner_chain_codes@[i],
            c.addr_index,
            children[i],
        ));
    }
}

/// The label of a wallet is the threshold, "-of-" and the number of keys.
pub proof fn law_label_names_threshold_and_keys(m: u8, n: u8)
    requires
        m <= 9 && n <= 9,
    ensures
        label_text(m, n) == decimal::decimal(m as nat) + seq![45u8, 111u8, 102u8, 45u8]
            + decimal::decimal(n as nat),
{
    assert(label_text(m, n) =~= decimal::decimal(m as nat) + seq![45u8, 111u8, 102u8, 45u8]
        + decimal::decimal(n as nat));
}

/// An unused wallet has nothing in it.
pub proof fn law_unused_wallet(i: int)
    requires
        0 <= i < 5,
    ensures
        ({
            let c = MultisigConfig::blank();
            &&& c.m == 0 && c.n == 0 && c.addr_index == 0 && c.script_len == 0 && !c.active
            &&& c.cosigner_pubkeys@[i]@ == bytes::zeros(33)
            &&& c.cosigner_chain_codes@[i]@ == bytes::zeros(32)
        }),
{
    let c = MultisigConfig::blank();
    assert(c.cosigner_pubkeys@[i]@ =~= bytes::zeros(33));
    assert(c.cosigner_chain_codes@[i]@ =~= bytes::zeros(32));
}

} // verus!
