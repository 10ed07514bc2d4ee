//! Kaspa transactions as the signing device sees them, the scripts they pay
//! to, and the multisig wallets that the device can take part in.
//!
//! Everything has a fixed capacity: a typical transaction has one to five
//! inputs and one or two outputs, and the device has no allocator.
use crate::bytes;
use crate::decimal;
use vstd::prelude::*;

verus! {

/// Most inputs a transaction can have.
pub const MAX_INPUTS: usize = 8;

/// Most outputs a transaction can have.
pub const MAX_OUTPUTS: usize = 8;

/// Most bytes in a script that is stored inline.
pub const MAX_SCRIPT_SIZE: usize = 512;

/// Most bytes in a redeem script (covenant scripts exceed `MAX_SCRIPT_SIZE`).
pub const MAX_REDEEM_SIZE: usize = 1024;

/// Most bytes in a transaction payload.
pub const MAX_PAYLOAD_SIZE: usize = 768;

/// Size of the pool that redeem scripts above `MAX_SCRIPT_SIZE` share.
pub const REDEEM_POOL_SIZE: usize = 2048;

/// Most signatures on one input (up to 5-of-5 multisig).
pub const MAX_SIGS_PER_INPUT: usize = 5;

/// Most public keys in a multisig script.
pub const MAX_MULTISIG_KEYS: usize = 5;

/// A 32-byte hash or transaction id.
pub type Hash256 = [u8; 32];

/// A 20-byte subnetwork id.
pub type SubnetworkId = [u8; 20];

/// The native subnetwork.
pub const SUBNETWORK_ID_NATIVE: SubnetworkId = [0, 0, 0, 0, 0, 0, 0, 0, 0, 0, 0, 0, 0, 0, 0, 0, 0, 0, 0, 0];

/// Which parts of a transaction a signature commits to.
#[derive(Debug, Clone, Copy, PartialEq, Eq, Structural)]
pub enum SigHashType {
    All,
    NoOutputs,
    Single,
    AnyOneCanPay,
    AllAnyOneCanPay,
    NoneAnyOneCanPay,
    SingleAnyOneCanPay,
}

impl SigHashType {
    /// The wire byte of each type: one bit for the base type, one for
    /// "anyone can pay".
    pub open spec fn byte(self) -> u8 {
        match self {
            SigHashType::All => 0b0000_0001,
            SigHashType::NoOutputs => 0b0000_0010,
            SigHashType::Single => 0b0000_0100,
            SigHashType::AnyOneCanPay => 0b1000_0000,
            SigHashType::AllAnyOneCanPay => 0b1000_0001,
            SigHashType::NoneAnyOneCanPay => 0b1000_0010,
            SigHashType::SingleAnyOneCanPay => 0b1000_0100,
        }
    }

    /// The type with wire byte `b`, among those that name a base type.
    pub open spec fn of_byte(b: u8) -> Option<SigHashType> {
        if b == 0b0000_0001 {
            Some(SigHashType::All)
        } else if b == 0b0000_0010 {
            Some(SigHashType::NoOutputs)
        } else if b == 0b0000_0100 {
            Some(SigHashType::Single)
        } else if b == 0b1000_0001 {
            Some(SigHashType::AllAnyOneCanPay)
        } else if b == 0b1000_0010 {
            Some(SigHashType::NoneAnyOneCanPay)
        } else if b == 0b1000_0100 {
            Some(SigHashType::SingleAnyOneCanPay)
        } else {
            Option::None
        }
    }

    /// Parses a type from its wire byte. A bare "anyone can pay" names no
    /// base type and is refused.
    pub fn from_byte(b: u8) -> (r: Option<Self>)
        ensures
            r == SigHashType::of_byte(b),
    {
        match b {
            0b0000_0001 => Some(SigHashType::All),
            0b0000_0010 => Some(SigHashType::NoOutputs),
            0b0000_0100 => Some(SigHashType::Single),
            0b1000_0001 => Some(SigHashType::AllAnyOneCanPay),
            0b1000_0010 => Some(SigHashType::NoneAnyOneCanPay),
            0b1000_0100 => Some(SigHashType::SingleAnyOneCanPay),
            _ => Option::None,
        }
    }

    /// The wire byte.
    pub fn to_byte(self) -> (r: u8)
        ensures
            r == self.byte(),
    {
        match self {
            SigHashType::All => 0b0000_0001,
            SigHashType::NoOutputs => 0b0000_0010,
            SigHashType::Single => 0b0000_0100,
            SigHashType::AnyOneCanPay => 0b1000_0000,
            SigHashType::AllAnyOneCanPay => 0b1000_0001,
            SigHashType::NoneAnyOneCanPay => 0b1000_0010,
            SigHashType::SingleAnyOneCanPay => 0b1000_0100,
        }
    }

    /// Whether this is an "anyone can pay" type.
    pub fn is_anyone_can_pay(self) -> (r: bool)
        ensures
            r == (self is AnyOneCanPay || self is AllAnyOneCanPay || self is NoneAnyOneCanPay
                || self is SingleAnyOneCanPay),
    {
        let b = self.to_byte();
        assert(0x01u8 & 0x80 == 0 && 0x02u8 & 0x80 == 0 && 0x04u8 & 0x80 == 0 && 0x80u8 & 0x80
            != 0 && 0x81u8 & 0x80 != 0 && 0x82u8 & 0x80 != 0 && 0x84u8 & 0x80 != 0)
            by (bit_vector);
        (b & 0b1000_0000) != 0
    }

    /// Whether this type signs no outputs.
    pub fn is_sighash_none(self) -> (r: bool)
        ensures
            r == (self is NoOutputs || self is NoneAnyOneCanPay),
    {
        let b = self.to_byte();
        assert(0x01u8 & 0x02 == 0 && 0x02u8 & 0x02 != 0 && 0x04u8 & 0x02 == 0 && 0x80u8 & 0x02
            == 0 && 0x81u8 & 0x02 == 0 && 0x82u8 & 0x02 != 0 && 0x84u8 & 0x02 == 0)
            by (bit_vector);
        (b & 0b0000_0010) != 0
    }

    /// Whether this type signs only the output beside the input.
    pub fn is_sighash_single(self) -> (r: bool)
        ensures
            r == (self is Single || self is SingleAnyOneCanPay),
    {
        let b = self.to_byte();
        assert(0x01u8 & 0x04 == 0 && 0x02u8 & 0x04 == 0 && 0x04u8 & 0x04 != 0 && 0x80u8 & 0x04
            == 0 && 0x81u8 & 0x04 == 0 && 0x82u8 & 0x04 == 0 && 0x84u8 & 0x04 != 0)
            by (bit_vector);
        (b & 0b0000_0100) != 0
    }
}

/// Reference to a previous output.
#[derive(Debug, Clone)]
#[verifier::ext_equal]
pub struct Outpoint {
    pub transaction_id: Hash256,
    pub index: u32,
}

/// A versioned output script; the first `script_len` bytes of `script` count.
#[derive(Debug, Clone)]
#[verifier::ext_equal]
pub struct ScriptPublicKey {
    pub version: u16,
    pub script: [u8; MAX_SCRIPT_SIZE],
    pub script_len: usize,
}

impl ScriptPublicKey {
    /// The empty script of version 0.
    pub open spec fn blank() -> ScriptPublicKey {
        ScriptPublicKey { version: 0, script: bytes::zero_array(), script_len: 0 }
    }

    /// The declared length fits the buffer.
    pub open spec fn wf(self) -> bool {
        self.script_len <= MAX_SCRIPT_SIZE
    }

    /// The script itself, without the unused rest of the buffer.
    pub open spec fn bytes(self) -> Seq<u8> {
        self.script@.take(self.script_len as int)
    }

    /// The empty script of version 0.
    pub fn new() -> (r: Self)
        ensures
            r == ScriptPublicKey::blank(),
    {
        ScriptPublicKey { version: 0, script: [0u8; MAX_SCRIPT_SIZE], script_len: 0 }
    }

    /// The script itself.
    pub fn script_bytes(&self) -> (r: &[u8])
        requires
            self.wf(),
        ensures
            r@ == self.bytes(),
    {
        vstd::slice::slice_subrange(self.script.as_slice(), 0, self.script_len)
    }
}

/// The output that an input spends, as the companion app describes it.
#[derive(Debug, Clone)]
#[verifier::ext_equal]
pub struct UtxoEntry {
    /// In sompi (1 KAS = 100_000_000 sompi).
    pub amount: u64,
    pub script_public_key: ScriptPublicKey,
}

/// One signature slot of an input.
#[derive(Debug, Clone)]
#[verifier::ext_equal]
pub struct InputSig {
    pub signature: [u8; 64],
    pub sighash_type: u8,
    /// Position among the multisig keys; 0 for a single-key script.
    pub pubkey_pos: u8,
    pub present: bool,
    /// Compressed key that made the signature. It is not part of the packed
    /// transaction format, which names signers by `pubkey_pos` alone.
    pub pubkey_compressed: [u8; 33],
}

impl InputSig {
    /// The unused slot.
    pub open spec fn blank() -> InputSig {
        InputSig {
            signature: bytes::zero_array(),
            sighash_type: 0,
            pubkey_pos: 0,
            present: false,
            pubkey_compressed: bytes::zero_array(),
        }
    }

    /// The unused slot.
    pub fn empty() -> (r: Self)
        ensures
            r == InputSig::blank(),
    {
        InputSig {
            signature: [0u8; 64],
            sighash_type: 0,
            pubkey_pos: 0,
            present: false,
            pubkey_compressed: [0u8; 33],
        }
    }
}

/// A partial signature that came with a transaction, keyed by its full public
/// key so that it can be handed on unchanged.
#[derive(Debug, Clone, Copy)]
#[verifier::ext_equal]
pub struct IncomingPartialSig {
    pub pubkey: [u8; 33],
    pub signature: [u8; 64],
    /// False for an unused slot.
    pub present: bool,
}

impl IncomingPartialSig {
    /// The unused slot.
    pub open spec fn blank() -> IncomingPartialSig {
        IncomingPartialSig { pubkey: bytes::zero_array(), signature: bytes::zero_array(), present: false }
    }

    /// The unused slot.
    pub fn empty() -> (r: Self)
        ensures
            r == IncomingPartialSig::blank(),
    {
        IncomingPartialSig { pubkey: [0u8; 33], signature: [0u8; 64], present: false }
    }
}

/// A transaction input with room for several signatures.
#[derive(Debug, Clone)]
#[verifier::ext_equal]
pub struct TransactionInput {
    pub previous_outpoint: Outpoint,
    pub sequence: u64,
    pub sig_op_count: u8,
    pub utxo_entry: UtxoEntry,
    pub sigs: [InputSig; MAX_SIGS_PER_INPUT],
    pub sig_count: u8,
    /// The first signature once more, for single-signature readers.
    pub signature: [u8; 64],
    pub sig_len: u8,
    pub sighash_type: u8,
    /// The script behind a script-hash output, when it fits inline.
    pub redeem_script: [u8; MAX_SCRIPT_SIZE],
    pub redeem_script_len: usize,
    /// Whether the redeem script lives in the transaction's pool instead.
    pub redeem_in_pool: bool,
    pub redeem_script_offset: u16,
    pub incoming_partial_sigs: [IncomingPartialSig; MAX_SIGS_PER_INPUT],
    pub incoming_partial_sigs_count: u8,
    /// Derivation hint. Chain: 0 = absent, 1 = receive, 2 = change.
    pub derivation_chain: u8,
    pub derivation_index: u16,
}

impl TransactionInput {
    /// The unused input: all zero, but for one signature operation.
    pub open spec fn blank() -> TransactionInput {
        TransactionInput {
            previous_outpoint: Outpoint { transaction_id: bytes::zero_array(), index: 0 },
            sequence: 0,
            sig_op_count: 1,
            utxo_entry: UtxoEntry { amount: 0, script_public_key: ScriptPublicKey::blank() },
            sigs: [
                InputSig::blank(),
                InputSig::blank(),
                InputSig::blank(),
                InputSig::blank(),
                InputSig::blank(),
            ],
            sig_count: 0,
            signature: bytes::zero_array(),
            sig_len: 0,
            sighash_type: 0,
            redeem_script: bytes::zero_array(),
            redeem_script_len: 0,
            redeem_in_pool: false,
            redeem_script_offset: 0,
            incoming_partial_sigs: [IncomingPartialSig::blank(); MAX_SIGS_PER_INPUT],
            incoming_partial_sigs_count: 0,
            derivation_chain: 0,
            derivation_index: 0,
        }
    }

    /// The unused input.
    pub fn empty() -> (r: Self)
        ensures
            r == TransactionInput::blank(),
    {
        TransactionInput {
            previous_outpoint: Outpoint { transaction_id: [0u8; 32], index: 0 },
            sequence: 0,
            sig_op_count: 1,
            utxo_entry: UtxoEntry { amount: 0, script_public_key: ScriptPublicKey::new() },
            sigs: [
                InputSig::empty(),
                InputSig::empty(),
                InputSig::empty(),
                InputSig::empty(),
                InputSig::empty(),
            ],
            sig_count: 0,
            signature: [0u8; 64],
            sig_len: 0,
            sighash_type: 0,
            redeem_script: [0u8; MAX_SCRIPT_SIZE],
            redeem_script_len: 0,
            redeem_in_pool: false,
            redeem_script_offset: 0,
            incoming_partial_sigs: [IncomingPartialSig::empty(); MAX_SIGS_PER_INPUT],
            incoming_partial_sigs_count: 0,
            derivation_chain: 0,
            derivation_index: 0,
        }
    }
}

/// A transaction output.
#[derive(Debug, Clone)]
#[verifier::ext_equal]
pub struct TransactionOutput {
    /// In sompi.
    pub value: u64,
    pub script_public_key: ScriptPublicKey,
    /// Covenant binding.
    pub has_covenant: bool,
    pub covenant_auth_input: u16,
    pub covenant_id: [u8; 32],
    /// Change hint. Chain: 0 = absent, 2 = change.
    pub derivation_chain: u8,
    pub derivation_index: u16,
}

impl TransactionOutput {
    /// The unused output.
    pub open spec fn blank() -> TransactionOutput {
        TransactionOutput {
            value: 0,
            script_public_key: ScriptPublicKey::blank(),
            has_covenant: false,
            covenant_auth_input: 0,
            covenant_id: bytes::zero_array(),
            derivation_chain: 0,
            derivation_index: 0,
        }
    }

    /// The unused output.
    pub fn empty() -> (r: Self)
        ensures
            r == TransactionOutput::blank(),
    {
        TransactionOutput {
            value: 0,
            script_public_key: ScriptPublicKey::new(),
            has_covenant: false,
            covenant_auth_input: 0,
            covenant_id: [0u8; 32],
            derivation_chain: 0,
            derivation_index: 0,
        }
    }
}

/// A complete transaction, ready to be signed.
#[derive(Debug)]
#[verifier::ext_equal]
pub struct Transaction {
    pub version: u16,
    pub inputs: [TransactionInput; MAX_INPUTS],
    pub num_inputs: usize,
    pub outputs: [TransactionOutput; MAX_OUTPUTS],
    pub num_outputs: usize,
    pub locktime: u64,
    pub subnetwork_id: SubnetworkId,
    pub gas: u64,
    pub payload: [u8; MAX_PAYLOAD_SIZE],
    pub payload_len: usize,
    /// Added to the account key when a stealth output is spent.
    pub stealth_tweak: [u8; 32],
    pub has_stealth_tweak: bool,
    /// Redeem scripts above `MAX_SCRIPT_SIZE` bytes, one after another.
    pub redeem_pool: [u8; REDEEM_POOL_SIZE],
    /// Next free byte in the pool.
    pub redeem_pool_used: usize,
}

impl Transaction {
    /// The empty transaction.
    pub open spec fn blank() -> Transaction {
        Transaction {
            version: 0,
            inputs: [
                TransactionInput::blank(),
                TransactionInput::blank(),
                TransactionInput::blank(),
                TransactionInput::blank(),
                TransactionInput::blank(),
                TransactionInput::blank(),
                TransactionInput::blank(),
                TransactionInput::blank(),
            ],
            num_inputs: 0,
            outputs: [
                TransactionOutput::blank(),
                TransactionOutput::blank(),
                TransactionOutput::blank(),
                TransactionOutput::blank(),
                TransactionOutput::blank(),
                TransactionOutput::blank(),
                TransactionOutput::blank(),
                TransactionOutput::blank(),
            ],
            num_outputs: 0,
            locktime: 0,
            subnetwork_id: bytes::zero_array(),
            gas: 0,
            payload: bytes::zero_array(),
            payload_len: 0,
            stealth_tweak: bytes::zero_array(),
            has_stealth_tweak: false,
            redeem_pool: bytes::zero_array(),
            redeem_pool_used: 0,
        }
    }

    /// This transaction with input `i` replaced.
    pub open spec fn with_input(self, i: int, input: TransactionInput) -> Transaction {
        Transaction { inputs: vstd::array::spec_array_update(self.inputs, i, input), ..self }
    }

    /// This transaction with output `i` replaced.
    pub open spec fn with_output(self, i: int, output: TransactionOutput) -> Transaction {
        Transaction { outputs: vstd::array::spec_array_update(self.outputs, i, output), ..self }
    }

    /// Where the redeem script of input `i` is said to lie, there are bytes.
    pub open spec fn redeem_wf(self, i: int) -> bool {
        let input = self.inputs@[i];
        input.redeem_script_len > 0 ==> if input.redeem_in_pool {
            input.redeem_script_offset + input.redeem_script_len <= REDEEM_POOL_SIZE
        } else {
            input.redeem_script_len <= MAX_SCRIPT_SIZE
        }
    }

    /// The redeem script of input `i`; empty when there is none.
    pub open spec fn redeem(self, i: int) -> Seq<u8> {
        let input = self.inputs@[i];
        if input.redeem_script_len == 0 {
            Seq::empty()
        } else if input.redeem_in_pool {
            self.redeem_pool@.subrange(
                input.redeem_script_offset as int,
                input.redeem_script_offset + input.redeem_script_len,
            )
        } else {
            input.redeem_script@.take(input.redeem_script_len as int)
        }
    }

    /// This transaction with `data` stored as the redeem script of input `i`:
    /// inline when it fits there, else at the end of the pool. Nothing when
    /// it is too long or the pool is full.
    pub open spec fn with_redeem(self, i: int, data: Seq<u8>) -> Option<Transaction> {
        let input = self.inputs@[i];
        let len = data.len();
        if len == 0 {
            Some(
                self.with_input(
                    i,
                    TransactionInput { redeem_script_len: 0, redeem_in_pool: false, ..input },
                ),
            )
        } else if len <= MAX_SCRIPT_SIZE {
            Some(
                self.with_input(
                    i,
                    TransactionInput {
                        redeem_script: bytes::array_with(input.redeem_script, data),
                        redeem_script_len: len as usize,
                        redeem_in_pool: false,
                        ..input
                    },
                ),
            )
        } else if len <= MAX_REDEEM_SIZE && self.redeem_pool_used + len <= REDEEM_POOL_SIZE {
            let off = self.redeem_pool_used;
            Some(
                Transaction {
                    redeem_pool: bytes::array_splice(self.redeem_pool, off as int, data),
                    redeem_pool_used: (off + len) as usize,
                    ..self.with_input(
                        i,
                        TransactionInput {
                            redeem_script_offset: off as u16,
                            redeem_script_len: len as usize,
                            redeem_in_pool: true,
                            ..input
                        },
                    )
                },
            )
        } else {
            None
        }
    }

    /// Every count and length stays within its buffer.
    pub open spec fn wf(self) -> bool {
        &&& self.num_inputs <= MAX_INPUTS
        &&& self.num_outputs <= MAX_OUTPUTS
        &&& self.payload_len <= MAX_PAYLOAD_SIZE
        &&& self.redeem_pool_used <= REDEEM_POOL_SIZE
        &&& forall|i: int|
            #![trigger self.inputs@[i]]
            0 <= i < MAX_INPUTS ==> {
                &&& self.inputs@[i].utxo_entry.script_public_key.wf()
                &&& self.redeem_wf(i)
            }
        &&& forall|i: int|
            #![trigger self.outputs@[i]]
            0 <= i < MAX_OUTPUTS ==> self.outputs@[i].script_public_key.wf()
    }

    /// The empty transaction.
    pub fn new() -> (r: Self)
        ensures
            r == Transaction::blank(),
            r.wf(),
    {
        let tx = Transaction {
            version: 0,
            inputs: [
                TransactionInput::empty(),
                TransactionInput::empty(),
                TransactionInput::empty(),
                TransactionInput::empty(),
                TransactionInput::empty(),
                TransactionInput::empty(),
                TransactionInput::empty(),
                TransactionInput::empty(),
            ],
            num_inputs: 0,
            outputs: [
                TransactionOutput::empty(),
                TransactionOutput::empty(),
                TransactionOutput::empty(),
                TransactionOutput::empty(),
                TransactionOutput::empty(),
                TransactionOutput::empty(),
                TransactionOutput::empty(),
                TransactionOutput::empty(),
            ],
            num_outputs: 0,
            locktime: 0,
            subnetwork_id: [0u8; 20],
            gas: 0,
            payload: [0u8; MAX_PAYLOAD_SIZE],
            payload_len: 0,
            stealth_tweak: [0u8; 32],
            has_stealth_tweak: false,
            redeem_pool: [0u8; REDEEM_POOL_SIZE],
            redeem_pool_used: 0,
        };
        tx
    }

    /// Resets this transaction to the empty one.
    pub fn clear(&mut self)
        ensures
            *final(self) == Transaction::blank(),
    {
        *self = Transaction::new();
    }

    /// The redeem script of input `idx`.
    pub fn redeem_bytes(&self, idx: usize) -> (r: &[u8])
        requires
            idx < MAX_INPUTS,
            self.redeem_wf(idx as int),
        ensures
            r@ == self.redeem(idx as int),
    {
        let inp = &self.inputs[idx];
        if inp.redeem_script_len == 0 {
            return vstd::slice::slice_subrange(inp.redeem_script.as_slice(), 0, 0);
        }
        if inp.redeem_in_pool {
            let off = inp.redeem_script_offset as usize;
            vstd::slice::slice_subrange(
                self.redeem_pool.as_slice(),
                off,
                off + inp.redeem_script_len,
            )
        } else {
            vstd::slice::slice_subrange(inp.redeem_script.as_slice(), 0, inp.redeem_script_len)
        }
    }

    /// Stores a redeem script for input `idx`: inline up to
    /// `MAX_SCRIPT_SIZE` bytes, in the shared pool above that. Fails, and
    /// changes nothing, when the script is too long or the pool is full.
    pub fn store_redeem(&mut self, idx: usize, data: &[u8]) -> (r: Result<(), ()>)
        requires
            idx < MAX_INPUTS,
            MAX_SCRIPT_SIZE < data.len() <= MAX_REDEEM_SIZE ==> old(self).redeem_pool_used
                + data.len() <= usize::MAX,
        ensures
            r is Ok <==> old(self).with_redeem(idx as int, data@) is Some,
            r is Ok ==> Some(*final(self)) == old(self).with_redeem(idx as int, data@),
            r is Err ==> *final(self) == *old(self),
    {
        let len = data.len();
        if len == 0 {
            self.inputs[idx].redeem_script_len = 0;
            self.inputs[idx].redeem_in_pool = false;
            return Ok(());
        }
        if len <= MAX_SCRIPT_SIZE {
            bytes::copy_prefix(&mut self.inputs[idx].redeem_script, data);
            self.inputs[idx].redeem_script_len = len;
            self.inputs[idx].redeem_in_pool = false;
        } else {
            if len > MAX_REDEEM_SIZE {
                return Err(());
            }
            let off = self.redeem_pool_used;
            if off + len > REDEEM_POOL_SIZE {
                return Err(());
            }
            bytes::copy_at(&mut self.redeem_pool, off, data);
            self.inputs[idx].redeem_script_offset = off as u16;
            self.inputs[idx].redeem_script_len = len;
            self.inputs[idx].redeem_in_pool = true;
            self.redeem_pool_used = off + len;
        }
        Ok(())
    }

    /// The inputs in use.
    pub fn inputs(&self) -> (r: &[TransactionInput])
        requires
            self.num_inputs <= MAX_INPUTS,
        ensures
            r@ == self.inputs@.take(self.num_inputs as int),
    {
        vstd::slice::slice_subrange(self.inputs.as_slice(), 0, self.num_inputs)
    }

    /// The outputs in use.
    pub fn outputs(&self) -> (r: &[TransactionOutput])
        requires
            self.num_outputs <= MAX_OUTPUTS,
        ensures
            r@ == self.outputs@.take(self.num_outputs as int),
    {
        vstd::slice::slice_subrange(self.outputs.as_slice(), 0, self.num_outputs)
    }

    /// Whether the transaction belongs to the native subnetwork.
    pub fn is_native(&self) -> (r: bool)
        ensures
            r == (self.subnetwork_id@ == bytes::zeros(20)),
    {
        let native = SUBNETWORK_ID_NATIVE;
        assert(native@ =~= bytes::zeros(20));
        bytes::slice_eq(self.subnetwork_id.as_slice(), native.as_slice())
    }

    /// The sompi that the first `n` inputs bring in.
    pub open spec fn input_sum(self, n: nat) -> nat
        decreases n,
    {
        if n == 0 {
            0
        } else {
            self.input_sum((n - 1) as nat) + self.inputs@[n - 1].utxo_entry.amount as nat
        }
    }

    /// The sompi that the first `n` outputs pay.
    pub open spec fn output_sum(self, n: nat) -> nat
        decreases n,
    {
        if n == 0 {
            0
        } else {
            self.output_sum((n - 1) as nat) + self.outputs@[n - 1].value as nat
        }
    }

    proof fn lemma_input_sum_grows(self, a: nat, b: nat)
        requires
            a <= b,
        ensures
            self.input_sum(a) <= self.input_sum(b),
        decreases b,
    {
        if a < b {
            self.lemma_input_sum_grows(a, (b - 1) as nat);
        }
    }

    proof fn lemma_output_sum_grows(self, a: nat, b: nat)
        requires
            a <= b,
        ensures
            self.output_sum(a) <= self.output_sum(b),
        decreases b,
    {
        if a < b {
            self.lemma_output_sum_grows(a, (b - 1) as nat);
        }
    }

    /// Total sompi across the inputs.
    pub fn total_input_value(&self) -> (r: u64)
        requires
            self.num_inputs <= MAX_INPUTS,
            self.input_sum(self.num_inputs as nat) <= u64::MAX,
        ensures
            r == self.input_sum(self.num_inputs as nat),
            r == Seq::new(
                self.num_inputs as nat,
                |i: int| self.inputs@[i].utxo_entry.amount as int,
            ).fold_left(0int, |sum: int, amount: int| sum + amount),
    {
        let mut total: u64 = 0;
        let mut i: usize = 0;
        while i < self.num_inputs
            invariant
                i <= self.num_inputs <= MAX_INPUTS,
                total == self.input_sum(i as nat),
                self.input_sum(self.num_inputs as nat) <= u64::MAX,
            decreases self.num_inputs - i,
        {
            proof {
                self.lemma_input_sum_grows((i + 1) as nat, self.num_inputs as nat);
            }
            total = total + self.inputs[i].utxo_entry.amount;
            i += 1;
        }
        proof {
            law_every_input_counts(*self, self.num_inputs as nat);
        }
        total
    }

    /// Total sompi across the outputs.
    pub fn total_output_value(&self) -> (r: u64)
        requires
            self.num_outputs <= MAX_OUTPUTS,
            self.output_sum(self.num_outputs as nat) <= u64::MAX,
        ensures
            r == self.output_sum(self.num_outputs as nat),
            r == Seq::new(
                self.num_outputs as nat,
                |i: int| self.outputs@[i].value as int,
            ).fold_left(0int, |sum: int, value: int| sum + value),
    {
        let mut total: u64 = 0;
        let mut i: usize = 0;
        while i < self.num_outputs
            invariant
                i <= self.num_outputs <= MAX_OUTPUTS,
                total == self.output_sum(i as nat),
                self.output_sum(self.num_outputs as nat) <= u64::MAX,
            decreases self.num_outputs - i,
        {
            proof {
                self.lemma_output_sum_grows((i + 1) as nat, self.num_outputs as nat);
            }
            total = total + self.outputs[i].value;
            i += 1;
        }
        proof {
            law_every_output_counts(*self, self.num_outputs as nat);
        }
        total
    }

    /// The implicit fee: what the inputs bring in beyond what the outputs
    /// pay, and 0 when they do not cover them.
    pub fn fee(&self) -> (r: u64)
        requires
            self.num_inputs <= MAX_INPUTS,
            self.num_outputs <= MAX_OUTPUTS,
            self.input_sum(self.num_inputs as nat) <= u64::MAX,
            self.output_sum(self.num_outputs as nat) <= u64::MAX,
        ensures
            self.input_sum(self.num_inputs as nat) >= self.output_sum(self.num_outputs as nat)
                ==> r == self.input_sum(self.num_inputs as nat) - self.output_sum(
                self.num_outputs as nat,
            ),
            self.input_sum(self.num_inputs as nat) < self.output_sum(self.num_outputs as nat)
                ==> r == 0,
    {
        self.total_input_value().saturating_sub(self.total_output_value())
    }

    /// The text of an amount in KAS: whole part, point, and up to eight
    /// decimals without trailing zeros ("00" when there are none).
    pub open spec fn kas_text(sompi: nat) -> Seq<u8> {
        let whole = sompi / 100_000_000;
        let frac = sompi % 100_000_000;
        decimal::decimal(whole) + seq![46u8] + if frac == 0 {
            seq![48u8, 48u8]
        } else {
            decimal::trim_zeros(decimal::fixed_digits(frac, 8))
        }
    }

    /// Writes a sompi amount as KAS, as far as the buffer goes:
    /// 123_456_789 sompi is "1.23456789".
    ///
    /// Returns how many bytes were written, except that a whole part of 0
    /// counts as one byte even when the buffer is empty.
    pub fn format_kas(sompi: u64, buf: &mut [u8]) -> (r: usize)
        ensures
            final(buf)@.len() == old(buf)@.len(),
            ({
                let text = Transaction::kas_text(sompi as nat);
                let n = if text.len() <= old(buf)@.len() {
                    text.len() as int
                } else {
                    old(buf)@.len() as int
                };
                &&& final(buf)@ == text.take(n) + old(buf)@.skip(n)
                &&& r == if old(buf)@.len() == 0 && sompi < 100_000_000 {
                    1
                } else {
                    n
                }
            }),
    {
        let kas = sompi / 100_000_000;
        let frac = sompi % 100_000_000;
        let ghost text = Transaction::kas_text(sompi as nat);
        let ghost dec = decimal::decimal(kas as nat);
        proof {
            decimal::lemma_decimal_value(kas as nat);
        }
        let mut pos: usize = Self::write_u64(kas, buf);
        let len = buf.len();
        let ghost n0 = if dec.len() <= len { dec.len() as int } else { len as int };
        assert(text.take(n0) =~= dec.take(n0));
        if pos < len {
            buf[pos] = 46;
            pos += 1;
            assert(buf@ =~= text.take(pos as int) + old(buf)@.skip(pos as int));
        }
        let mut frac_buf: [u8; 8] = [48u8; 8];
        let mut f: u64 = frac;
        let mut k: usize = 8;
        assert(decimal::fixed_digits(frac as nat, 8) =~= decimal::fixed_digits(f as nat, k as nat)
            + frac_buf@.skip(8));
        assert(decimal::pow10(8) == 100_000_000) by {
            reveal_with_fuel(decimal::pow10, 9);
        }
        while k > 0
            invariant
                k <= 8,
                frac_buf@.len() == 8,
                decimal::fixed_digits(frac as nat, 8) == decimal::fixed_digits(f as nat, k as nat)
                    + frac_buf@.skip(k as int),
            decreases k,
        {
            k -= 1;
            frac_buf[k] = 48 + (f % 10) as u8;
            f = f / 10;
            assert(decimal::fixed_digits(frac as nat, 8) =~= decimal::fixed_digits(
                f as nat,
                k as nat,
            ) + frac_buf@.skip(k as int));
        }
        proof {
            decimal::lemma_fixed_digits_value(frac as nat, 8);
            decimal::lemma_trim_zeros(frac_buf@);
            assert(frac_buf@ =~= decimal::fixed_digits(frac as nat, 8));
        }
        let mut last_nonzero: usize = 0;
        let mut i: usize = 0;
        while i < 8
            invariant
                i <= 8,
                last_nonzero < 8,
                forall|j: int| last_nonzero < j < i ==> frac_buf@[j] == 48,
                frac_buf@[last_nonzero as int] != 48 || (last_nonzero == 0 && forall|j: int|
                    0 <= j < i ==> frac_buf@[j] == 48),
                last_nonzero < i || (i == 0 && last_nonzero == 0),
            decreases 8 - i,
        {
            if frac_buf[i] != 48 {
                last_nonzero = i;
            }
            i += 1;
        }
        let frac_digits: usize = if frac == 0 {
            2
        } else {
            last_nonzero + 1
        };
        let ghost tail = if frac == 0 {
            seq![48u8, 48u8]
        } else {
            decimal::trim_zeros(frac_buf@)
        };
        proof {
            if frac == 0 {
                Self::lemma_zero_digits(8);
                assert(tail =~= frac_buf@.take(2));
            } else {
                if forall|j: int| 0 <= j < 8 ==> frac_buf@[j] == 48 {
                    Self::lemma_all_zero_value(frac_buf@);
                }
                assert(tail.len() == frac_digits);
            }
            assert(tail =~= frac_buf@.take(frac_digits as int));
            assert(text =~= dec + seq![46u8] + tail);
        }
        let mut i: usize = 0;
        let ghost start = pos as int;
        while i < frac_digits
            invariant
                i <= frac_digits <= 8,
                len == buf@.len() == old(buf)@.len(),
                text == dec + seq![46u8] + frac_buf@.take(frac_digits as int),
                len == 0 ==> buf@ == old(buf)@ && pos == start,
                len > 0 ==> pos == (if dec.len() + 1 + i <= len {
                    dec.len() + 1 + i
                } else {
                    len as int
                }),
                len > 0 ==> buf@ == text.take(pos as int) + old(buf)@.skip(pos as int),
            decreases frac_digits - i,
        {
            if pos < len {
                buf[pos] = frac_buf[i];
                pos += 1;
                assert(buf@ =~= text.take(pos as int) + old(buf)@.skip(pos as int));
            }
            i += 1;
        }
        proof {
            if len == 0 {
                assert(buf@ =~= text.take(0) + old(buf)@.skip(0));
            }
        }
        pos
    }

    proof fn lemma_zero_digits(w: nat)
        ensures
            decimal::fixed_digits(0, w) == Seq::new(w, |i: int| 48u8),
        decreases w,
    {
        if w > 0 {
            Self::lemma_zero_digits((w - 1) as nat);
        }
        assert(decimal::fixed_digits(0, w) =~= Seq::new(w, |i: int| 48u8));
    }

    proof fn lemma_all_zero_value(s: Seq<u8>)
        requires
            forall|j: int| 0 <= j < s.len() ==> s[j] == 48,
        ensures
            decimal::decimal_value(s) == 0,
        decreases s.len(),
    {
        if s.len() > 0 {
            Self::lemma_all_zero_value(s.drop_last());
        }
    }

    /// Writes `val` in decimal, as far as the buffer goes, and returns how
    /// many bytes that took (1 for a zero, even when the buffer is empty).
    fn write_u64(val: u64, buf: &mut [u8]) -> (r: usize)
        ensures
            final(buf)@.len() == old(buf)@.len(),
            ({
                let text = decimal::decimal(val as nat);
                let n = if text.len() <= old(buf)@.len() {
                    text.len() as int
                } else {
                    old(buf)@.len() as int
                };
                &&& final(buf)@ == text.take(n) + old(buf)@.skip(n)
                &&& r == if old(buf)@.len() == 0 && val == 0 {
                    1
                } else {
                    n
                }
            }),
    {
        let ghost text = decimal::decimal(val as nat);
        if val == 0 {
            if buf.len() > 0 {
                buf[0] = 48;
                assert(buf@ =~= text.take(1) + old(buf)@.skip(1));
            } else {
                assert(buf@ =~= text.take(0) + old(buf)@.skip(0));
            }
            return 1;
        }
        let mut digits: [u8; 20] = [0u8; 20];
        let mut count: usize = 0;
        let mut rest: u64 = val;
        proof {
            reveal_with_fuel(decimal::pow10, 21);
            assert(text =~= decimal::decimal(rest as nat) + digits@.take(0).reverse());
        }
        while rest > 0
            invariant
                count <= 20,
                val > 0,
                rest < decimal::pow10((20 - count) as nat),
                text == decimal::decimal(val as nat),
                rest > 0 ==> text == decimal::decimal(rest as nat) + digits@.take(
                    count as int,
                ).reverse(),
                rest == 0 ==> text == digits@.take(count as int).reverse(),
            decreases rest,
        {
            let ghost before = digits@.take(count as int).reverse();
            let ghost d = (48 + rest % 10) as u8;
            assert(count < 20) by {
                if count == 20 {
                    assert(decimal::pow10(0) == 1);
                }
            }
            assert(decimal::pow10((20 - count) as nat) == 10 * decimal::pow10(
                (19 - count) as nat,
            ));
            digits[count] = 48 + (rest % 10) as u8;
            assert(digits@.take(count + 1).reverse() =~= seq![d] + before);
            proof {
                if rest < 10 {
                    assert(text =~= seq![d] + before);
                } else {
                    assert(text =~= decimal::decimal((rest / 10) as nat) + (seq![d] + before));
                }
            }
            rest = rest / 10;
            count += 1;
        }
        let written = if count <= buf.len() {
            count
        } else {
            buf.len()
        };
        let mut i: usize = 0;
        assert(buf@ =~= text.take(0) + old(buf)@.skip(0));
        while i < written
            invariant
                i <= written <= count <= 20,
                written <= buf@.len() == old(buf)@.len(),
                text == digits@.take(count as int).reverse(),
                buf@ == text.take(i as int) + old(buf)@.skip(i as int),
            decreases written - i,
        {
            buf[i] = digits[count - 1 - i];
            i += 1;
            assert(buf@ =~= text.take(i as int) + old(buf)@.skip(i as int));
        }
        written
    }
}

/// The total of the inputs is the sum of the amounts of all inputs in use.
pub proof fn law_every_input_counts(tx: Transaction, n: nat)
    ensures
        tx.input_sum(n) == Seq::new(
            n,
            |i: int| tx.inputs@[i].utxo_entry.amount as int,
        ).fold_left(0int, |sum: int, amount: int| sum + amount),
    decreases n,
{
    let amounts = Seq::new(n, |i: int| tx.inputs@[i].utxo_entry.amount as int);
    if n > 0 {
        law_every_input_counts(tx, (n - 1) as nat);
        assert(amounts.drop_last() =~= Seq::new(
            (n - 1) as nat,
            |i: int| tx.inputs@[i].utxo_entry.amount as int,
        ));
    }
    reveal_with_fuel(Seq::fold_left, 2);
}

/// The total of the outputs is the sum of the values of all outputs in use.
pub proof fn law_every_output_counts(tx: Transaction, n: nat)
    ensures
        tx.output_sum(n) == Seq::new(n, |i: int| tx.outputs@[i].value as int).fold_left(
            0int,
            |sum: int, value: int| sum + value,
        ),
    decreases n,
{
    let values = Seq::new(n, |i: int| tx.outputs@[i].value as int);
    if n > 0 {
        law_every_output_counts(tx, (n - 1) as nat);
        assert(values.drop_last() =~= Seq::new(
            (n - 1) as nat,
            |i: int| tx.outputs@[i].value as int,
        ));
    }
    reveal_with_fuel(Seq::fold_left, 2);
}

/// Whatever one input in use brings more, the total is more by just as much.
pub proof fn law_total_follows_each_input(a: Transaction, b: Transaction, i: int, n: nat)
    requires
        0 <= i < n <= MAX_INPUTS,
        forall|j: int|
            #![trigger b.inputs@[j]]
            0 <= j < n && j != i ==> b.inputs@[j].utxo_entry.amount
                == a.inputs@[j].utxo_entry.amount,
    ensures
        b.input_sum(n) - a.input_sum(n) == b.inputs@[i].utxo_entry.amount
            - a.inputs@[i].utxo_entry.amount,
    decreases n,
{
    if i < n - 1 {
        law_total_follows_each_input(a, b, i, (n - 1) as nat);
        assert(b.inputs@[n - 1].utxo_entry.amount == a.inputs@[n - 1].utxo_entry.amount);
    } else {
        lemma_same_input_sum(a, b, (n - 1) as nat);
    }
}

proof fn lemma_same_input_sum(a: Transaction, b: Transaction, n: nat)
    requires
        n <= MAX_INPUTS,
        forall|j: int|
            #![trigger b.inputs@[j]]
            0 <= j < n ==> b.inputs@[j].utxo_entry.amount == a.inputs@[j].utxo_entry.amount,
    ensures
        a.input_sum(n) == b.input_sum(n),
    decreases n,
{
    if n > 0 {
        lemma_same_input_sum(a, b, (n - 1) as nat);
        assert(b.inputs@[n - 1].utxo_entry.amount == a.inputs@[n - 1].utxo_entry.amount);
    }
}

/// Whatever one output in use pays more, the total is more by just as much.
pub proof fn law_total_follows_each_output(a: Transaction, b: Transaction, i: int, n: nat)
    requires
        0 <= i < n <= MAX_OUTPUTS,
        forall|j: int|
            #![trigger b.outputs@[j]]
            0 <= j < n && j != i ==> b.outputs@[j].value == a.outputs@[j].value,
    ensures
        b.output_sum(n) - a.output_sum(n) == b.outputs@[i].value - a.outputs@[i].value,
    decreases n,
{
    if i < n - 1 {
        law_total_follows_each_output(a, b, i, (n - 1) as nat);
        assert(b.outputs@[n - 1].value == a.outputs@[n - 1].value);
    } else {
        lemma_same_output_sum(a, b, (n - 1) as nat);
    }
}

proof fn lemma_same_output_sum(a: Transaction, b: Transaction, n: nat)
    requires
        n <= MAX_OUTPUTS,
        forall|j: int|
            #![trigger b.outputs@[j]]
            0 <= j < n ==> b.outputs@[j].value == a.outputs@[j].value,
    ensures
        a.output_sum(n) == b.output_sum(n),
    decreases n,
{
    if n > 0 {
        lemma_same_output_sum(a, b, (n - 1) as nat);
        assert(b.outputs@[n - 1].value == a.outputs@[n - 1].value);
    }
}

/// A signature type is read back from its wire byte. Only a bare "anyone can
/// pay", which names no base type, is refused.
pub proof fn law_sighash_byte_round_trip(t: SigHashType)
    ensures
        SigHashType::of_byte(t.byte()) == if t is AnyOneCanPay {
            None
        } else {
            Some(t)
        },
{
}

/// Only bytes that a signature type is written as are read as one.
pub proof fn law_sighash_byte_is_canonical(b: u8)
    ensures
        SigHashType::of_byte(b) matches Some(t) ==> t.byte() == b,
{
}

/// Pooled redeem scripts lie in the used part of the pool.
pub open spec fn pool_wf(tx: Transaction) -> bool {
    &&& tx.redeem_pool_used <= REDEEM_POOL_SIZE
    &&& forall|i: int|
        #![trigger tx.inputs@[i]]
        0 <= i < MAX_INPUTS ==> {
            let x = tx.inputs@[i];
            if x.redeem_in_pool {
                x.redeem_script_offset + x.redeem_script_len <= tx.redeem_pool_used
            } else {
                x.redeem_script_len <= MAX_SCRIPT_SIZE
            }
        }
}

/// A redeem script that is stored reads back as it was, and storing it leaves
/// those of the other inputs alone.
pub proof fn law_stored_redeem_reads_back(tx: Transaction, i: int, data: Seq<u8>)
    requires
        0 <= i < MAX_INPUTS,
        pool_wf(tx),
        tx.with_redeem(i, data) is Some,
    ensures
        pool_wf(tx.with_redeem(i, data).unwrap()),
        tx.with_redeem(i, data).unwrap().redeem(i) == data,
        forall|j: int|
            0 <= j < MAX_INPUTS && j != i ==> #[trigger] tx.with_redeem(i, data).unwrap().redeem(j)
                == tx.redeem(j),
{
    let t = tx.with_redeem(i, data).unwrap();
    let x = tx.inputs@[i];
    let used = tx.redeem_pool_used as int;
    if data.len() == 0 {
        assert(t.redeem(i) =~= data);
    } else if data.len() <= MAX_SCRIPT_SIZE {
        bytes::lemma_array_with(x.redeem_script, data);
        assert(t.redeem(i) =~= data);
    } else {
        bytes::lemma_array_splice(tx.redeem_pool, used, data);
        assert(t.inputs@[i].redeem_script_offset == used);
        assert(t.redeem(i) =~= data);
    }
    assert forall|j: int| 0 <= j < MAX_INPUTS && j != i implies #[trigger] t.redeem(j)
        == tx.redeem(j) by {
        assert(t.inputs@[j] == tx.inputs@[j]);
        let y = tx.inputs@[j];
        if y.redeem_in_pool && y.redeem_script_len > 0 {
            assert(t.redeem(j) =~= tx.redeem(j));
        }
    }
    assert forall|j: int|
        #![trigger t.inputs@[j]]
        0 <= j < MAX_INPUTS implies {
        let y = t.inputs@[j];
        if y.redeem_in_pool {
            y.redeem_script_offset + y.redeem_script_len <= t.redeem_pool_used
        } else {
            y.redeem_script_len <= MAX_SCRIPT_SIZE
        }
    } by {
        if j != i {
            assert(t.inputs@[j] == tx.inputs@[j]);
        }
    }
}

/// No two amounts have the same text.
pub proof fn law_kas_text_is_unambiguous(a: nat, b: nat)
    requires
        Transaction::kas_text(a) == Transaction::kas_text(b),
    ensures
        a == b,
{
    let (wa, fa) = (a / 100_000_000, a % 100_000_000);
    let (wb, fb) = (b / 100_000_000, b % 100_000_000);
    let (da, db) = (decimal::decimal(wa), decimal::decimal(wb));
    let text = Transaction::kas_text(a);
    decimal::lemma_decimal_value(wa);
    decimal::lemma_decimal_value(wb);
    assert(decimal::pow10(8) == 100_000_000) by {
        reveal_with_fuel(decimal::pow10, 9);
    }
    let (xa, xb) = (decimal::fixed_digits(fa, 8), decimal::fixed_digits(fb, 8));
    decimal::lemma_fixed_digits_value(fa, 8);
    decimal::lemma_fixed_digits_value(fb, 8);
    decimal::lemma_trim_zeros(xa);
    decimal::lemma_trim_zeros(xb);
    let ta = if fa == 0 {
        seq![48u8, 48u8]
    } else {
        decimal::trim_zeros(xa)
    };
    let tb = if fb == 0 {
        seq![48u8, 48u8]
    } else {
        decimal::trim_zeros(xb)
    };
    assert(text == da + seq![46u8] + ta);
    assert(text == db + seq![46u8] + tb);
    assert(text[da.len() as int] == 46);
    assert(text[db.len() as int] == 46);
    if da.len() < db.len() {
        assert(text[da.len() as int] == db[da.len() as int]);
    }
    if db.len() < da.len() {
        assert(text[db.len() as int] == da[db.len() as int]);
    }
    assert(da =~= text.take(da.len() as int));
    assert(db =~= text.take(db.len() as int));
    assert(ta =~= text.skip(da.len() + 1int));
    assert(tb =~= text.skip(db.len() + 1int));
    if fa != 0 && decimal::trim_zeros(xa).len() == 0 {
        Transaction::lemma_all_zero_value(xa);
    }
    if fb != 0 && decimal::trim_zeros(xb).len() == 0 {
        Transaction::lemma_all_zero_value(xb);
    }
    if fa == 0 && fb != 0 {
        assert(tb.last() == 48);
    }
    if fb == 0 && fa != 0 {
        assert(ta.last() == 48);
    }
    if fa != 0 && fb != 0 {
        assert forall|k: int| 0 <= k < 8 implies xa[k] == xb[k] by {
            if k < ta.len() {
                assert(xa[k] == ta[k]);
                assert(xb[k] == tb[k]);
            }
        }
        assert(xa =~= xb);
    }
}

/// `text` is `whole`, a point and `part`, and these stand for so many sompi:
/// 100_000_000 for each one of `whole`, and for `part` as many as its digits
/// say behind a point.
pub open spec fn stands_for(text: Seq<u8>, whole: Seq<u8>, part: Seq<u8>, sompi: nat) -> bool {
    &&& text == whole + seq![46u8] + part
    &&& decimal::all_digits(whole) && decimal::all_digits(part)
    &&& whole.len() >= 1 && (whole[0] == 48 ==> whole.len() == 1)
    &&& 1 <= part.len() <= 8
    &&& part == seq![48u8, 48u8] || part.last() != 48
    &&& decimal::decimal_value(whole) * 100_000_000 + decimal::decimal_value(part)
        * decimal::pow10((8 - part.len()) as nat) == sompi
}

/// The text of an amount stands for that amount: all its whole KAS and all
/// its decimals, with no zero in front or behind (but for "0" and "00").
pub proof fn law_kas_text_stands_for_the_amount(sompi: nat)
    ensures
        exists|whole: Seq<u8>, part: Seq<u8>| #[trigger]
            stands_for(Transaction::kas_text(sompi), whole, part, sompi),
{
    let (w, f) = (sompi / 100_000_000, sompi % 100_000_000);
    let whole = decimal::decimal(w);
    let digits = decimal::fixed_digits(f, 8);
    decimal::lemma_decimal_value(w);
    decimal::lemma_no_leading_zero(w);
    assert(decimal::pow10(8) == 100_000_000 && decimal::pow10(6) == 1_000_000) by {
        reveal_with_fuel(decimal::pow10, 9);
    }
    decimal::lemma_fixed_digits_value(f, 8);
    decimal::lemma_trim_zeros(digits);
    let part = if f == 0 {
        seq![48u8, 48u8]
    } else {
        decimal::trim_zeros(digits)
    };
    if f == 0 {
        Transaction::lemma_all_zero_value(part);
        assert(0 * decimal::pow10(6) == 0);
    } else {
        if part.len() == 0 {
            Transaction::lemma_all_zero_value(digits);
        }
        decimal::lemma_zeros_at_the_end(digits, part.len() as int);
    }
    assert(stands_for(Transaction::kas_text(sompi), whole, part, sompi));
}

/// A redeem script of up to 512 bytes always has room, in the input. One of
/// up to 1024 bytes has room as long as the pool of 2048 bytes can take it.
/// A longer one has none. What else the transaction holds stays as it is.
pub proof fn law_redeem_has_room(tx: Transaction, i: int, data: Seq<u8>)
    requires
        0 <= i < MAX_INPUTS,
    ensures
        data.len() <= 512 ==> tx.with_redeem(i, data) is Some,
        512 < data.len() <= 1024 ==> (tx.with_redeem(i, data) is Some <==> tx.redeem_pool_used
            + data.len() <= 2048),
        data.len() > 1024 ==> tx.with_redeem(i, data) is None,
        tx.with_redeem(i, data) matches Some(t) ==> {
            &&& t.inputs@[i].redeem_script_len == data.len()
            &&& t.redeem_pool_used == tx.redeem_pool_used + if data.len() > 512 {
                data.len() as int
            } else {
                0
            }
            &&& t == Transaction {
                inputs: t.inputs,
                redeem_pool: t.redeem_pool,
                redeem_pool_used: t.redeem_pool_used,
                ..tx
            }
            &&& t.inputs@[i] == TransactionInput {
                redeem_script: t.inputs@[i].redeem_script,
                redeem_script_len: t.inputs@[i].redeem_script_len,
                redeem_in_pool: t.inputs@[i].redeem_in_pool,
                redeem_script_offset: t.inputs@[i].redeem_script_offset,
                ..tx.inputs@[i]
            }
            &&& forall|j: int|
                0 <= j < MAX_INPUTS && j != i ==> #[trigger] t.inputs@[j] == tx.inputs@[j]
        },
{
}

/// The empty transaction has nothing in it. An unused input asks for one
/// signature operation.
pub proof fn law_empty_transaction(i: int)
    requires
        0 <= i < 8,
    ensures
        ({
            let tx = Transaction::blank();
            let (x, y) = (tx.inputs@[i], tx.outputs@[i]);
            &&& tx.version == 0 && tx.num_inputs == 0 && tx.num_outputs == 0
            &&& tx.locktime == 0 && tx.gas == 0 && tx.payload_len == 0
            &&& tx.subnetwork_id@ == bytes::zeros(20)
            &&& !tx.has_stealth_tweak && tx.redeem_pool_used == 0
            &&& x.sequence == 0 && x.sig_op_count == 1 && x.utxo_entry.amount == 0
            &&& x.sig_count == 0 && x.sig_len == 0 && x.redeem_script_len == 0
            &&& !x.redeem_in_pool && x.utxo_entry.script_public_key.script_len == 0
            &&& y.value == 0 && !y.has_covenant && y.script_public_key.script_len == 0
        }),
{
    assert(Transaction::blank().subnetwork_id@ =~= bytes::zeros(20));
}

} // verus!
