//! The output scripts that the device recognises.
use crate::bytes;
use crate::wallet::transaction::MAX_MULTISIG_KEYS;
use vstd::prelude::*;

verus! {

/// Pushes 32 bytes.
pub const OP_DATA_32: u8 = 0x20;

/// Push the numbers 1 to 5.
pub const OP_1: u8 = 0x51;

pub const OP_2: u8 = 0x52;

pub const OP_3: u8 = 0x53;

pub const OP_4: u8 = 0x54;

pub const OP_5: u8 = 0x55;

pub const OP_CHECKSIG: u8 = 0xAC;

pub const OP_CHECKMULTISIG: u8 = 0xAE;

pub const OP_BLAKE2B: u8 = 0xAA;

pub const OP_EQUAL: u8 = 0x87;

/// An M-of-N multisig script taken apart.
#[derive(Debug, Clone)]
#[verifier::ext_equal]
pub struct MultisigInfo {
    /// Signatures required.
    pub m: u8,
    /// Public keys in the script.
    pub n: u8,
    pub pubkeys: [[u8; 32]; MAX_MULTISIG_KEYS],
}

impl MultisigInfo {
    /// No keys, no signatures.
    pub fn new() -> (r: Self)
        ensures
            r.m == 0,
            r.n == 0,
            forall|i: int|
                0 <= i < MAX_MULTISIG_KEYS ==> #[trigger] r.pubkeys@[i] == bytes::zero_array::<32>(),
    {
        MultisigInfo { m: 0, n: 0, pubkeys: [[0u8; 32]; MAX_MULTISIG_KEYS] }
    }
}

/// The kinds of script.
#[derive(Debug, Clone, Copy, PartialEq, Eq, Structural)]
pub enum ScriptType {
    /// OP_DATA_32 <pubkey> OP_CHECKSIG
    P2PK,
    /// OP_BLAKE2B OP_DATA_32 <script hash> OP_EQUAL
    P2SH,
    /// OP_m (OP_DATA_32 <pubkey>)*n OP_n OP_CHECKMULTISIG
    Multisig,
    Unknown,
}

/// The bytes that tell the type of a script of length `len` are there.
pub open spec fn script_readable(script: Seq<u8>, len: int) -> bool {
    &&& len == 34 ==> script.len() >= 1 && (script[0] == OP_DATA_32 ==> script.len() >= 34)
    &&& len == 35 ==> script.len() >= 1 && (script[0] == OP_BLAKE2B ==> script.len() >= 2 && (
    script[1] == OP_DATA_32 ==> script.len() >= 35))
    &&& len >= 36 ==> script.len() >= len
}

/// `script[..len]` pays to a single key.
pub open spec fn is_p2pk(script: Seq<u8>, len: int) -> bool {
    len == 34 && script[0] == OP_DATA_32 && script[33] == OP_CHECKSIG
}

/// `script[..len]` pays to a script hash.
pub open spec fn is_p2sh(script: Seq<u8>, len: int) -> bool {
    len == 35 && script[0] == OP_BLAKE2B && script[1] == OP_DATA_32 && script[34] == OP_EQUAL
}

/// `script[..len]` is an M-of-N multisig script.
pub open spec fn is_multisig(script: Seq<u8>, len: int) -> bool {
    let m = script[0] - OP_1 + 1;
    let n = script[len - 2] - OP_1 + 1;
    &&& len >= 36
    &&& script[len - 1] == OP_CHECKMULTISIG
    &&& 1 <= m <= n <= 5
    &&& len == 1 + n * 33 + 2
    &&& forall|i: int| 0 <= i < n ==> #[trigger] script[1 + i * 33] == OP_DATA_32
}

/// What kind of script `script[..len]` is.
pub open spec fn script_type(script: Seq<u8>, len: int) -> ScriptType {
    if is_p2pk(script, len) {
        ScriptType::P2PK
    } else if is_p2sh(script, len) {
        ScriptType::P2SH
    } else if is_multisig(script, len) {
        ScriptType::Multisig
    } else {
        ScriptType::Unknown
    }
}

/// Tells what kind of script `script[..len]` is.
pub fn detect_script_type(script: &[u8], len: usize) -> (r: ScriptType)
    requires
        script_readable(script@, len as int),
    ensures
        r == script_type(script@, len as int),
{
    if len == 34 && script[0] == OP_DATA_32 && script[33] == OP_CHECKSIG {
        return ScriptType::P2PK;
    }
    if len == 35 && script[0] == OP_BLAKE2B && script[1] == OP_DATA_32 && script[34] == OP_EQUAL {
        return ScriptType::P2SH;
    }
    if len >= 36 && script[len - 1] == OP_CHECKMULTISIG {
        let n_byte = script[len - 2];
        let m_byte = script[0];
        if OP_1 <= m_byte && m_byte <= OP_5 && OP_1 <= n_byte && n_byte <= OP_5 {
            let m = (m_byte - OP_1 + 1) as usize;
            let n = (n_byte - OP_1 + 1) as usize;
            if m <= n && n <= MAX_MULTISIG_KEYS {
                let expected_len = 1 + n * 33 + 1 + 1;
                if len == expected_len {
                    let mut valid = true;
                    let mut i: usize = 0;
                    while i < n
                        invariant_except_break
                            valid,
                        invariant
                            i <= n <= 5,
                            len == 1 + n * 33 + 2,
                            len <= script.len(),
                            valid ==> forall|j: int|
                                0 <= j < i ==> #[trigger] script@[1 + j * 33] == OP_DATA_32,
                            !valid ==> i < n && script@[1 + i * 33] != OP_DATA_32,
                        ensures
                            valid ==> i == n,
                        decreases n - i,
                    {
                        if script[1 + i * 33] != OP_DATA_32 {
                            valid = false;
                            break;
                        }
                        i += 1;
                    }
                    if valid {
                        return ScriptType::Multisig;
                    }
                }
            }
        }
    }
    ScriptType::Unknown
}

/// Key `i` of a multisig script, and a blank one past the last.
pub open spec fn script_key(script: Seq<u8>, n: int, i: int) -> [u8; 32] {
    if i < n {
        bytes::array_of(script.subrange(2 + i * 33, 34 + i * 33))
    } else {
        bytes::zero_array()
    }
}

/// The parts of a multisig script; nothing for another script.
pub open spec fn multisig_info(script: Seq<u8>, len: int) -> Option<MultisigInfo> {
    if is_multisig(script, len) {
        let n = script[len - 2] - OP_1 + 1;
        Some(
            MultisigInfo {
                m: (script[0] - OP_1 + 1) as u8,
                n: n as u8,
                pubkeys: [
                    script_key(script, n, 0),
                    script_key(script, n, 1),
                    script_key(script, n, 2),
                    script_key(script, n, 3),
                    script_key(script, n, 4),
                ],
            },
        )
    } else {
        None
    }
}

/// Takes a multisig script apart. Nothing for another script.
pub fn parse_multisig_script(script: &[u8], len: usize) -> (r: Option<MultisigInfo>)
    requires
        script_readable(script@, len as int),
    ensures
        r == multisig_info(script@, len as int),
{
    let st = detect_script_type(script, len);
    if st != ScriptType::Multisig {
        return None;
    }
    let m = script[0] - OP_1 + 1;
    let n = script[len - 2] - OP_1 + 1;
    let mut info = MultisigInfo::new();
    info.m = m;
    info.n = n;
    let mut i: usize = 0;
    while i < n as usize
        invariant
            i <= n <= 5,
            len == 1 + n * 33 + 2,
            len <= script.len(),
            info.m == m,
            info.n == n,
            forall|j: int|
                0 <= j < i ==> #[trigger] info.pubkeys@[j] == script_key(script@, n as int, j),
            forall|j: int|
                i <= j < MAX_MULTISIG_KEYS ==> #[trigger] info.pubkeys@[j] == bytes::zero_array::<
                    32,
                >(),
        decreases n - i,
    {
        let start = 1 + i * 33 + 1;
        info.pubkeys[i] = bytes::to_array(
            vstd::slice::slice_subrange(script, start, start + 32),
        );
        i += 1;
    }
    proof {
        let want = multisig_info(script@, len as int).unwrap();
        assert forall|j: int| 0 <= j < 5 implies #[trigger] info.pubkeys@[j]
            == want.pubkeys@[j] by {
            assert(info.pubkeys@[j] == script_key(script@, n as int, j));
        }
        assert(info.pubkeys =~= want.pubkeys);
    }
    Some(info)
}

/// Which scripts pay to a single key, byte by byte.
pub proof fn law_single_key_script(s: Seq<u8>, len: int)
    ensures
        script_type(s, len) is P2PK <==> len == 34 && s[0] == 0x20 && s[33] == 0xAC,
{
}

/// Which scripts pay to a script hash, byte by byte.
pub proof fn law_script_hash_script(s: Seq<u8>, len: int)
    ensures
        script_type(s, len) is P2SH <==> len == 35 && s[0] == 0xAA && s[1] == 0x20 && s[34] == 0x87,
{
}

/// Which scripts are multisig, byte by byte, and what their parts are: the
/// threshold is in the first byte, the number of keys in the last but one, and
/// the keys stand between, each behind its own push.
pub proof fn law_multisig_script(s: Seq<u8>, len: int, m: int, n: int)
    requires
        0 <= len <= s.len(),
    ensures
        script_type(s, len) is Multisig <==> multisig_info(s, len) is Some,
        (multisig_info(s, len) matches Some(ms) && ms.m == m && ms.n == n) <==> {
            &&& 1 <= m <= n <= 5
            &&& len == 3 + 33 * n
            &&& s[0] == 0x50 + m
            &&& s[len - 2] == 0x50 + n
            &&& s[len - 1] == 0xAE
            &&& forall|i: int| 0 <= i < n ==> #[trigger] s[1 + i * 33] == 0x20
        },
        multisig_info(s, len) matches Some(ms) ==> forall|i: int|
            0 <= i < ms.n ==> (#[trigger] ms.pubkeys@[i])@ == s.subrange(2 + 33 * i, 34 + 33 * i),
        multisig_info(s, len) matches Some(ms) ==> forall|i: int, k: int|
            ms.n <= i < 5 && 0 <= k < 32 ==> #[trigger] ms.pubkeys@[i]@[k] == 0,
{
    if let Some(ms) = multisig_info(s, len) {
        assert forall|i: int| 0 <= i < ms.n implies (#[trigger] ms.pubkeys@[i])@ == s.subrange(
            2 + 33 * i,
            34 + 33 * i,
        ) by {
            let key = s.subrange(2 + 33 * i, 34 + 33 * i);
            bytes::lemma_array_with(bytes::zero_array::<32>(), key);
            assert(ms.pubkeys@[i] == script_key(s, ms.n as int, i));
            assert(ms.pubkeys@[i]@ =~= key);
        }
    }
}

} // verus!
