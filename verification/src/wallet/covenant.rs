//! The keys that a covenant script may ask a signature of.
use crate::bytes;
use crate::wallet::script::{OP_CHECKSIG, OP_DATA_32};
use vstd::prelude::*;

verus! {

/// Like `OP_CHECKSIG`, and fails the script at once.
pub const OP_CHECKSIGVERIFY: u8 = 0xAD;

/// Pushes of up to this many bytes give their length in the opcode itself.
pub const OP_DATA_75: u8 = 0x4B;

/// Pushes with a length of one, two and four bytes behind the opcode.
pub const OP_PUSHDATA1: u8 = 0x4C;

pub const OP_PUSHDATA2: u8 = 0x4D;

pub const OP_PUSHDATA4: u8 = 0x4E;

/// Most keys taken from one script.
pub const MAX_CANDIDATES: usize = 8;

/// A signature is checked at `p`.
pub open spec fn checks_signature(rs: Seq<u8>, p: int) -> bool {
    p < rs.len() && (rs[p] == OP_CHECKSIG || rs[p] == OP_CHECKSIGVERIFY)
}

/// At `off` a key is pushed, and a signature is checked within the next two
/// opcodes.
pub open spec fn is_candidate(rs: Seq<u8>, off: int) -> bool {
    &&& rs[off] == OP_DATA_32
    &&& off + 33 <= rs.len()
    &&& checks_signature(rs, off + 33) || checks_signature(rs, off + 34)
}

/// How many bytes the opcode at `off` takes, its data with it. A push whose
/// length is cut off counts as one byte.
pub open spec fn op_len(rs: Seq<u8>, off: int) -> int {
    let op = rs[off];
    if 1 <= op <= OP_DATA_75 {
        1 + op
    } else if op == OP_PUSHDATA1 && off + 1 < rs.len() {
        2 + rs[off + 1]
    } else if op == OP_PUSHDATA2 && off + 2 < rs.len() {
        3int + bytes::le_nat(rs.subrange(off + 1, off + 3))
    } else if op == OP_PUSHDATA4 && off + 4 < rs.len() {
        5int + bytes::le_nat(rs.subrange(off + 1, off + 5))
    } else {
        1
    }
}

/// The candidate keys from `off` on, at most `room` of them, in the order of
/// the script. The walk goes from opcode to opcode, so pushed data is never
/// taken for one.
pub open spec fn candidates_from(rs: Seq<u8>, off: int, room: nat) -> Seq<[u8; 32]>
    decreases if off < rs.len() { rs.len() - off } else { 0 },
{
    if off >= rs.len() || room == 0 {
        Seq::empty()
    } else if is_candidate(rs, off) {
        seq![bytes::array_of::<32>(rs.subrange(off + 1, off + 33))] + candidates_from(
            rs,
            off + op_len(rs, off),
            (room - 1) as nat,
        )
    } else {
        candidates_from(rs, off + op_len(rs, off), room)
    }
}

/// The candidate keys of a script.
pub open spec fn candidates(rs: Seq<u8>) -> Seq<[u8; 32]> {
    candidates_from(rs, 0, MAX_CANDIDATES as nat)
}

/// Where the opcode at `off` ends, the end of the script at most.
fn op_end(rs: &[u8], off: usize) -> (r: usize)
    requires
        off < rs@.len(),
    ensures
        off < r <= rs@.len(),
        r == if off + op_len(rs@, off as int) < rs@.len() {
            off + op_len(rs@, off as int)
        } else {
            rs@.len() as int
        },
{
    let len = rs.len();
    let op = rs[off];
    let left: u64 = (len - off) as u64;
    let step: u64 = if 1 <= op && op <= OP_DATA_75 {
        1 + op as u64
    } else if op == OP_PUSHDATA1 && 1 < left {
        2 + rs[off + 1] as u64
    } else if op == OP_PUSHDATA2 && 2 < left {
        proof {
            bytes::lemma_le2(rs@.subrange(off + 1, off + 3));
        }
        3 + rs[off + 1] as u64 + 0x100 * rs[off + 2] as u64
    } else if op == OP_PUSHDATA4 && 4 < left {
        proof {
            bytes::lemma_le4(rs@.subrange(off + 1, off + 5));
        }
        5 + rs[off + 1] as u64 + 0x100 * rs[off + 2] as u64 + 0x1_0000 * rs[off + 3] as u64
            + 0x100_0000 * rs[off + 4] as u64
    } else {
        1
    };
    if step < left {
        off + step as usize
    } else {
        len
    }
}

fn is_checksig(rs: &[u8], p: usize) -> (r: bool)
    ensures
        r == checks_signature(rs@, p as int),
{
    p < rs.len() && (rs[p] == OP_CHECKSIG || rs[p] == OP_CHECKSIGVERIFY)
}

/// The keys of a covenant script that may be asked for a signature.
pub fn candidate_keys(rs: &[u8]) -> (r: Vec<[u8; 32]>)
    ensures
        r@ == candidates(rs@),
        r@.len() <= MAX_CANDIDATES,
{
    let mut found: Vec<[u8; 32]> = Vec::new();
    let mut off: usize = 0;
    let len = rs.len();
    assert(Seq::<[u8; 32]>::empty() + candidates(rs@) =~= candidates(rs@));
    while off < len && found.len() < MAX_CANDIDATES
        invariant
            off <= len == rs@.len(),
            found.len() <= MAX_CANDIDATES,
            found@ + candidates_from(rs@, off as int, (MAX_CANDIDATES - found.len()) as nat)
                == candidates(rs@),
        decreases len - off,
    {
        let ghost before = found@;
        let ghost step = op_len(rs@, off as int);
        if rs[off] == OP_DATA_32 && len - off >= 33 && (is_checksig(rs, off + 33) || (len - off > 33
            && is_checksig(rs, off + 34))) {
            let key: [u8; 32] = bytes::to_array(
                vstd::slice::slice_subrange(rs, off + 1, off + 33),
            );
            found.push(key);
            assert(before + (seq![key] + candidates_from(
                rs@,
                off + step,
                (MAX_CANDIDATES - found.len()) as nat,
            )) =~= found@ + candidates_from(
                rs@,
                off + step,
                (MAX_CANDIDATES - found.len()) as nat,
            ));
        }
        off = op_end(rs, off);
    }
    assert(found@ + Seq::<[u8; 32]>::empty() =~= found@);
    found
}

/// What stands before a position does not matter to the walk from there on.
proof fn lemma_candidates_shift(a: Seq<u8>, rs: Seq<u8>, off: int, room: nat)
    requires
        0 <= off,
    ensures
        candidates_from(a + rs, a.len() + off, room) == candidates_from(rs, off, room),
    decreases if off < rs.len() { rs.len() - off } else { 0 },
{
    if off < rs.len() && room > 0 {
        let all = a + rs;
        let at = a.len() + off;
        assert(forall|j: int| 0 <= j < rs.len() ==> all[a.len() + j] == #[trigger] rs[j]);
        assert(all[at] == rs[off]);
        if off + 33 <= rs.len() {
            assert(all.subrange(at + 1, at + 33) =~= rs.subrange(off + 1, off + 33));
        }
        assert(checks_signature(all, at + 33) == checks_signature(rs, off + 33)) by {
            if off + 33 < rs.len() {
                assert(all[at + 33] == rs[off + 33]);
            }
        }
        assert(checks_signature(all, at + 34) == checks_signature(rs, off + 34)) by {
            if off + 34 < rs.len() {
                assert(all[at + 34] == rs[off + 34]);
            }
        }
        if off + 1 < rs.len() {
            assert(all[at + 1] == rs[off + 1]);
        }
        if off + 2 < rs.len() {
            assert(all.subrange(at + 1, at + 3) =~= rs.subrange(off + 1, off + 3));
        }
        if off + 4 < rs.len() {
            assert(all.subrange(at + 1, at + 5) =~= rs.subrange(off + 1, off + 5));
        }
        let step = op_len(rs, off);
        assert(op_len(all, at) == step);
        assert(is_candidate(all, at) == is_candidate(rs, off));
        assert(step >= 1);
        lemma_candidates_shift(a, rs, off + step, room);
        lemma_candidates_shift(a, rs, off + step, (room - 1) as nat);
    }
}

/// Data pushed at the front of a script, whatever it holds, does not change
/// which keys are found behind it. A push of 32 bytes may itself be a key and
/// is left out.
pub proof fn law_leading_push_is_skipped(data: Seq<u8>, script: Seq<u8>)
    requires
        1 <= data.len() <= OP_DATA_75,
        data.len() != 32,
    ensures
        candidates(seq![data.len() as u8] + data + script) == candidates(script),
{
    let head = seq![data.len() as u8] + data;
    assert((head + script)[0] == data.len());
    lemma_candidates_shift(head, script, 0, MAX_CANDIDATES as nat);
}

/// The owner of a treasury script, which starts with the push of a key and
/// `OP_CHECKSIGVERIFY`, is the first candidate.
pub proof fn law_treasury_owner_is_first(rs: Seq<u8>)
    requires
        rs.len() >= 34,
        rs[0] == OP_DATA_32,
        rs[33] == OP_CHECKSIGVERIFY,
    ensures
        candidates(rs).len() > 0,
        candidates(rs)[0] == bytes::array_of::<32>(rs.subrange(1, 33)),
{
    assert(is_candidate(rs, 0));
}

/// Less room finds the first of what more room finds.
pub proof fn lemma_room(rs: Seq<u8>, off: int, room: nat, less: nat)
    requires
        less <= room,
    ensures
        candidates_from(rs, off, room).len() <= room,
        candidates_from(rs, off, less) == if candidates_from(rs, off, room).len() <= less {
            candidates_from(rs, off, room)
        } else {
            candidates_from(rs, off, room).take(less as int)
        },
    decreases if off < rs.len() { rs.len() - off } else { 0 },
{
    let all = candidates_from(rs, off, room);
    if off < rs.len() && room > 0 {
        let next = off + op_len(rs, off);
        assert(op_len(rs, off) >= 1);
        if is_candidate(rs, off) {
            if less > 0 {
                lemma_room(rs, next, (room - 1) as nat, (less - 1) as nat);
                let rest = candidates_from(rs, next, (room - 1) as nat);
                let key = bytes::array_of::<32>(rs.subrange(off + 1, off + 33));
                assert(all == seq![key] + rest);
                if all.len() > less {
                    assert(all.take(less as int) =~= seq![key] + rest.take(less - 1));
                }
            } else {
                lemma_room(rs, next, (room - 1) as nat, 0);
                assert(all.take(0) =~= Seq::empty());
            }
        } else {
            lemma_room(rs, next, room, less);
        }
        if less == 0 {
            assert(all.len() > 0 ==> all.take(0) =~= Seq::<[u8; 32]>::empty());
        }
    }
}

/// An empty script has no keys.
pub proof fn law_empty_script_has_no_keys()
    ensures
        candidates(Seq::empty()) == Seq::<[u8; 32]>::empty(),
{
}

/// An opcode that pushes nothing does not change which keys are found behind
/// it.
pub proof fn law_plain_opcode_is_skipped(op: u8, script: Seq<u8>)
    requires
        op == 0 || op > 0x4E,
    ensures
        candidates(seq![op] + script) == candidates(script),
{
    assert((seq![op] + script)[0] == op);
    lemma_candidates_shift(seq![op], script, 0, MAX_CANDIDATES as nat);
}

/// Data pushed with a length of its own, of one, two or four bytes, does not
/// change which keys are found behind it, whatever it holds.
pub proof fn law_long_push_is_skipped(data: Seq<u8>, script: Seq<u8>)
    ensures
        data.len() < 0x100 ==> candidates(
            seq![0x4Cu8, data.len() as u8] + data + script,
        ) == candidates(script),
        data.len() < 0x1_0000 ==> candidates(
            seq![0x4Du8] + bytes::le_bytes(data.len(), 2) + data + script,
        ) == candidates(script),
        data.len() < 0x1_0000_0000 ==> candidates(
            seq![0x4Eu8] + bytes::le_bytes(data.len(), 4) + data + script,
        ) == candidates(script),
{
    reveal_with_fuel(vstd::arithmetic::power::pow, 5);
    if data.len() < 0x100 {
        let head = seq![0x4Cu8, data.len() as u8] + data;
        assert((head + script)[0] == 0x4C);
        assert((head + script)[1] == data.len());
        lemma_candidates_shift(head, script, 0, MAX_CANDIDATES as nat);
    }
    if data.len() < 0x1_0000 {
        let len = bytes::le_bytes(data.len(), 2);
        bytes::lemma_le_bytes_len(data.len(), 2);
        bytes::lemma_le_round_trip(data.len(), 2);
        let head = seq![0x4Du8] + len + data;
        assert((head + script)[0] == 0x4D);
        assert((head + script).subrange(1, 3) =~= len);
        lemma_candidates_shift(head, script, 0, MAX_CANDIDATES as nat);
    }
    if data.len() < 0x1_0000_0000 {
        let len = bytes::le_bytes(data.len(), 4);
        bytes::lemma_le_bytes_len(data.len(), 4);
        bytes::lemma_le_round_trip(data.len(), 4);
        let head = seq![0x4Eu8] + len + data;
        assert((head + script)[0] == 0x4E);
        assert((head + script).subrange(1, 5) =~= len);
        lemma_candidates_shift(head, script, 0, MAX_CANDIDATES as nat);
    }
}

/// A push of 32 bytes is a key where a signature is checked by the first or
/// the second byte behind it; it is then found in front of those found
/// behind it, eight in all at most. Elsewhere it is skipped like any other.
pub proof fn law_key_push_is_found(key: [u8; 32], script: Seq<u8>)
    ensures
        ({
            let checked = script.len() > 0 && (script[0] == 0xAC || script[0] == 0xAD)
                || script.len() > 1 && (script[1] == 0xAC || script[1] == 0xAD);
            let all = seq![key] + candidates(script);
            candidates(seq![0x20u8] + key@ + script) == if !checked {
                candidates(script)
            } else if all.len() <= 8 {
                all
            } else {
                all.take(8)
            }
        }),
{
    let head = seq![0x20u8] + key@;
    let rs = head + script;
    assert(rs[0] == 0x20);
    if script.len() > 0 {
        assert(rs[33] == script[0]);
    }
    if script.len() > 1 {
        assert(rs[34] == script[1]);
    }
    lemma_candidates_shift(head, script, 0, MAX_CANDIDATES as nat);
    lemma_candidates_shift(head, script, 0, (MAX_CANDIDATES - 1) as nat);
    assert(rs.subrange(1, 33) =~= key@);
    bytes::lemma_array_with(bytes::zero_array::<32>(), key@);
    assert(bytes::array_of::<32>(key@) =~= key);
    lemma_room(script, 0, 8, 7);
    let found = candidates(script);
    let all = seq![key] + found;
    assert(found.len() == 8 ==> all.take(8) =~= seq![key] + found.take(7));
}

} // verus!
