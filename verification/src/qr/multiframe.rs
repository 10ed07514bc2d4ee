//! Versioned transport of a payload over several QR frames, each bound to the
//! payload as a whole.
use crate::bytes;
use crate::crypto;
use vstd::prelude::*;

verus! {

pub const MAGIC: [u8; 2] = [0x4B, 0x51];

pub const VERSION: u8 = 2;

pub const DIGEST_LEN: usize = 16;

pub const SESSION_LEN: usize = 8;

pub const HEADER_LEN: usize = 33;

pub const MAX_FRAGMENT_LEN: usize = 96;

/// A frame is filled with zeros until its fragment takes this many bytes.
pub const MIN_FRAGMENT_ROOM: usize = 20;

#[derive(Clone, Copy, Debug, PartialEq, Eq, Structural)]
pub enum FrameError {
    InvalidPayload,
    InvalidFrame,
    OutputTooSmall,
}

/// One frame: what it says of the payload, and its fragment.
pub struct Frame<'a> {
    pub kind: u8,
    pub session: [u8; SESSION_LEN],
    pub payload_len: u16,
    pub digest: [u8; DIGEST_LEN],
    pub index: u8,
    pub total: u8,
    pub fragment: &'a [u8],
}

/// The kind of a payload: 1 for a transaction, 2 for a raw payload of 79
/// bytes that starts with `raw_tag`, 0 for anything else.
pub open spec fn kind_of(payload: Seq<u8>, raw_tag: u8) -> u8 {
    if payload.len() >= 4 && payload.take(4) == seq![0x4Bu8, 0x53, 0x50, 0x54] {
        1
    } else if payload.len() == 79 && payload[0] == raw_tag {
        2
    } else {
        0
    }
}

/// The digest of a payload: the first half of its SHA-256 hash.
pub open spec fn digest_of(payload: Seq<u8>) -> Seq<u8> {
    Seq::new(DIGEST_LEN as nat, |i: int| crypto::sha256(payload)[i])
}

/// The session of a payload: the eight bytes of the hash behind the digest.
pub open spec fn session_of(payload: Seq<u8>) -> Seq<u8> {
    Seq::new(SESSION_LEN as nat, |i: int| crypto::sha256(payload)[DIGEST_LEN + i])
}

/// The length of every fragment but the last.
pub open spec fn balanced(len: nat, total: u8) -> nat {
    if total == 0 {
        0
    } else {
        ((len + total - 1) / (total as int)) as nat
    }
}

/// Where the fragment with this index starts, the end of the payload at most.
pub open spec fn fragment_start(len: nat, index: int, total: u8) -> int {
    let at = index * balanced(len, total);
    if at < len {
        at
    } else {
        len as int
    }
}

/// The fragment with this index of a payload cut into `total`.
pub open spec fn fragment_of(payload: Seq<u8>, index: int, total: u8) -> Seq<u8> {
    payload.subrange(
        fragment_start(payload.len(), index, total),
        fragment_start(payload.len(), index + 1, total),
    )
}

/// The zeros behind a short fragment.
pub open spec fn padding(fragment_len: nat) -> Seq<u8> {
    if fragment_len < MIN_FRAGMENT_ROOM {
        bytes::zeros((MIN_FRAGMENT_ROOM - fragment_len) as nat)
    } else {
        Seq::empty()
    }
}

/// The header of a frame.
pub open spec fn header_bytes(payload: Seq<u8>, index: u8, total: u8, raw_tag: u8) -> Seq<u8> {
    seq![MAGIC[0], MAGIC[1], VERSION, kind_of(payload, raw_tag)] + session_of(payload) + seq![
        (payload.len() / 256) as u8,
        (payload.len() % 256) as u8,
    ] + digest_of(payload) + seq![index, total, fragment_of(payload, index as int, total).len() as u8]
}

/// A whole frame: header, fragment, padding.
pub open spec fn frame_bytes(payload: Seq<u8>, index: u8, total: u8, raw_tag: u8) -> Seq<u8> {
    let fragment = fragment_of(payload, index as int, total);
    header_bytes(payload, index, total, raw_tag) + fragment + padding(fragment.len())
}

/// Why a frame cannot be made, if it cannot.
pub open spec fn encode_error(payload: Seq<u8>, index: u8, total: u8, room: nat) -> Option<
    FrameError,
> {
    let fragment = fragment_of(payload, index as int, total);
    if total < 2 || index >= total {
        Some(FrameError::InvalidFrame)
    } else if payload.len() == 0 || balanced(payload.len(), total) > MAX_FRAGMENT_LEN {
        Some(FrameError::InvalidPayload)
    } else if fragment.len() == 0 {
        Some(FrameError::InvalidFrame)
    } else if room < HEADER_LEN + fragment.len() + padding(fragment.len()).len() {
        Some(FrameError::OutputTooSmall)
    } else {
        None
    }
}

/// `data` starts with a frame.
pub open spec fn holds_frame(data: Seq<u8>) -> bool {
    &&& data.len() >= HEADER_LEN
    &&& data[0] == MAGIC[0] && data[1] == MAGIC[1] && data[2] == VERSION
    &&& 256 * data[12] + data[13] != 0
    &&& data[31] >= 2
    &&& data[30] < data[31]
    &&& 0 < data[32] <= MAX_FRAGMENT_LEN
    &&& data.len() >= HEADER_LEN + data[32]
}

/// `f` is the frame that `data` starts with.
pub open spec fn is_frame_of(f: Frame, data: Seq<u8>) -> bool {
    &&& f.kind == data[3]
    &&& f.session@ == data.subrange(4, 12)
    &&& f.payload_len == 256 * data[12] + data[13]
    &&& f.digest@ == data.subrange(14, 30)
    &&& f.index == data[30]
    &&& f.total == data[31]
    &&& f.fragment@ == data.subrange(HEADER_LEN as int, HEADER_LEN + data[32])
}

/// The kind of a payload. `raw_tag` is the first byte of raw payloads.
pub fn payload_kind(payload: &[u8], raw_tag: u8) -> (r: u8)
    ensures
        r == kind_of(payload@, raw_tag),
{
    let magic: [u8; 4] = [0x4B, 0x53, 0x50, 0x54];
    assert(magic@ =~= seq![0x4Bu8, 0x53, 0x50, 0x54]);
    let transaction = payload.len() >= 4 && bytes::slice_eq(
        vstd::slice::slice_subrange(payload, 0, 4),
        magic.as_slice(),
    );
    if transaction {
        1
    } else if payload.len() == 79 && payload[0] == raw_tag {
        2
    } else {
        0
    }
}

/// What every frame of a payload says of it: kind, session and digest.
pub fn payload_metadata(payload: &[u8], raw_tag: u8) -> (r: Result<
    (u8, [u8; SESSION_LEN], [u8; DIGEST_LEN]),
    FrameError,
>)
    ensures
        match r {
            Ok((kind, session, digest)) => {
                &&& 0 < payload@.len() <= u16::MAX
                &&& kind == kind_of(payload@, raw_tag)
                &&& session@ == session_of(payload@)
                &&& digest@ == digest_of(payload@)
            },
            Err(e) => {
                &&& payload@.len() == 0 || payload@.len() > u16::MAX
                &&& e == FrameError::InvalidPayload
            },
        },
{
    if payload.len() == 0 || payload.len() > u16::MAX as usize {
        return Err(FrameError::InvalidPayload);
    }
    let hash = crypto::sha256_digest(payload);
    let session: [u8; SESSION_LEN] = bytes::to_array(
        vstd::slice::slice_subrange(hash.as_slice(), DIGEST_LEN, DIGEST_LEN + SESSION_LEN),
    );
    let digest: [u8; DIGEST_LEN] = bytes::to_array(
        vstd::slice::slice_subrange(hash.as_slice(), 0, DIGEST_LEN),
    );
    assert(session@ =~= session_of(payload@));
    assert(digest@ =~= digest_of(payload@));
    Ok((payload_kind(payload, raw_tag), session, digest))
}

/// Whether a payload put together from frames is what they speak of.
pub fn verify_payload(payload: &[u8], kind: u8, digest: &[u8; DIGEST_LEN], raw_tag: u8) -> (r: bool)
    ensures
        r == (kind_of(payload@, raw_tag) == kind && digest_of(payload@) == digest@),
{
    if payload_kind(payload, raw_tag) != kind {
        return false;
    }
    let hash = crypto::sha256_digest(payload);
    let head = vstd::slice::slice_subrange(hash.as_slice(), 0, DIGEST_LEN);
    assert(head@ =~= digest_of(payload@));
    bytes::slice_eq(head, digest.as_slice())
}

/// A quotient rounded up.
proof fn lemma_balanced(len: nat, total: u8)
    requires
        total > 0,
    ensures
        balanced(len, total) == len / (total as nat) + if len % (total as nat) == 0 {
            0nat
        } else {
            1
        },
        len <= balanced(len, total) * total,
        balanced(len, total) == 0 <==> len == 0,
        total >= 2 ==> len / (total as nat) <= len / 2,
{
    let t = total as int;
    let q = len as int / t;
    let r = len as int % t;
    vstd::arithmetic::div_mod::lemma_fundamental_div_mod(len as int, t);
    if r == 0 {
        vstd::arithmetic::div_mod::lemma_fundamental_div_mod_converse(len + t - 1, t, q, t - 1);
    } else {
        assert(t * q + t == t * (q + 1)) by (nonlinear_arith);
        vstd::arithmetic::div_mod::lemma_fundamental_div_mod_converse(len + t - 1, t, q + 1, r - 1);
    }
    assert(t * q <= (q * t)) by (nonlinear_arith);
    assert((q + 1) * t == t * q + t) by (nonlinear_arith);
    if t >= 2 {
        assert(2 * q <= len) by (nonlinear_arith)
            requires
                len == t * q + r,
                0 <= r,
                t >= 2,
                0 <= q,
        ;
    }
    assert(0 == t * q + r ==> q == 0) by (nonlinear_arith)
        requires
            0 <= r < t,
    ;
    assert(q == 0 ==> t * q == 0) by (nonlinear_arith);
}

/// Writes the header of a frame to the front of `output`.
fn write_header(
    payload_len: u16,
    kind: u8,
    session: &[u8; SESSION_LEN],
    digest: &[u8; DIGEST_LEN],
    place: [u8; 3],
    output: &mut [u8],
)
    requires
        old(output)@.len() >= HEADER_LEN,
    ensures
        final(output)@ == seq![MAGIC[0], MAGIC[1], VERSION, kind] + session@ + seq![
            (payload_len / 256) as u8,
            (payload_len % 256) as u8,
        ] + digest@ + place@ + old(output)@.skip(HEADER_LEN as int),
{
    let ghost before = output@;
    let head: [u8; 4] = [MAGIC[0], MAGIC[1], VERSION, kind];
    let ghost a = seq![MAGIC[0], MAGIC[1], VERSION, kind];
    assert(head@ =~= a);
    bytes::write_at(output, 0, head.as_slice());
    assert(output@ =~= a + before.skip(4));
    bytes::write_at(output, 4, session.as_slice());
    assert(output@ =~= a + session@ + before.skip(12));
    let len_bytes: [u8; 2] = [(payload_len / 256) as u8, (payload_len % 256) as u8];
    let ghost b = seq![(payload_len / 256) as u8, (payload_len % 256) as u8];
    assert(len_bytes@ =~= b);
    bytes::write_at(output, 12, len_bytes.as_slice());
    assert(output@ =~= a + session@ + b + before.skip(14));
    bytes::write_at(output, 14, digest.as_slice());
    assert(output@ =~= a + session@ + b + digest@ + before.skip(30));
    bytes::write_at(output, 30, place.as_slice());
    assert(output@ =~= a + session@ + b + digest@ + place@ + before.skip(33));
}

/// Writes a fragment and its padding behind the header.
fn write_fragment(fragment: &[u8], output: &mut [u8])
    requires
        fragment@.len() <= MAX_FRAGMENT_LEN,
        old(output)@.len() >= HEADER_LEN + fragment@.len() + padding(fragment@.len()).len(),
    ensures
        final(output)@ == old(output)@.take(HEADER_LEN as int) + fragment@ + padding(
            fragment@.len(),
        ) + old(output)@.skip(HEADER_LEN + fragment@.len() + padding(fragment@.len()).len()),
{
    let ghost before = output@;
    bytes::write_at(output, HEADER_LEN, fragment);
    let zero: [u8; MIN_FRAGMENT_ROOM] = [0u8; MIN_FRAGMENT_ROOM];
    let short: usize = MIN_FRAGMENT_ROOM.saturating_sub(fragment.len());
    let pad = vstd::slice::slice_subrange(zero.as_slice(), 0, short);
    assert(pad@ =~= padding(fragment@.len()));
    bytes::write_at(output, HEADER_LEN + fragment.len(), pad);
    assert(output@ =~= before.take(33) + fragment@ + pad@ + before.skip(
        33 + fragment@.len() + short,
    ));
}

/// Writes the frame with this index, of `total` that carry the payload, to the
/// front of `output`. Returns its length.
pub fn encode_frame(payload: &[u8], index: u8, total: u8, output: &mut [u8], raw_tag: u8) -> (r:
    Result<usize, FrameError>)
    ensures
        match encode_error(payload@, index, total, old(output)@.len()) {
            Some(e) => r == Err::<usize, FrameError>(e) && final(output)@ == old(output)@,
            None => {
                let frame = frame_bytes(payload@, index, total, raw_tag);
                &&& r matches Ok(n) && n == frame.len()
                &&& final(output)@ == frame + old(output)@.skip(frame.len() as int)
            },
        },
{
    if total < 2 || index >= total {
        return Err(FrameError::InvalidFrame);
    }
    proof {
        lemma_balanced(payload@.len(), total);
    }
    let each: usize = payload.len() / total as usize + if payload.len() % total as usize == 0 {
        0
    } else {
        1
    };
    if each == 0 || each > MAX_FRAGMENT_LEN {
        return Err(FrameError::InvalidPayload);
    }
    assert(0 <= index * each <= 255 * 96 && (index + 1) * each == index * each + each)
        by (nonlinear_arith)
        requires
            0 <= index <= 255,
            0 <= each <= 96,
    ;
    assert(each * total <= 96 * 255) by (nonlinear_arith)
        requires
            0 <= total <= 255,
            0 <= each <= 96,
    ;
    let offset: usize = index as usize * each;
    let left: usize = payload.len().saturating_sub(offset);
    let fragment_len: usize = if left < each {
        left
    } else {
        each
    };
    let ghost fragment = fragment_of(payload@, index as int, total);
    assert(fragment.len() == fragment_len);
    if fragment_len == 0 {
        return Err(FrameError::InvalidFrame);
    }
    let room: usize = if fragment_len < MIN_FRAGMENT_ROOM {
        MIN_FRAGMENT_ROOM
    } else {
        fragment_len
    };
    let encoded_len: usize = HEADER_LEN + room;
    if output.len() < encoded_len {
        return Err(FrameError::OutputTooSmall);
    }
    let (kind, session, digest) = payload_metadata(payload, raw_tag)?;
    let piece = vstd::slice::slice_subrange(payload, offset, offset + fragment_len);
    assert(piece@ =~= fragment);
    write_header(payload.len() as u16, kind, &session, &digest, [index, total, fragment_len as u8], output);
    assert(output@.take(33) =~= header_bytes(payload@, index, total, raw_tag));
    write_fragment(piece, output);
    Ok(encoded_len)
}

/// Reads the frame that `data` starts with.
pub fn decode_frame(data: &[u8]) -> (r: Result<Frame<'_>, FrameError>)
    ensures
        match r {
            Ok(f) => holds_frame(data@) && is_frame_of(f, data@),
            Err(e) => !holds_frame(data@) && e == FrameError::InvalidFrame,
        },
{
    if data.len() < HEADER_LEN || data[0] != MAGIC[0] || data[1] != MAGIC[1] || data[2] != VERSION {
        return Err(FrameError::InvalidFrame);
    }
    let payload_len: u16 = data[12] as u16 * 256 + data[13] as u16;
    let index = data[30];
    let total = data[31];
    let fragment_len = data[32] as usize;
    if payload_len == 0 || total < 2 || index >= total || fragment_len == 0 || fragment_len
        > MAX_FRAGMENT_LEN || data.len() < HEADER_LEN + fragment_len {
        return Err(FrameError::InvalidFrame);
    }
    let session: [u8; SESSION_LEN] = bytes::to_array(vstd::slice::slice_subrange(data, 4, 12));
    let digest: [u8; DIGEST_LEN] = bytes::to_array(vstd::slice::slice_subrange(data, 14, 30));
    Ok(
        Frame {
            kind: data[3],
            session,
            payload_len,
            digest,
            index,
            total,
            fragment: vstd::slice::slice_subrange(data, HEADER_LEN, HEADER_LEN + fragment_len),
        },
    )
}

/// The first `n` fragments of a payload, one after the other.
pub open spec fn joined(payload: Seq<u8>, n: nat, total: u8) -> Seq<u8>
    decreases n,
{
    if n == 0 {
        Seq::empty()
    } else {
        joined(payload, (n - 1) as nat, total) + fragment_of(payload, n - 1, total)
    }
}

/// A frame that was encoded decodes to what it was made of, whatever stands
/// behind it.
pub proof fn law_frame_round_trip(
    payload: Seq<u8>,
    index: u8,
    total: u8,
    room: nat,
    raw_tag: u8,
    behind: Seq<u8>,
    f: Frame,
)
    requires
        encode_error(payload, index, total, room) is None,
        is_frame_of(f, frame_bytes(payload, index, total, raw_tag) + behind),
    ensures
        holds_frame(frame_bytes(payload, index, total, raw_tag) + behind),
        f.kind == kind_of(payload, raw_tag),
        f.session@ == session_of(payload),
        f.payload_len == payload.len(),
        f.digest@ == digest_of(payload),
        f.index == index,
        f.total == total,
        f.fragment@ == fragment_of(payload, index as int, total),
{
    let fragment = fragment_of(payload, index as int, total);
    let each = balanced(payload.len(), total);
    let data = frame_bytes(payload, index, total, raw_tag) + behind;
    lemma_balanced(payload.len(), total);
    assert(each * total <= 96 * 255) by (nonlinear_arith)
        requires
            0 <= total <= 255,
            0 <= each <= 96,
    ;
    assert((index + 1) * each == index * each + each) by (nonlinear_arith);
    assert(0 <= index * each) by (nonlinear_arith)
        requires
            0 <= index,
            0 <= each,
    ;
    assert(fragment.len() <= 96);
    assert(data.take(33) =~= header_bytes(payload, index, total, raw_tag));
    assert(forall|i: int| 0 <= i < 33 ==> data[i] == #[trigger] data.take(33)[i]);
    assert(data[32] == fragment.len());
    assert(data.subrange(4, 12) =~= session_of(payload));
    assert(data.subrange(14, 30) =~= digest_of(payload));
    assert(data.subrange(33, 33 + fragment.len() as int) =~= fragment);
}

/// The first fragments together are a prefix of the payload.
proof fn lemma_joined(payload: Seq<u8>, n: nat, total: u8)
    requires
        total > 0,
    ensures
        joined(payload, n, total) == payload.take(fragment_start(payload.len(), n as int, total)),
    decreases n,
{
    let each = balanced(payload.len(), total);
    assert(n == 0 ==> n * each == 0) by (nonlinear_arith);
    if n > 0 {
        lemma_joined(payload, (n - 1) as nat, total);
        assert((n - 1) * each + each == n * each && 0 <= (n - 1) * each) by (nonlinear_arith)
            requires
                n >= 1,
                each >= 0,
        ;
        let a = fragment_start(payload.len(), n - 1, total);
        let b = fragment_start(payload.len(), n as int, total);
        assert(payload.take(a) + payload.subrange(a, b) =~= payload.take(b));
    } else {
        assert(payload.take(0) =~= Seq::<u8>::empty());
    }
}

/// The fragments of a payload, one after the other, are the payload; and what
/// they give when put together is accepted with the metadata of any frame.
pub proof fn law_fragments_rebuild_payload(payload: Seq<u8>, total: u8, raw_tag: u8)
    requires
        total > 0,
    ensures
        joined(payload, total as nat, total) == payload,
        kind_of(joined(payload, total as nat, total), raw_tag) == kind_of(payload, raw_tag),
        digest_of(joined(payload, total as nat, total)) == digest_of(payload),
{
    lemma_joined(payload, total as nat, total);
    lemma_balanced(payload.len(), total);
    let each = balanced(payload.len(), total);
    assert(total * each == each * total) by (nonlinear_arith);
    assert(payload.take(payload.len() as int) =~= payload);
}

/// A payload is a transaction exactly where it starts with "KSPT". Else it is
/// raw exactly where it has 79 bytes of which the first is the tag.
pub proof fn law_payload_kinds(payload: Seq<u8>, raw_tag: u8)
    ensures
        kind_of(payload, raw_tag) == 1 <==> payload.len() >= 4 && payload[0] == 0x4B && payload[1]
            == 0x53 && payload[2] == 0x50 && payload[3] == 0x54,
        kind_of(payload, raw_tag) == 2 <==> kind_of(payload, raw_tag) != 1 && payload.len() == 79
            && payload[0] == raw_tag,
        kind_of(payload, raw_tag) <= 2,
{
    let magic = seq![0x4Bu8, 0x53, 0x50, 0x54];
    if payload.len() >= 4 {
        let head = payload.take(4);
        if payload[0] == 0x4B && payload[1] == 0x53 && payload[2] == 0x50 && payload[3] == 0x54 {
            assert(head =~= magic);
        }
        if head == magic {
            assert(head[0] == magic[0] && head[1] == magic[1]);
            assert(head[2] == magic[2] && head[3] == magic[3]);
        }
    }
}

/// `each` bytes in a frame, and no fewer, are enough for `len` bytes in
/// `total` frames.
pub open spec fn shares(len: int, total: int, each: int) -> bool {
    &&& each >= 0
    &&& len <= each * total
    &&& len > (each - 1) * total
}

proof fn lemma_shares(len: nat, total: u8, each: int)
    requires
        total >= 1,
        shares(len as int, total as int, each),
    ensures
        balanced(len, total) == each,
{
    lemma_balanced(len, total);
    let t = total as int;
    let (q, r) = (len as int / t, len as int % t);
    vstd::arithmetic::div_mod::lemma_fundamental_div_mod(len as int, t);
    assert(each == q + if r == 0 {
        0int
    } else {
        1
    }) by (nonlinear_arith)
        requires
            t >= 1,
            len == t * q + r,
            0 <= r < t,
            len <= each * t,
            len > (each - 1) * t,
    ;
}

/// A frame can be made exactly where there are at least two frames, this is
/// one of them, the payload is not empty and takes at most 96 bytes in each,
/// something is left for this one, and the output has room for 33 bytes of
/// header and for the fragment, or for 20 bytes where that is shorter.
pub proof fn law_frame_can_be_made(payload: Seq<u8>, index: u8, total: u8, room: nat, each: int)
    requires
        total >= 1,
        shares(payload.len() as int, total as int, each),
    ensures
        encode_error(payload, index, total, room) is None <==> {
            let left = payload.len() - index * each;
            &&& total >= 2 && index < total
            &&& 0 < each <= 96
            &&& left > 0
            &&& room >= 53
            &&& room >= 33 + if left < each {
                left
            } else {
                each
            }
        },
{
    lemma_shares(payload.len(), total, each);
    assert((index + 1) * each == index * each + each) by (nonlinear_arith);
    assert(0 <= index * each) by (nonlinear_arith)
        requires
            0 <= index,
            0 <= each,
    ;
    if payload.len() == 0 {
        assert(each == 0) by (nonlinear_arith)
            requires
                0 > (each - 1) * total,
                each >= 0,
                total >= 1,
        ;
    } else {
        assert(each > 0) by (nonlinear_arith)
            requires
                0 < payload.len() <= each * total,
                each >= 0,
        ;
    }
}

/// Where every part of a frame stands: the magic, the version 2, the kind, the
/// session (bytes 16 to 24 of the hash of the payload), the length of the
/// payload with its high byte first, the digest (the first 16 bytes of the
/// hash), the index, the number of frames, the length of the fragment, the
/// fragment, and zeros where it is shorter than 20 bytes. The fragments have
/// `each` bytes, but for the last.
pub proof fn law_frame_layout(
    payload: Seq<u8>,
    index: u8,
    total: u8,
    room: nat,
    raw_tag: u8,
    each: int,
)
    requires
        encode_error(payload, index, total, room) is None,
        shares(payload.len() as int, total as int, each),
    ensures
        ({
            let b = frame_bytes(payload, index, total, raw_tag);
            let left = payload.len() - index * each;
            let len = if left < each {
                left
            } else {
                each
            };
            &&& b.len() == 33 + if len < 20 {
                20
            } else {
                len
            }
            &&& b[0] == 0x4B && b[1] == 0x51 && b[2] == 2
            &&& b[3] == kind_of(payload, raw_tag)
            &&& forall|k: int|
                #![trigger b[4 + k]]
                0 <= k < 8 ==> b[4 + k] == crypto::sha256(payload)[16 + k]
            &&& 256 * b[12] + b[13] == payload.len()
            &&& forall|k: int|
                #![trigger b[14 + k]]
                0 <= k < 16 ==> b[14 + k] == crypto::sha256(payload)[k]
            &&& b[30] == index && b[31] == total && b[32] == len
            &&& b.subrange(33, 33 + len) == payload.subrange(index * each, index * each + len)
            &&& forall|k: int| 33 + len <= k < b.len() ==> #[trigger] b[k] == 0
        }),
{
    lemma_shares(payload.len(), total, each);
    let b = frame_bytes(payload, index, total, raw_tag);
    let fragment = fragment_of(payload, index as int, total);
    assert((index + 1) * each == index * each + each) by (nonlinear_arith);
    assert(0 <= index * each) by (nonlinear_arith)
        requires
            0 <= index,
            0 <= each,
    ;
    assert(payload.len() <= 96 * 255) by (nonlinear_arith)
        requires
            payload.len() <= each * total,
            0 <= each <= 96,
            0 <= total <= 255,
    ;
    let left = payload.len() - index * each;
    let len = if left < each {
        left
    } else {
        each
    };
    assert(fragment.len() == len);
    let h = header_bytes(payload, index, total, raw_tag);
    assert(h.len() == 33);
    assert(forall|k: int| 0 <= k < 33 ==> b[k] == h[k]);
    assert forall|k: int|
        #![trigger b[4 + k]]
        0 <= k < 8 implies b[4 + k] == crypto::sha256(payload)[16 + k] by {
        assert(h[4 + k] == session_of(payload)[k]);
    }
    assert forall|k: int|
        #![trigger b[14 + k]]
        0 <= k < 16 implies b[14 + k] == crypto::sha256(payload)[k] by {
        assert(h[14 + k] == digest_of(payload)[k]);
    }
    assert(b.subrange(33, 33 + len) =~= fragment);
    assert forall|k: int| 33 + len <= k < b.len() implies #[trigger] b[k] == 0 by {
        assert(b[k] == padding(fragment.len())[k - 33 - len]);
    }
}

/// A frame is read exactly where 33 bytes are there, with the magic and the
/// version 2, a payload length other than zero, at least two frames of which
/// this is one, and a fragment of 1 to 96 bytes that is there in full.
pub proof fn law_frame_is_read(data: Seq<u8>, f: Frame)
    ensures
        holds_frame(data) <==> {
            &&& data.len() >= 33
            &&& data[0] == 0x4B && data[1] == 0x51 && data[2] == 2
            &&& data[12] != 0 || data[13] != 0
            &&& data[31] >= 2 && data[30] < data[31]
            &&& 1 <= data[32] <= 96
            &&& data.len() >= 33 + data[32]
        },
        is_frame_of(f, data) <==> {
            &&& f.kind == data[3]
            &&& f.session@ == data.subrange(4, 12)
            &&& f.payload_len == 0x100 * data[12] + data[13]
            &&& f.digest@ == data.subrange(14, 30)
            &&& f.index == data[30] && f.total == data[31]
            &&& f.fragment@ == data.subrange(33, 33 + data[32])
        },
{
}

} // verus!
