//! Byte-level vocabulary: little-endian numbers, fixed arrays filled from
//! sequences, and the copy and compare loops that the parsers use.
use vstd::prelude::*;

verus! {

/// The number whose little-endian digits in base 256 are `s`.
pub open spec fn le_nat(s: Seq<u8>) -> nat
    decreases s.len(),
{
    if s.len() == 0 {
        0
    } else {
        s[0] as nat + 256 * le_nat(s.skip(1))
    }
}

/// The `n` lowest base-256 digits of `v`, least significant first.
pub open spec fn le_bytes(v: nat, n: nat) -> Seq<u8>
    decreases n,
{
    if n == 0 {
        Seq::empty()
    } else {
        seq![(v % 256) as u8] + le_bytes(v / 256, (n - 1) as nat)
    }
}

/// The number whose big-endian digits in base 256 are `s`.
pub open spec fn be_nat(s: Seq<u8>) -> nat
    decreases s.len(),
{
    if s.len() == 0 {
        0
    } else {
        256 * be_nat(s.drop_last()) + s.last() as nat
    }
}

/// `n` zero bytes.
pub open spec fn zeros(n: nat) -> Seq<u8> {
    Seq::new(n, |i: int| 0u8)
}

/// The array of `N` zero bytes.
pub open spec fn zero_array<const N: usize>() -> [u8; N] {
    [0u8; N]
}

/// `a` with the elements from `off` on replaced by `b`.
pub open spec fn array_splice<const N: usize>(a: [u8; N], off: int, b: Seq<u8>) -> [u8; N]
    decreases b.len(),
{
    if b.len() == 0 {
        a
    } else {
        vstd::array::spec_array_update(array_splice(a, off, b.drop_last()), off + b.len() - 1, b.last())
    }
}

/// `a` with its first `b.len()` elements replaced by `b`.
pub open spec fn array_with<const N: usize>(a: [u8; N], b: Seq<u8>) -> [u8; N] {
    array_splice(a, 0, b)
}

/// The array that holds `b`, followed by zeros.
pub open spec fn array_of<const N: usize>(b: Seq<u8>) -> [u8; N] {
    array_with(zero_array::<N>(), b)
}

/// `array_splice` overlays a window and leaves the rest alone.
pub proof fn lemma_array_splice<const N: usize>(a: [u8; N], off: int, b: Seq<u8>)
    requires
        0 <= off,
        off + b.len() <= N,
    ensures
        array_splice(a, off, b)@ == a@.take(off) + b + a@.skip(off + b.len()),
    decreases b.len(),
{
    if b.len() == 0 {
        assert(a@.take(off) + b + a@.skip(off) =~= a@);
    } else {
        lemma_array_splice(a, off, b.drop_last());
        assert(array_splice(a, off, b)@ =~= a@.take(off) + b + a@.skip(off + b.len()));
    }
}

/// `array_with` overlays a prefix and leaves the rest alone.
pub proof fn lemma_array_with<const N: usize>(a: [u8; N], b: Seq<u8>)
    requires
        b.len() <= N,
    ensures
        array_with(a, b)@ == b + a@.skip(b.len() as int),
{
    lemma_array_splice(a, 0, b);
    assert(a@.take(0) + b =~= b);
}

/// Of two updates of one element the second counts.
pub broadcast proof fn lemma_update_twice<T, const N: usize>(a: [T; N], i: int, x: T, y: T)
    requires
        0 <= i < N,
    ensures
        #[trigger] vstd::array::spec_array_update(vstd::array::spec_array_update(a, i, x), i, y)
            == vstd::array::spec_array_update(a, i, y),
{
    assert(vstd::array::spec_array_update(vstd::array::spec_array_update(a, i, x), i, y)
        =~= vstd::array::spec_array_update(a, i, y));
}

/// `le_bytes` has as many digits as asked for.
pub proof fn lemma_le_bytes_len(v: nat, n: nat)
    ensures
        le_bytes(v, n).len() == n,
    decreases n,
{
    if n > 0 {
        lemma_le_bytes_len(v / 256, (n - 1) as nat);
    }
}

/// Little-endian digits read back as the number they were made from.
pub proof fn lemma_le_round_trip(v: nat, n: nat)
    requires
        v < vstd::arithmetic::power::pow(256, n),
    ensures
        le_nat(le_bytes(v, n)) == v,
    decreases n,
{
    vstd::arithmetic::power::lemma_pow0(256);
    if n > 0 {
        let m = (n - 1) as nat;
        assert(vstd::arithmetic::power::pow(256, n) == 256 * vstd::arithmetic::power::pow(256, m))
            by {
            reveal(vstd::arithmetic::power::pow);
        }
        assert(v / 256 < vstd::arithmetic::power::pow(256, m)) by (nonlinear_arith)
            requires
                v < 256 * vstd::arithmetic::power::pow(256, m),
        ;
        lemma_le_round_trip(v / 256, m);
        assert(le_bytes(v, n).skip(1) =~= le_bytes(v / 256, m));
    }
}

/// The value of two digits.
pub proof fn lemma_le2(s: Seq<u8>)
    requires
        s.len() == 2,
    ensures
        le_nat(s) == s[0] + 256 * s[1],
{
    reveal_with_fuel(le_nat, 3);
}

/// The value of four digits.
pub proof fn lemma_le4(s: Seq<u8>)
    requires
        s.len() == 4,
    ensures
        le_nat(s) == s[0] + 0x100 * s[1] + 0x1_0000 * s[2] + 0x100_0000 * s[3],
{
    reveal_with_fuel(le_nat, 5);
}

/// The value of eight digits, from its two halves.
pub proof fn lemma_le8(s: Seq<u8>)
    requires
        s.len() == 8,
    ensures
        le_nat(s) == le_nat(s.take(4)) + 0x1_0000_0000 * le_nat(s.skip(4)),
        le_nat(s.take(4)) < 0x1_0000_0000,
        le_nat(s.skip(4)) < 0x1_0000_0000,
{
    lemma_le4(s.take(4));
    lemma_le4(s.skip(4));
    assert(s.skip(1).skip(1).skip(1).skip(1) =~= s.skip(4));
    reveal_with_fuel(le_nat, 5);
}

/// Appending digits keeps the order of two numbers.
proof fn lemma_be_less_extend(a: Seq<u8>, b: Seq<u8>, k: int)
    requires
        a.len() == b.len(),
        0 <= k <= a.len(),
        be_nat(a.take(k)) < be_nat(b.take(k)),
    ensures
        be_nat(a) < be_nat(b),
    decreases a.len() - k,
{
    if k == a.len() {
        assert(a.take(k) =~= a);
        assert(b.take(k) =~= b);
    } else {
        assert(a.take(k + 1).drop_last() =~= a.take(k));
        assert(b.take(k + 1).drop_last() =~= b.take(k));
        lemma_be_less_extend(a, b, k + 1);
    }
}

/// Big-endian numbers of one length are ordered by their first difference.
pub proof fn lemma_be_less(a: Seq<u8>, b: Seq<u8>, k: int)
    requires
        a.len() == b.len(),
        0 <= k < a.len(),
        a.take(k) == b.take(k),
        a[k] < b[k],
    ensures
        be_nat(a) < be_nat(b),
{
    assert(a.take(k + 1).drop_last() =~= a.take(k));
    assert(b.take(k + 1).drop_last() =~= b.take(k));
    lemma_be_less_extend(a, b, k + 1);
}

/// Big-endian numbers of one length are equal only if their digits are.
pub proof fn lemma_be_injective(a: Seq<u8>, b: Seq<u8>)
    requires
        a.len() == b.len(),
        be_nat(a) == be_nat(b),
    ensures
        a == b,
    decreases a.len(),
{
    if a.len() > 0 {
        lemma_be_injective(a.drop_last(), b.drop_last());
        assert(a =~= a.drop_last().push(a.last()));
        assert(b =~= b.drop_last().push(b.last()));
    } else {
        assert(a =~= b);
    }
}

/// Overwrites `dst` with `src` from position `off` on.
pub fn copy_at<const N: usize>(dst: &mut [u8; N], off: usize, src: &[u8])
    requires
        off + src.len() <= N,
    ensures
        *final(dst) == array_splice(*old(dst), off as int, src@),
        final(dst)@ == old(dst)@.take(off as int) + src@ + old(dst)@.skip(off + src@.len()),
{
    let mut i: usize = 0;
    assert(dst@ =~= old(dst)@.take(off as int) + src@.take(0) + old(dst)@.skip(off as int));
    while i < src.len()
        invariant
            i <= src.len(),
            off + src.len() <= N,
            dst@ == old(dst)@.take(off as int) + src@.take(i as int) + old(dst)@.skip(off + i),
        decreases src.len() - i,
    {
        dst[off + i] = src[i];
        i += 1;
        assert(dst@ =~= old(dst)@.take(off as int) + src@.take(i as int) + old(dst)@.skip(
            off + i,
        ));
    }
    proof {
        lemma_array_splice(*old(dst), off as int, src@);
        assert(src@.take(i as int) =~= src@);
        assert(*dst =~= array_splice(*old(dst), off as int, src@));
    }
}

/// Overwrites a slice with `src` from position `off` on.
pub fn write_at(dst: &mut [u8], off: usize, src: &[u8])
    requires
        off + src.len() <= old(dst).len(),
    ensures
        final(dst)@ == old(dst)@.take(off as int) + src@ + old(dst)@.skip(off + src@.len()),
{
    let mut i: usize = 0;
    assert(dst.len() <= usize::MAX);
    assert(dst@ =~= old(dst)@.take(off as int) + src@.take(0) + old(dst)@.skip(off as int));
    while i < src.len()
        invariant
            i <= src.len(),
            off + src.len() <= dst.len() == old(dst).len() <= usize::MAX,
            dst@ == old(dst)@.take(off as int) + src@.take(i as int) + old(dst)@.skip(off + i),
        decreases src.len() - i,
    {
        dst[off + i] = src[i];
        i += 1;
        assert(dst@ =~= old(dst)@.take(off as int) + src@.take(i as int) + old(dst)@.skip(
            off + i,
        ));
    }
    assert(src@.take(i as int) =~= src@);
}

/// Overwrites the front of `dst` with `src`.
pub fn copy_prefix<const N: usize>(dst: &mut [u8; N], src: &[u8])
    requires
        src.len() <= N,
    ensures
        *final(dst) == array_with(*old(dst), src@),
        final(dst)@ == src@ + old(dst)@.skip(src@.len() as int),
{
    copy_at(dst, 0, src);
    assert(old(dst)@.take(0) + src@ =~= src@);
}

/// A fixed array holding exactly the bytes of `src`.
pub fn to_array<const N: usize>(src: &[u8]) -> (r: [u8; N])
    requires
        src.len() == N,
    ensures
        r@ == src@,
        r == array_of::<N>(src@),
{
    let mut r: [u8; N] = [0u8; N];
    copy_prefix(&mut r, src);
    assert(r@ =~= src@);
    r
}

/// Overwrites an array with zeros.
pub fn wipe<const N: usize>(a: &mut [u8; N])
    ensures
        *final(a) == zero_array::<N>(),
{
    let mut i: usize = 0;
    while i < N
        invariant
            i <= N,
            forall|j: int| 0 <= j < i ==> #[trigger] a@[j] == 0,
        decreases N - i,
    {
        a[i] = 0;
        i += 1;
    }
    assert(*a =~= zero_array::<N>());
}

/// Whether two slices hold the same bytes.
pub fn slice_eq(a: &[u8], b: &[u8]) -> (r: bool)
    ensures
        r == (a@ == b@),
{
    if a.len() != b.len() {
        return false;
    }
    let mut i: usize = 0;
    while i < a.len()
        invariant
            i <= a.len() == b.len(),
            forall|j: int| 0 <= j < i ==> a@[j] == b@[j],
        decreases a.len() - i,
    {
        if a[i] != b[i] {
            return false;
        }
        i += 1;
    }
    assert(a@ =~= b@);
    true
}

/// Whether the first of two big-endian numbers is the smaller.
pub fn be_less<const N: usize>(a: &[u8; N], b: &[u8; N]) -> (r: bool)
    ensures
        r == (be_nat(a@) < be_nat(b@)),
{
    let mut i: usize = 0;
    while i < N
        invariant
            i <= N,
            a@.take(i as int) == b@.take(i as int),
        decreases N - i,
    {
        if a[i] != b[i] {
            proof {
                if a[i as int] < b[i as int] {
                    lemma_be_less(a@, b@, i as int);
                } else {
                    lemma_be_less(b@, a@, i as int);
                }
            }
            return a[i] < b[i];
        }
        assert(a@.take(i + 1) =~= a@.take(i as int).push(a@[i as int]));
        assert(b@.take(i + 1) =~= b@.take(i as int).push(b@[i as int]));
        i += 1;
    }
    assert(a@.take(N as int) =~= a@);
    assert(b@.take(N as int) =~= b@);
    false
}

} // verus!
