//! The firmware version.
use crate::decimal;
use crate::text;
use vstd::prelude::*;

verus! {

/// Major version.
pub const MAJOR: u8 = 1;

/// Minor version.
pub const MINOR: u8 = 0;

/// Patch version.
pub const PATCH: u8 = 4;

/// The version as one number, for the check that an update is not older than
/// what is installed.
pub const NUMERIC: u32 = MAJOR as u32 * 10000 + MINOR as u32 * 100 + PATCH as u32;

/// The version as text.
pub const STRING: &'static str = "1.0.4";

/// The label on the opening screen. It names the fork; updates go by the
/// version.
pub const DISPLAY_LABEL: &'static str = "1.0-brt-fork";

/// A version as one number.
pub open spec fn numeric(major: u8, minor: u8, patch: u8) -> int {
    major * 10000 + minor * 100 + patch
}

/// One version is older than another.
pub open spec fn older(a: (u8, u8, u8), b: (u8, u8, u8)) -> bool {
    a.0 < b.0 || a.0 == b.0 && (a.1 < b.1 || a.1 == b.1 && a.2 < b.2)
}

/// The codes of characters.
pub open spec fn codes(s: Seq<char>) -> Seq<u8> {
    Seq::new(s.len(), |i: int| s[i] as u8)
}

/// `s` is a component of a version: decimal digits for a number up to 255.
pub open spec fn is_component(s: Seq<char>) -> bool {
    &&& s.len() > 0
    &&& forall|i: int| 0 <= i < s.len() ==> '0' <= #[trigger] s[i] <= '9'
    &&& decimal::decimal_value(codes(s)) <= 255
}

/// Dropping digits does not make a number larger.
proof fn lemma_prefix_value(s: Seq<u8>, n: int)
    requires
        decimal::all_digits(s),
        0 <= n <= s.len(),
    ensures
        decimal::decimal_value(s.take(n)) <= decimal::decimal_value(s),
    decreases s.len(),
{
    if n < s.len() {
        assert(decimal::all_digits(s.drop_last()));
        lemma_prefix_value(s.drop_last(), n);
        assert(s.drop_last().take(n) =~= s.take(n));
        assert(48 <= s[s.len() - 1] <= 57);
    } else {
        assert(s.take(n) =~= s);
    }
}

/// Reads a component of a version.
pub fn parse_u8_const(s: &str) -> (r: u8)
    requires
        is_component(s@),
    ensures
        r == decimal::decimal_value(codes(s@)),
{
    let c = text::chars_of(s);
    let ghost d = codes(s@);
    let mut acc: u8 = 0;
    let mut i: usize = 0;
    proof {
        assert forall|k: int| 0 <= k < d.len() implies 48 <= #[trigger] d[k] <= 57 by {
            assert('0' <= s@[k] <= '9');
        }
        assert(d.take(0) =~= Seq::<u8>::empty());
    }
    while i < c.len()
        invariant
            i <= c.len(),
            c@ == s@,
            d == codes(s@),
            decimal::all_digits(d),
            is_component(s@),
            acc == decimal::decimal_value(d.take(i as int)),
        decreases c.len() - i,
    {
        let digit: u8 = (c[i] as u32 - 48) as u8;
        proof {
            assert('0' <= s@[i as int] <= '9');
            lemma_prefix_value(d, i + 1);
            assert(d.take(i + 1).drop_last() =~= d.take(i as int));
            assert(d.take(i + 1).last() == 48 + digit);
        }
        acc = acc * 10 + digit;
        i += 1;
    }
    assert(d.take(i as int) =~= d);
    acc
}

/// A newer version has a larger number, as long as minor and patch stay below
/// 100.
pub proof fn law_numeric_is_monotone(a: (u8, u8, u8), b: (u8, u8, u8))
    requires
        a.1 < 100 && a.2 < 100,
        b.1 < 100 && b.2 < 100,
    ensures
        older(a, b) <==> numeric(a.0, a.1, a.2) < numeric(b.0, b.1, b.2),
        NUMERIC == numeric(MAJOR, MINOR, PATCH),
{
}

} // verus!
