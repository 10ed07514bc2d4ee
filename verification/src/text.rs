//! Text as sequences of characters: lines, white space, numbers.
use crate::decimal;
use vstd::prelude::*;

verus! {

/// The place of the first line feed from `i` on, or the end of the text.
pub open spec fn line_feed(s: Seq<char>, i: int) -> int
    decreases s.len() - i,
{
    if i >= s.len() {
        s.len() as int
    } else if s[i] == '\n' {
        i
    } else {
        line_feed(s, i + 1)
    }
}

/// Where the line from `i` on ends: before its line feed, and before a
/// carriage return in front of that.
pub open spec fn line_end(s: Seq<char>, i: int) -> int {
    let f = line_feed(s, i);
    if i < f < s.len() && s[f - 1] == '\r' {
        f - 1
    } else {
        f
    }
}

/// The lines from `i` on. A line feed at the end starts no further line.
pub open spec fn lines_from(s: Seq<char>, i: int) -> Seq<Seq<char>>
    decreases s.len() + 1 - i,
{
    if i >= s.len() {
        Seq::empty()
    } else {
        proof {
            lemma_line_feed(s, i);
        }
        seq![s.subrange(i, line_end(s, i))] + lines_from(s, line_feed(s, i) + 1)
    }
}

/// The lines of a text.
pub open spec fn lines(s: Seq<char>) -> Seq<Seq<char>> {
    lines_from(s, 0)
}

/// `line` starts with `key` and an equals sign.
pub open spec fn has_key(line: Seq<char>, key: Seq<char>) -> bool {
    line.len() > key.len() && line.take(key.len() as int) == key && line[key.len() as int] == '='
}

/// ASCII text of bytes.
pub open spec fn ascii(s: Seq<u8>) -> Seq<char> {
    Seq::new(s.len(), |i: int| s[i] as char)
}

/// White space, as Unicode has it.
pub open spec fn is_white(c: char) -> bool {
    ||| '\u{9}' <= c <= '\u{D}'
    ||| c == ' '
    ||| c == '\u{85}'
    ||| c == '\u{A0}'
    ||| c == '\u{1680}'
    ||| '\u{2000}' <= c <= '\u{200A}'
    ||| c == '\u{2028}'
    ||| c == '\u{2029}'
    ||| c == '\u{202F}'
    ||| c == '\u{205F}'
    ||| c == '\u{3000}'
}

/// Text without the white space in front.
pub open spec fn trim_start(s: Seq<char>) -> Seq<char>
    decreases s.len(),
{
    if s.len() > 0 && is_white(s[0]) {
        trim_start(s.skip(1))
    } else {
        s
    }
}

/// Text without the white space behind.
pub open spec fn trim_end(s: Seq<char>) -> Seq<char>
    decreases s.len(),
{
    if s.len() > 0 && is_white(s.last()) {
        trim_end(s.drop_last())
    } else {
        s
    }
}

/// Text without the white space around it.
pub open spec fn trimmed(s: Seq<char>) -> Seq<char> {
    trim_end(trim_start(s))
}

/// The characters of a text.
pub fn chars_of(s: &str) -> (r: Vec<char>)
    ensures
        r@ == s@,
{
    let mut v: Vec<char> = Vec::new();
    for c in it: s.chars()
        invariant
            v@ == it.seq().take(it.index() as int),
            it.seq() == s@,
    {
        v.push(c);
    }
    assert(v@ =~= s@);
    v
}

/// A line feed is found where there is the first one.
pub proof fn lemma_line_feed(s: Seq<char>, i: int)
    requires
        i <= s.len(),
    ensures
        i <= line_feed(s, i) <= s.len(),
        line_feed(s, i) < s.len() ==> s[line_feed(s, i)] == '\n',
        forall|j: int| i <= j < line_feed(s, i) ==> s[j] != '\n',
    decreases s.len() - i,
{
    if i < s.len() && s[i] != '\n' {
        lemma_line_feed(s, i + 1);
    }
}

/// Where the lines of a text start and end.
pub fn line_ranges(s: &Vec<char>) -> (r: Vec<(usize, usize)>)
    ensures
        r@.len() == lines(s@).len(),
        forall|i: int|
            #![trigger r@[i]]
            0 <= i < r@.len() ==> {
                &&& r@[i].0 <= r@[i].1 <= s@.len()
                &&& lines(s@)[i] == s@.subrange(r@[i].0 as int, r@[i].1 as int)
            },
{
    let mut r: Vec<(usize, usize)> = Vec::new();
    let mut i: usize = 0;
    let ghost all = lines(s@);
    let len = s.len();
    while i < len
        invariant
            i <= len == s@.len(),
            all == lines(s@),
            r@.len() + lines_from(s@, i as int).len() == all.len(),
            forall|k: int|
                0 <= k < lines_from(s@, i as int).len() ==> #[trigger] lines_from(s@, i as int)[k]
                    == all[r@.len() + k],
            forall|k: int|
                #![trigger r@[k]]
                0 <= k < r@.len() ==> {
                    &&& r@[k].0 <= r@[k].1 <= s@.len()
                    &&& all[k] == s@.subrange(r@[k].0 as int, r@[k].1 as int)
                },
        decreases len - i,
    {
        let mut f: usize = i;
        while f < s.len() && s[f] != '\n'
            invariant
                i <= f <= s.len(),
                line_feed(s@, i as int) == line_feed(s@, f as int),
            decreases s.len() - f,
        {
            f += 1;
        }
        let end: usize = if i < f && f < s.len() && s[f - 1] == '\r' {
            f - 1
        } else {
            f
        };
        let ghost rest = lines_from(s@, f + 1);
        let ghost here = lines_from(s@, i as int);
        assert(here =~= seq![s@.subrange(i as int, end as int)] + rest);
        assert(here[0] == all[r@.len() as int]);
        let ghost before = r@;
        r.push((i, end));
        if f == s.len() {
            assert(rest.len() == 0);
            return r;
        }
        i = f + 1;
        assert forall|k: int| 0 <= k < rest.len() implies #[trigger] rest[k] == all[r@.len()
            + k] by {
            assert(here[k + 1] == rest[k]);
            assert(here[k + 1] == all[before.len() + (k + 1)]);
        }
    }
    r
}

/// Whether a character is white space.
pub fn white(c: char) -> (r: bool)
    ensures
        r == is_white(c),
{
    ('\u{9}' <= c && c <= '\u{D}') || c == ' ' || c == '\u{85}' || c == '\u{A0}' || c == '\u{1680}'
        || ('\u{2000}' <= c && c <= '\u{200A}') || c == '\u{2028}' || c == '\u{2029}' || c
        == '\u{202F}' || c == '\u{205F}' || c == '\u{3000}'
}

/// Where a text starts and ends without the white space around it.
pub fn trim_range(s: &Vec<char>) -> (r: (usize, usize))
    ensures
        r.0 <= r.1 <= s@.len(),
        trimmed(s@) == s@.subrange(r.0 as int, r.1 as int),
{
    let mut a: usize = 0;
    let len = s.len();
    assert(s@.skip(0) =~= s@);
    while a < len && white(s[a])
        invariant
            a <= len == s@.len(),
            trim_start(s@) == trim_start(s@.skip(a as int)),
        decreases len - a,
    {
        assert(s@.skip(a as int).skip(1) =~= s@.skip(a + 1));
        a += 1;
    }
    let ghost inner = s@.skip(a as int);
    assert(trim_start(s@) == inner);
    let mut b: usize = len;
    assert(s@.subrange(a as int, b as int) =~= inner);
    while a < b && white(s[b - 1])
        invariant
            a <= b <= len == s@.len(),
            trim_end(inner) == trim_end(s@.subrange(a as int, b as int)),
        decreases b,
    {
        assert(s@.subrange(a as int, b as int).drop_last() =~= s@.subrange(a as int, b - 1));
        b -= 1;
    }
    (a, b)
}

/// A digit of base 16.
pub open spec fn digit(d: u8) -> char {
    if d < 10 {
        (48 + d) as char
    } else {
        (87 + d) as char
    }
}

/// A digit of base 16, as text.
pub fn digit_text(d: u8) -> (r: &'static str)
    requires
        d < 16,
    ensures
        r@ == seq![digit(d)],
{
    let all = "0123456789abcdef";
    proof {
        reveal_strlit("0123456789abcdef");
        assert(d == 0 || d == 1 || d == 2 || d == 3 || d == 4 || d == 5 || d == 6 || d == 7 || d
            == 8 || d == 9 || d == 10 || d == 11 || d == 12 || d == 13 || d == 14 || d == 15);
        assert(all@[d as int] == digit(d));
    }
    let r = all.substring_char(d as usize, d as usize + 1);
    assert(r@ =~= seq![digit(d)]);
    r
}

/// Appends a number in decimal.
pub fn append_decimal(out: &mut String, n: u64)
    ensures
        final(out)@ == old(out)@ + ascii(decimal::decimal(n as nat)),
    decreases n,
{
    if n >= 10 {
        append_decimal(out, n / 10);
    }
    let last = (n % 10) as u8;
    out.append(digit_text(last));
    assert(out@ =~= old(out)@ + ascii(decimal::decimal(n as nat)));
}

/// Whether a range of a text starts with `key` and an equals sign.
pub fn starts_with_key(s: &Vec<char>, from: usize, to: usize, key: &str) -> (r: bool)
    requires
        from <= to <= s@.len(),
    ensures
        r == has_key(s@.subrange(from as int, to as int), key@),
{
    let ghost line = s@.subrange(from as int, to as int);
    let n = key.unicode_len();
    if to - from <= n || s[from + n] != '=' {
        return false;
    }
    assert(line.take(n as int) =~= s@.subrange(from as int, from + n));
    range_is(s, from, from + n, key)
}

/// Whether a range of a text is `other`.
pub fn range_is(s: &Vec<char>, from: usize, to: usize, other: &str) -> (r: bool)
    requires
        from <= to <= s@.len(),
    ensures
        r == (s@.subrange(from as int, to as int) == other@),
{
    let c = chars_of(other);
    if c.len() != to - from {
        return false;
    }
    let mut i: usize = 0;
    while i < c.len()
        invariant
            i <= c.len() == to - from,
            from <= to <= s@.len(),
            c@ == other@,
            forall|j: int| 0 <= j < i ==> s@[from + j] == #[trigger] c@[j],
        decreases c.len() - i,
    {
        if s[from + i] != c[i] {
            assert(s@.subrange(from as int, to as int)[i as int] != c@[i as int]);
            return false;
        }
        i += 1;
    }
    assert(s@.subrange(from as int, to as int) =~= c@);
    true
}

/// Lines, each with a line feed behind it.
pub open spec fn unlines(ls: Seq<Seq<char>>) -> Seq<char>
    decreases ls.len(),
{
    if ls.len() == 0 {
        Seq::empty()
    } else {
        unlines(ls.drop_last()) + ls.last().push('\n')
    }
}

/// A line feed does not occur in `s`.
pub open spec fn is_single_line(s: Seq<char>) -> bool {
    forall|i: int| 0 <= i < s.len() ==> #[trigger] s[i] != '\n'
}

/// `s` can be a line: no line feed in it, no carriage return at its end.
pub open spec fn is_line(s: Seq<char>) -> bool {
    is_single_line(s) && (s.len() > 0 ==> s.last() != '\r')
}

proof fn lemma_line_feed_is(s: Seq<char>, i: int, f: int)
    requires
        0 <= i <= f < s.len(),
        s[f] == '\n',
        forall|j: int| i <= j < f ==> s[j] != '\n',
    ensures
        line_feed(s, i) == f,
    decreases f - i,
{
    if i < f {
        lemma_line_feed_is(s, i + 1, f);
    }
}

/// What follows a text does not change its line feeds.
proof fn lemma_line_feed_prefix(s: Seq<char>, behind: Seq<char>, i: int)
    requires
        0 <= i <= s.len(),
        line_feed(s, i) < s.len(),
    ensures
        line_feed(s + behind, i) == line_feed(s, i),
{
    lemma_line_feed(s, i);
    let f = line_feed(s, i);
    assert forall|j: int| i <= j < f implies (s + behind)[j] != '\n' by {
        assert(s[j] != '\n');
    }
    lemma_line_feed_is(s + behind, i, f);
}

/// A line behind a text that ends with a line feed is one more line.
proof fn lemma_lines_append(s: Seq<char>, line: Seq<char>, i: int)
    requires
        0 <= i <= s.len(),
        s.len() > 0 ==> s.last() == '\n',
        is_line(line),
    ensures
        lines_from(s + line.push('\n'), i) == lines_from(s, i).push(line),
    decreases s.len() - i,
{
    let all = s + line.push('\n');
    if i == s.len() {
        assert forall|j: int| i <= j < all.len() - 1 implies all[j] != '\n' by {
            assert(all[j] == line[j - i]);
        }
        lemma_line_feed_is(all, i, all.len() - 1);
        if line.len() > 0 {
            assert(all[all.len() - 2] == line.last());
        }
        assert(all.subrange(i, all.len() - 1) =~= line);
        assert(lines_from(all, all.len() as int) =~= Seq::<Seq<char>>::empty());
        assert(lines_from(all, i) =~= seq![line]);
        assert(lines_from(s, i).push(line) =~= seq![line]);
    } else {
        lemma_line_feed(s, i);
        let f = line_feed(s, i);
        assert(f < s.len()) by {
            if f == s.len() {
                assert(s[s.len() - 1] != '\n');
            }
        }
        lemma_line_feed_prefix(s, line.push('\n'), i);
        assert(line_end(all, i) == line_end(s, i)) by {
            if i < f {
                assert(all[f - 1] == s[f - 1]);
            }
        }
        lemma_lines_append(s, line, f + 1);
        assert(all.subrange(i, line_end(s, i)) =~= s.subrange(i, line_end(s, i)));
        assert(lines_from(all, i) =~= lines_from(s, i).push(line));
    }
}

/// Lines that are put together come apart again.
pub proof fn lemma_lines_of_unlines(ls: Seq<Seq<char>>)
    requires
        forall|i: int| 0 <= i < ls.len() ==> is_line(#[trigger] ls[i]),
    ensures
        lines(unlines(ls)) == ls,
        unlines(ls).len() > 0 ==> unlines(ls).last() == '\n',
    decreases ls.len(),
{
    if ls.len() > 0 {
        let front = ls.drop_last();
        assert forall|i: int| 0 <= i < front.len() implies is_line(#[trigger] front[i]) by {
            assert(is_line(ls[i]));
        }
        lemma_lines_of_unlines(front);
        lemma_lines_append(unlines(front), ls.last(), 0);
        assert(front.push(ls.last()) =~= ls);
    } else {
        assert(lines(unlines(ls)) =~= ls);
    }
}

/// No line of a text has a line feed in it.
pub proof fn lemma_lines_are_single(s: Seq<char>, i: int)
    requires
        0 <= i,
    ensures
        forall|k: int|
            0 <= k < lines_from(s, i).len() ==> is_single_line(#[trigger] lines_from(s, i)[k]),
    decreases s.len() + 1 - i,
{
    if i < s.len() {
        lemma_line_feed(s, i);
        let f = line_feed(s, i);
        lemma_lines_are_single(s, f + 1);
        let head = s.subrange(i, line_end(s, i));
        assert forall|k: int| 0 <= k < head.len() implies #[trigger] head[k] != '\n' by {
            assert(s[i + k] != '\n');
        }
        assert forall|k: int| 0 <= k < lines_from(s, i).len() implies is_single_line(
            #[trigger] lines_from(s, i)[k],
        ) by {
            if k > 0 {
                assert(lines_from(s, i)[k] == lines_from(s, f + 1)[k - 1]);
            }
        }
    }
}

/// Lines without line feeds in them are all in their text.
pub proof fn lemma_unlines_injective(a: Seq<Seq<char>>, b: Seq<Seq<char>>)
    requires
        forall|i: int| 0 <= i < a.len() ==> is_single_line(#[trigger] a[i]),
        forall|i: int| 0 <= i < b.len() ==> is_single_line(#[trigger] b[i]),
        unlines(a) == unlines(b),
    ensures
        a == b,
    decreases a.len(),
{
    let t = unlines(a);
    if a.len() > 0 && b.len() > 0 {
        let la = a.last();
        let lb = b.last();
        let fa = unlines(a.drop_last());
        let fb = unlines(b.drop_last());
        assert(is_single_line(a[a.len() - 1]) && is_single_line(b[b.len() - 1]));
        lemma_unlines_end(a.drop_last());
        lemma_unlines_end(b.drop_last());
        assert(t.len() == fa.len() + la.len() + 1);
        assert(t.len() == fb.len() + lb.len() + 1);
        if la.len() < lb.len() {
            let p = fa.len() - 1;
            assert(t[p] == fa.last());
            assert(t[p] == lb[p - fb.len()]);
            assert(false);
        }
        if lb.len() < la.len() {
            let p = fb.len() - 1;
            assert(t[p] == fb.last());
            assert(t[p] == la[p - fa.len()]);
            assert(false);
        }
        assert(fa =~= t.take(fa.len() as int));
        assert(fb =~= t.take(fb.len() as int));
        assert(la =~= t.subrange(fa.len() as int, t.len() - 1));
        assert(lb =~= t.subrange(fb.len() as int, t.len() - 1));
        assert forall|i: int| 0 <= i < a.drop_last().len() implies is_single_line(
            #[trigger] a.drop_last()[i],
        ) by {
            assert(is_single_line(a[i]));
        }
        assert forall|i: int| 0 <= i < b.drop_last().len() implies is_single_line(
            #[trigger] b.drop_last()[i],
        ) by {
            assert(is_single_line(b[i]));
        }
        lemma_unlines_injective(a.drop_last(), b.drop_last());
        assert(a =~= a.drop_last().push(la));
        assert(b =~= b.drop_last().push(lb));
    } else {
        if a.len() > 0 {
            assert(t.len() >= 1);
        }
        if b.len() > 0 {
            assert(t.len() >= 1);
        }
        assert(a =~= b);
    }
}

proof fn lemma_unlines_end(ls: Seq<Seq<char>>)
    ensures
        ls.len() == 0 ==> unlines(ls).len() == 0,
        ls.len() > 0 ==> unlines(ls).len() > 0 && unlines(ls).last() == '\n',
        unlines(ls).len() > 0 ==> unlines(ls).last() == '\n',
{
}

/// White space around a text without any in it goes away.
pub proof fn lemma_trimmed(before: Seq<char>, s: Seq<char>, behind: Seq<char>)
    requires
        forall|i: int| 0 <= i < before.len() ==> is_white(#[trigger] before[i]),
        forall|i: int| 0 <= i < behind.len() ==> is_white(#[trigger] behind[i]),
        forall|i: int| 0 <= i < s.len() ==> !is_white(#[trigger] s[i]),
    ensures
        trimmed(before + s + behind) == s,
{
    if s.len() > 0 {
        lemma_trim_start(before, s + behind);
        assert(before + (s + behind) =~= before + s + behind);
        lemma_trim_end(s, behind);
    } else {
        let all = before + s + behind;
        lemma_trim_start(all, Seq::empty());
        assert(all + Seq::<char>::empty() =~= all);
        assert(trim_end(Seq::<char>::empty()) =~= s);
    }
}

proof fn lemma_trim_start(before: Seq<char>, s: Seq<char>)
    requires
        forall|i: int| 0 <= i < before.len() ==> is_white(#[trigger] before[i]),
        s.len() > 0 ==> !is_white(s[0]),
    ensures
        trim_start(before + s) == s,
    decreases before.len(),
{
    if before.len() > 0 {
        assert((before + s)[0] == before[0]);
        assert((before + s).skip(1) =~= before.skip(1) + s);
        assert forall|i: int| 0 <= i < before.skip(1).len() implies is_white(
            #[trigger] before.skip(1)[i],
        ) by {
            assert(is_white(before[i + 1]));
        }
        lemma_trim_start(before.skip(1), s);
    } else {
        assert(before + s =~= s);
    }
}

proof fn lemma_trim_end(s: Seq<char>, behind: Seq<char>)
    requires
        forall|i: int| 0 <= i < behind.len() ==> is_white(#[trigger] behind[i]),
        s.len() > 0,
        !is_white(s.last()),
    ensures
        trim_end(s + behind) == s,
    decreases behind.len(),
{
    if behind.len() > 0 {
        assert((s + behind).last() == behind[behind.len() - 1]);
        assert((s + behind).drop_last() =~= s + behind.drop_last());
        assert forall|i: int| 0 <= i < behind.drop_last().len() implies is_white(
            #[trigger] behind.drop_last()[i],
        ) by {
            assert(is_white(behind[i]));
        }
        lemma_trim_end(s, behind.drop_last());
    } else {
        assert(s + behind =~= s);
    }
}

/// A character that is in no line is not in their text.
pub proof fn lemma_unlines_without(ls: Seq<Seq<char>>, c: char)
    requires
        c != '\n',
        forall|k: int, i: int|
            0 <= k < ls.len() && 0 <= i < ls[k].len() ==> #[trigger] ls[k][i] != c,
    ensures
        forall|i: int| 0 <= i < unlines(ls).len() ==> #[trigger] unlines(ls)[i] != c,
        ls.len() > 0 ==> unlines(ls).len() > 0 && unlines(ls).last() == '\n',
    decreases ls.len(),
{
    if ls.len() > 0 {
        let front = ls.drop_last();
        assert forall|k: int, i: int|
            0 <= k < front.len() && 0 <= i < front[k].len() implies #[trigger] front[k][i] != c by {
            assert(ls[k][i] != c);
        }
        lemma_unlines_without(front, c);
        assert forall|i: int| 0 <= i < unlines(ls).len() implies #[trigger] unlines(ls)[i]
            != c by {
            let at = unlines(front).len();
            if i >= at && i < unlines(ls).len() - 1 {
                assert(ls[ls.len() - 1][i - at] != c);
            } else if i < at {
                assert(unlines(ls)[i] == unlines(front)[i]);
            }
        }
    }
}

/// `s` is `inner` with white space around it, and `inner` neither starts nor
/// ends with any.
pub open spec fn surrounds(s: Seq<char>, before: Seq<char>, inner: Seq<char>, behind: Seq<char>) -> bool {
    &&& s == before + inner + behind
    &&& forall|i: int| 0 <= i < before.len() ==> is_white(#[trigger] before[i])
    &&& forall|i: int| 0 <= i < behind.len() ==> is_white(#[trigger] behind[i])
    &&& inner.len() > 0 ==> !is_white(inner[0]) && !is_white(inner.last())
}

proof fn lemma_trim_start_splits(s: Seq<char>) -> (before: Seq<char>)
    ensures
        s == before + trim_start(s),
        forall|i: int| 0 <= i < before.len() ==> is_white(#[trigger] before[i]),
        trim_start(s).len() > 0 ==> !is_white(trim_start(s)[0]),
    decreases s.len(),
{
    if s.len() > 0 && is_white(s[0]) {
        let rest = lemma_trim_start_splits(s.skip(1));
        let before = seq![s[0]] + rest;
        assert(s =~= seq![s[0]] + s.skip(1));
        assert(s =~= before + trim_start(s));
        before
    } else {
        assert(s =~= Seq::<char>::empty() + s);
        Seq::empty()
    }
}

proof fn lemma_trim_end_splits(s: Seq<char>) -> (behind: Seq<char>)
    ensures
        s == trim_end(s) + behind,
        forall|i: int| 0 <= i < behind.len() ==> is_white(#[trigger] behind[i]),
        trim_end(s).len() > 0 ==> !is_white(trim_end(s).last()),
    decreases s.len(),
{
    if s.len() > 0 && is_white(s.last()) {
        let rest = lemma_trim_end_splits(s.drop_last());
        let behind = rest.push(s.last());
        assert(s =~= s.drop_last().push(s.last()));
        assert(s =~= trim_end(s) + behind);
        behind
    } else {
        assert(s =~= s + Seq::<char>::empty());
        Seq::empty()
    }
}

/// The codes of the white space beyond ASCII.
pub open spec fn other_white_space() -> Seq<int> {
    seq![
        133int,
        160,
        5760,
        8192,
        8193,
        8194,
        8195,
        8196,
        8197,
        8198,
        8199,
        8200,
        8201,
        8202,
        8232,
        8233,
        8239,
        8287,
        12288,
    ]
}

/// The white space beyond ASCII, by its codes.
proof fn lemma_other_white_space(c: char)
    ensures
        c as int > 127 ==> (is_white(c) <==> other_white_space().contains(c as int)),
{
    let s = other_white_space();
    assert(s[0] == 133);
    assert(s[1] == 160);
    assert(s[2] == 5760);
    assert(s[3] == 8192);
    assert(s[4] == 8193);
    assert(s[5] == 8194);
    assert(s[6] == 8195);
    assert(s[7] == 8196);
    assert(s[8] == 8197);
    assert(s[9] == 8198);
    assert(s[10] == 8199);
    assert(s[11] == 8200);
    assert(s[12] == 8201);
    assert(s[13] == 8202);
    assert(s[14] == 8232);
    assert(s[15] == 8233);
    assert(s[16] == 8239);
    assert(s[17] == 8287);
    assert(s[18] == 12288);
    if c as int > 127 && s.contains(c as int) {
        let k = choose|k: int| 0 <= k < s.len() && s[k] == c as int;
        assert(0 <= k < 19);
    }
}

/// Trimming takes away the white space around a text, all of it and nothing
/// else. Of ASCII, the white space is the space and the codes 9 to 13.
pub proof fn law_trimming_takes_all_white_space(s: Seq<char>, c: char)
    ensures
        exists|before: Seq<char>, behind: Seq<char>| #[trigger]
            surrounds(s, before, trimmed(s), behind),
        c as int <= 127 ==> (is_white(c) <==> c as int == 32 || 9 <= c as int <= 13),
        c as int > 127 ==> (is_white(c) <==> other_white_space().contains(c as int)),
{
    lemma_other_white_space(c);
    let before = lemma_trim_start_splits(s);
    let behind = lemma_trim_end_splits(trim_start(s));
    let inner = trimmed(s);
    assert(s =~= before + inner + behind);
    if inner.len() > 0 {
        assert(trim_start(s)[0] == inner[0]);
    }
    assert(surrounds(s, before, inner, behind));
}

proof fn lemma_line_feed_shift(front: Seq<char>, s: Seq<char>, i: int)
    requires
        0 <= i <= s.len(),
    ensures
        line_feed(front + s, front.len() + i) == front.len() + line_feed(s, i),
    decreases s.len() - i,
{
    if i < s.len() {
        assert((front + s)[front.len() + i] == s[i]);
        lemma_line_feed_shift(front, s, i + 1);
    }
}

/// What stands in front of a line does not matter to it and those behind.
proof fn lemma_lines_shift(front: Seq<char>, s: Seq<char>, i: int)
    requires
        0 <= i,
    ensures
        lines_from(front + s, front.len() + i) == lines_from(s, i),
    decreases s.len() + 1 - i,
{
    if i < s.len() {
        let all = front + s;
        let at = front.len() + i;
        lemma_line_feed(s, i);
        lemma_line_feed(all, at);
        lemma_line_feed_shift(front, s, i);
        let f = line_feed(s, i);
        if i < f < s.len() {
            assert(all[front.len() + f - 1] == s[f - 1]);
        }
        assert(line_end(all, at) == front.len() + line_end(s, i));
        assert(all.subrange(at, line_end(all, at)) =~= s.subrange(i, line_end(s, i)));
        lemma_lines_shift(front, s, f + 1);
    }
}

/// The lines of a text: what stands in front of its first line feed, without a
/// carriage return at its end, and then the lines of what stands behind. A
/// text without a line feed is one line, and the empty text none.
pub proof fn law_lines_end_at_line_feeds(line: Seq<char>, rest: Seq<char>)
    requires
        !line.contains('\n'),
    ensures
        lines(line.push('\n') + rest) == seq![
            if line.len() > 0 && line.last() == '\r' {
                line.drop_last()
            } else {
                line
            },
        ] + lines(rest),
        line.len() > 0 ==> lines(line) == seq![line],
        lines(Seq::empty()) == Seq::<Seq<char>>::empty(),
{
    let front = line.push('\n');
    let all = front + rest;
    assert forall|j: int| 0 <= j < line.len() implies all[j] != '\n' && line[j] != '\n' by {
        assert(all[j] == line[j]);
        assert(line.contains(line[j]));
    }
    lemma_line_feed_is(all, 0, line.len() as int);
    lemma_lines_shift(front, rest, 0);
    assert(all.subrange(0, line_end(all, 0)) =~= if line.len() > 0 && line.last() == '\r' {
        line.drop_last()
    } else {
        line
    });
    if line.len() > 0 {
        lemma_line_feed(line, 0);
        if line_feed(line, 0) < line.len() {
            assert(line[line_feed(line, 0)] == '\n');
        }
        assert(line.subrange(0, line.len() as int) =~= line);
        assert(lines_from(line, line.len() + 1int) =~= Seq::<Seq<char>>::empty());
    }
}

} // verus!
