//! Text as sequences of characters: conversions between `str`, `String` and
//! `Vec<char>`, physical lines, prefixes and trimming.

use vstd::prelude::*;

verus! {

/// Whether `c` is whitespace: one of the characters with the Unicode property
/// `White_Space`. These are the controls U+0009 to U+000D, the space, the
/// next-line control U+0085, the no-break space U+00A0, the Ogham space
/// U+1680, the spaces U+2000 to U+200A, the line and paragraph separators
/// U+2028 and U+2029, the narrow no-break space U+202F, the medium
/// mathematical space U+205F and the ideographic space U+3000.
pub open spec fn unicode_whitespace(c: char) -> bool {
    let n = c as u32;
    ||| 0x09 <= n <= 0x0d
    ||| n == 0x20
    ||| n == 0x85
    ||| n == 0xa0
    ||| n == 0x1680
    ||| 0x2000 <= n <= 0x200a
    ||| n == 0x2028
    ||| n == 0x2029
    ||| n == 0x202f
    ||| n == 0x205f
    ||| n == 0x3000
}

/// Whether `c` has the Unicode property `Uppercase`, as `char::is_uppercase` reports it.
pub uninterp spec fn unicode_uppercase(c: char) -> bool;

/// Whether `c` is whitespace.
pub fn is_whitespace(c: char) -> (r: bool)
    ensures
        r == unicode_whitespace(c),
{
    let n: u32 = c as u32;
    (0x09 <= n && n <= 0x0d) || n == 0x20 || n == 0x85 || n == 0xa0 || n == 0x1680 || (0x2000
        <= n && n <= 0x200a) || n == 0x2028 || n == 0x2029 || n == 0x202f || n == 0x205f || n
        == 0x3000
}

/// `char::is_uppercase`: the answer is a function of the character alone and
/// is given the name `unicode_uppercase`; nothing else is claimed of it.
#[verifier::external_body]
pub(crate) fn is_uppercase(c: char) -> (r: bool)
    ensures
        r == unicode_uppercase(c),
{
    c.is_uppercase()
}

/// `String::push`: the character is appended to the end of the string.
pub assume_specification[ String::push ](s: &mut String, c: char)
    ensures
        final(s)@ == old(s)@.push(c),
;

/// The characters of `s`, in order.
pub fn chars_of(s: &str) -> (r: Vec<char>)
    ensures
        r@ == s@,
{
    let mut v: Vec<char> = Vec::new();
    for c in it: s.chars()
        invariant
            it.seq() == s@,
            v@ == it.seq().take(it.index() as int),
    {
        v.push(c);
    }
    v
}

/// The string made of the characters of `v`, in order.
pub fn string_of(v: &Vec<char>) -> (r: String)
    ensures
        r@ == v@,
{
    let mut s = String::new();
    let mut i: usize = 0;
    while i < v.len()
        invariant
            i <= v.len(),
            s@ == v@.take(i as int),
        decreases v.len() - i,
    {
        s.push(v[i]);
        i = i + 1;
        assert(v@.take(i as int) == v@.take(i - 1).push(v@[i - 1]));
    }
    assert(v@.take(v.len() as int) == v@);
    s
}

/// The characters of `v` from index `from` up to, not including, index `to`.
pub fn copy_range(v: &Vec<char>, from: usize, to: usize) -> (r: Vec<char>)
    requires
        from <= to <= v.len(),
    ensures
        r@ == v@.subrange(from as int, to as int),
{
    let mut out: Vec<char> = Vec::new();
    let mut i: usize = from;
    while i < to
        invariant
            from <= i <= to <= v.len(),
            out@ == v@.subrange(from as int, i as int),
        decreases to - i,
    {
        out.push(v[i]);
        i = i + 1;
        assert(v@.subrange(from as int, i as int) == v@.subrange(from as int, i - 1).push(
            v@[i - 1],
        ));
    }
    out
}

/// Whether `s` begins with `p`.
pub open spec fn has_prefix(s: Seq<char>, p: Seq<char>) -> bool {
    p.len() <= s.len() && s.take(p.len() as int) == p
}

/// Whether `s` begins with `p`.
pub fn starts_with(s: &Vec<char>, p: &Vec<char>) -> (r: bool)
    ensures
        r == has_prefix(s@, p@),
{
    if p.len() > s.len() {
        return false;
    }
    let mut i: usize = 0;
    while i < p.len()
        invariant
            i <= p.len() <= s.len(),
            s@.take(i as int) == p@.take(i as int),
        decreases p.len() - i,
    {
        if s[i] != p[i] {
            assert(s@.take(p.len() as int)[i as int] != p@[i as int]);
            return false;
        }
        i = i + 1;
        assert(s@.take(i as int) == s@.take(i - 1).push(s@[i - 1]));
        assert(p@.take(i as int) == p@.take(i - 1).push(p@[i - 1]));
    }
    assert(p@.take(p.len() as int) == p@);
    true
}

/// The number of whitespace characters that `s` begins with.
pub open spec fn leading_whitespace(s: Seq<char>) -> nat
    decreases s.len(),
{
    if s.len() > 0 && unicode_whitespace(s[0]) {
        1 + leading_whitespace(s.drop_first())
    } else {
        0
    }
}

/// The number of whitespace characters that `s` ends with.
pub open spec fn trailing_whitespace(s: Seq<char>) -> nat
    decreases s.len(),
{
    if s.len() > 0 && unicode_whitespace(s.last()) {
        1 + trailing_whitespace(s.drop_last())
    } else {
        0
    }
}

/// `s` without the whitespace that it begins with.
pub open spec fn trim_start_of(s: Seq<char>) -> Seq<char> {
    s.skip(leading_whitespace(s) as int)
}

/// `s` without the whitespace at either end.
pub open spec fn trim_of(s: Seq<char>) -> Seq<char> {
    let t = trim_start_of(s);
    t.take(t.len() - trailing_whitespace(t))
}

/// The leading whitespace of `s` is its longest prefix of whitespace
/// characters: `n` is its length when the first `n` characters are
/// whitespace and the next one, if any, is not.
pub proof fn lemma_leading_whitespace(s: Seq<char>, n: nat)
    requires
        n <= s.len(),
        forall|k: int| 0 <= k < n ==> unicode_whitespace(#[trigger] s[k]),
        n < s.len() ==> !unicode_whitespace(s[n as int]),
    ensures
        leading_whitespace(s) == n,
    decreases n,
{
    if n > 0 {
        let t = s.drop_first();
        assert forall|k: int| 0 <= k < n - 1 implies unicode_whitespace(#[trigger] t[k]) by {
            assert(t[k] == s[k + 1]);
        }
        lemma_leading_whitespace(t, (n - 1) as nat);
    }
}

/// The trailing whitespace of `s` is its longest suffix of whitespace
/// characters.
pub proof fn lemma_trailing_whitespace(s: Seq<char>, n: nat)
    requires
        n <= s.len(),
        forall|k: int| s.len() - n <= k < s.len() ==> unicode_whitespace(#[trigger] s[k]),
        n < s.len() ==> !unicode_whitespace(s[s.len() - n - 1]),
    ensures
        trailing_whitespace(s) == n,
    decreases n,
{
    if n > 0 {
        let t = s.drop_last();
        assert forall|k: int| t.len() - (n - 1) <= k < t.len() implies unicode_whitespace(
            #[trigger] t[k],
        ) by {
            assert(t[k] == s[k]);
        }
        lemma_trailing_whitespace(t, (n - 1) as nat);
    }
}

/// `s` without the whitespace that it begins with.
pub fn trim_start(s: &Vec<char>) -> (r: Vec<char>)
    ensures
        r@ == trim_start_of(s@),
{
    let mut i: usize = 0;
    while i < s.len() && is_whitespace(s[i])
        invariant
            i <= s.len(),
            forall|k: int| 0 <= k < i ==> unicode_whitespace(#[trigger] s@[k]),
        decreases s.len() - i,
    {
        i = i + 1;
    }
    proof {
        lemma_leading_whitespace(s@, i as nat);
    }
    copy_range(s, i, s.len())
}

/// `s` without the whitespace at either end.
pub fn trim(s: &Vec<char>) -> (r: Vec<char>)
    ensures
        r@ == trim_of(s@),
{
    let t = trim_start(s);
    let mut end: usize = t.len();
    while end > 0 && is_whitespace(t[end - 1])
        invariant
            end <= t.len(),
            forall|k: int| end <= k < t.len() ==> unicode_whitespace(#[trigger] t@[k]),
        decreases end,
    {
        end = end - 1;
    }
    proof {
        lemma_trailing_whitespace(t@, (t.len() - end) as nat);
    }
    copy_range(&t, 0, end)
}

/// The length of the first physical line of `s`: the number of characters
/// before its first line feed, or all of them where it holds none.
pub open spec fn first_line_len(s: Seq<char>) -> nat
    decreases s.len(),
{
    if s.len() == 0 || s[0] == '\n' {
        0
    } else {
        1 + first_line_len(s.drop_first())
    }
}

/// `l` without the carriage return at its end, if it has one.
pub open spec fn without_carriage_return(l: Seq<char>) -> Seq<char> {
    if l.len() > 0 && l.last() == '\r' {
        l.drop_last()
    } else {
        l
    }
}

/// The physical lines of `s`. A line ends at a line feed, or at a carriage
/// return directly followed by one; neither belongs to the line. What follows
/// the last line feed is a line only if it is not empty, and keeps a carriage
/// return at its end.
pub open spec fn lines_of(s: Seq<char>) -> Seq<Seq<char>>
    decreases s.len(),
{
    let n = first_line_len(s) as int;
    if s.len() == 0 {
        Seq::empty()
    } else if n >= s.len() {
        seq![s]
    } else {
        seq![without_carriage_return(s.take(n))] + lines_of(s.skip(n + 1))
    }
}

/// The first line of `s` has length `n` when no line feed stands before
/// index `n` and one stands at it, or `s` ends there.
pub proof fn lemma_first_line_len(s: Seq<char>, n: nat)
    requires
        n <= s.len(),
        forall|k: int| 0 <= k < n ==> #[trigger] s[k] != '\n',
        n < s.len() ==> s[n as int] == '\n',
    ensures
        first_line_len(s) == n,
    decreases n,
{
    if n > 0 {
        let t = s.drop_first();
        assert forall|k: int| 0 <= k < n - 1 implies #[trigger] t[k] != '\n' by {
            assert(t[k] == s[k + 1]);
        }
        lemma_first_line_len(t, (n - 1) as nat);
    }
}

/// The contents of each line of `lines`.
pub open spec fn line_views(lines: Seq<Vec<char>>) -> Seq<Seq<char>> {
    Seq::new(lines.len(), |i: int| lines[i]@)
}

/// The physical lines of `text`.
pub fn split_lines(text: &Vec<char>) -> (r: Vec<Vec<char>>)
    ensures
        line_views(r@) == lines_of(text@),
{
    let mut res: Vec<Vec<char>> = Vec::new();
    let mut pos: usize = 0;
    assert(line_views(res@) + lines_of(text@.skip(0)) == lines_of(text@)) by {
        assert(text@.skip(0) == text@);
        assert(line_views(res@) + lines_of(text@) == lines_of(text@));
    }
    while pos < text.len()
        invariant
            pos <= text.len(),
            line_views(res@) + lines_of(text@.skip(pos as int)) == lines_of(text@),
        decreases text.len() - pos,
    {
        let mut end: usize = pos;
        while end < text.len() && text[end] != '\n'
            invariant
                pos <= end <= text.len(),
                forall|k: int| pos <= k < end ==> #[trigger] text@[k] != '\n',
            decreases text.len() - end,
        {
            end = end + 1;
        }
        let ghost rest = text@.skip(pos as int);
        let ghost before = line_views(res@);
        proof {
            assert forall|k: int| 0 <= k < end - pos implies #[trigger] rest[k] != '\n' by {
                assert(rest[k] == text@[pos + k]);
            }
            lemma_first_line_len(rest, (end - pos) as nat);
        }
        if end == text.len() {
            let line = copy_range(text, pos, end);
            res.push(line);
            proof {
                assert(line@ == rest);
                assert(lines_of(rest) == seq![rest]);
                assert(text@.skip(end as int).len() == 0);
                assert(lines_of(text@.skip(end as int)) == Seq::<Seq<char>>::empty());
                assert(line_views(res@) == before + seq![rest]);
                assert(line_views(res@) + lines_of(text@.skip(end as int)) == before + lines_of(
                    rest,
                ));
            }
            pos = end;
        } else {
            let stop: usize = if end > pos && text[end - 1] == '\r' {
                (end - 1) as usize
            } else {
                end
            };
            let line = copy_range(text, pos, stop);
            res.push(line);
            proof {
                let first = rest.take(end - pos);
                assert(first == text@.subrange(pos as int, end as int));
                assert(line@ == without_carriage_return(first));
                assert(rest.skip(end - pos + 1) == text@.skip(end + 1));
                assert(lines_of(rest) == seq![line@] + lines_of(text@.skip(end + 1)));
                assert(line_views(res@) == before + seq![line@]);
                assert(line_views(res@) + lines_of(text@.skip(end + 1)) == before + lines_of(
                    rest,
                ));
            }
            pos = end + 1;
        }
    }
    proof {
        assert(text@.skip(pos as int).len() == 0);
        assert(line_views(res@) + lines_of(text@.skip(pos as int)) == line_views(res@));
    }
    res
}

/// The character for the decimal digit `d`.
pub open spec fn digit_char(d: nat) -> char
    recommends
        d < 10,
{
    ((48 + d) as u8) as char
}

/// `n` in decimal, without leading zeros.
pub open spec fn decimal_of(n: nat) -> Seq<char>
    decreases n,
{
    if n < 10 {
        seq![digit_char(n)]
    } else {
        decimal_of(n / 10).push(digit_char(n % 10))
    }
}

/// `n` in decimal, without leading zeros.
pub fn decimal(n: usize) -> (r: Vec<char>)
    ensures
        r@ == decimal_of(n as nat),
{
    let mut low_first: Vec<char> = Vec::new();
    let mut m: usize = n;
    assert(decimal_of(m as nat) + low_first@.reverse() == decimal_of(n as nat));
    while m >= 10
        invariant
            decimal_of(m as nat) + low_first@.reverse() == decimal_of(n as nat),
        decreases m,
    {
        let d: u8 = (m % 10) as u8;
        let ghost before = low_first@;
        low_first.push((48u8 + d) as char);
        proof {
            let c = digit_char((m % 10) as nat);
            assert(low_first@ == before.push(c));
            assert(low_first@.reverse() == seq![c] + before.reverse());
            assert(decimal_of(m as nat) == decimal_of((m / 10) as nat).push(c));
            assert(decimal_of((m / 10) as nat) + low_first@.reverse() == decimal_of(m as nat)
                + before.reverse());
        }
        m = m / 10;
    }
    let ghost before = low_first@;
    low_first.push((48u8 + (m as u8)) as char);
    proof {
        let c = digit_char(m as nat);
        assert(low_first@.reverse() == seq![c] + before.reverse());
        assert(decimal_of(m as nat) == seq![c]);
    }
    let mut out: Vec<char> = Vec::new();
    let mut i: usize = low_first.len();
    while i > 0
        invariant
            i <= low_first.len(),
            out@ == low_first@.reverse().take(low_first.len() - i),
        decreases i,
    {
        i = i - 1;
        out.push(low_first[i]);
        assert(low_first@.reverse().take(low_first.len() - i) == low_first@.reverse().take(
            low_first.len() - i - 1,
        ).push(low_first@[i as int]));
    }
    assert(low_first@.reverse().take(low_first.len() as int) == low_first@.reverse());
    out
}

/// Whether `s` ends with `p`.
pub open spec fn has_suffix(s: Seq<char>, p: Seq<char>) -> bool {
    p.len() <= s.len() && s.skip(s.len() - p.len()) == p
}

/// Whether `p` stands in `s` at index `i`.
pub open spec fn occurs_at(s: Seq<char>, p: Seq<char>, i: int) -> bool {
    0 <= i && i + p.len() <= s.len() && s.subrange(i, i + p.len()) == p
}

/// Whether `p` stands somewhere in `s`.
pub open spec fn contains_text(s: Seq<char>, p: Seq<char>) -> bool {
    exists|i: int| occurs_at(s, p, i)
}

/// Whether `p` stands in `s` at index `at`.
pub fn found_at(s: &Vec<char>, p: &Vec<char>, at: usize) -> (r: bool)
    ensures
        r == occurs_at(s@, p@, at as int),
{
    if p.len() > s.len() || at > s.len() - p.len() {
        return false;
    }
    let mut i: usize = 0;
    while i < p.len()
        invariant
            i <= p.len(),
            at + p.len() <= s.len(),
            s@.subrange(at as int, at + i) == p@.take(i as int),
        decreases p.len() - i,
    {
        if s[at + i] != p[i] {
            assert(s@.subrange(at as int, at + p.len())[i as int] != p@[i as int]);
            return false;
        }
        i = i + 1;
        assert(s@.subrange(at as int, at + i) == s@.subrange(at as int, at + i - 1).push(
            s@[at + i - 1],
        ));
        assert(p@.take(i as int) == p@.take(i - 1).push(p@[i - 1]));
    }
    assert(p@.take(p.len() as int) == p@);
    true
}

/// Whether `s` ends with `p`.
pub fn ends_with(s: &Vec<char>, p: &Vec<char>) -> (r: bool)
    ensures
        r == has_suffix(s@, p@),
{
    if p.len() > s.len() {
        return false;
    }
    let at: usize = s.len() - p.len();
    assert(s@.skip(at as int) == s@.subrange(at as int, at + p.len()));
    found_at(s, p, at)
}

/// Whether `p` stands somewhere in `s`.
pub fn contains(s: &Vec<char>, p: &Vec<char>) -> (r: bool)
    ensures
        r == contains_text(s@, p@),
{
    if p.len() > s.len() {
        return false;
    }
    let last: usize = s.len() - p.len();
    let mut i: usize = 0;
    while i < last
        invariant
            last == s.len() - p.len(),
            i <= last,
            forall|k: int| 0 <= k < i ==> !occurs_at(s@, p@, k),
        decreases last - i,
    {
        if found_at(s, p, i) {
            return true;
        }
        i = i + 1;
    }
    found_at(s, p, last)
}

} // verus!
