//! Character-level helpers shared by the parsers and formatters, and what
//! they take from the standard library on trust.

use vstd::prelude::*;
use vstd::utf8::decode_utf8;
use vstd::utf8::is_ascii_chars;
use vstd::utf8::valid_utf8;

verus! {

/// `String::push` appends one character.
pub assume_specification[ String::push ](s: &mut String, ch: char)
    ensures
        final(s)@ == old(s)@.push(ch),
;

/// Whether `c` is an uppercase letter, as `char::is_uppercase` answers.
pub uninterp spec fn char_is_uppercase(c: char) -> bool;

/// `c` is one of the capital letters `A` to `Z`.
pub open spec fn is_ascii_capital(c: char) -> bool {
    'A' <= c <= 'Z'
}

/// `char::is_uppercase` tests the Unicode `Uppercase` property. Its answer
/// depends on the character alone. Among the ASCII characters the capital
/// letters `A` to `Z` carry the property and no other does; beyond ASCII the
/// answer is known here only by name.
pub assume_specification[ char::is_uppercase ](c: char) -> (r: bool)
    ensures
        r == char_is_uppercase(c),
        c <= '\u{7f}' ==> (r <==> is_ascii_capital(c)),
;

/// Whether `c` is white space: one of the characters that carry the Unicode
/// property `White_Space`.
pub open spec fn char_is_whitespace(c: char) -> bool {
    ||| '\u{9}' <= c <= '\u{d}'
    ||| c == ' '
    ||| c == '\u{85}'
    ||| c == '\u{a0}'
    ||| c == '\u{1680}'
    ||| '\u{2000}' <= c <= '\u{200a}'
    ||| c == '\u{2028}'
    ||| c == '\u{2029}'
    ||| c == '\u{202f}'
    ||| c == '\u{205f}'
    ||| c == '\u{3000}'
}

/// `char::is_whitespace` tests the Unicode property `White_Space`, which
/// these twenty-five characters carry and no other.
pub assume_specification[ char::is_whitespace ](c: char) -> (r: bool)
    ensures
        r == char_is_whitespace(c),
;

/// The text that `String::from_utf8_lossy` reads out of `bytes`.
pub uninterp spec fn utf8_lossy(bytes: Seq<u8>) -> Seq<char>;

/// Calls `String::from_utf8_lossy`, which decodes UTF-8 and puts U+FFFD in
/// place of what is not UTF-8. Bytes that are UTF-8 throughout come out as
/// the text they encode; of other bytes the text is known only by name.
#[verifier::external_body]
pub(crate) fn decode_lossy(bytes: &[u8]) -> (s: String)
    ensures
        s@ == utf8_lossy(bytes@),
        valid_utf8(bytes@) ==> s@ == decode_utf8(bytes@),
{
    String::from_utf8_lossy(bytes).into_owned()
}

/// Some character of `s` is an uppercase letter.
pub open spec fn has_uppercase(s: Seq<char>) -> bool {
    exists|i: int| 0 <= i < s.len() && char_is_uppercase(#[trigger] s[i])
}

/// Some character of `s` is one of the capital letters `A` to `Z`.
pub open spec fn has_ascii_capital(s: Seq<char>) -> bool {
    exists|i: int| 0 <= i < s.len() && is_ascii_capital(#[trigger] s[i])
}

/// Whether `s` holds an uppercase letter. In a text of ASCII characters
/// these are the capital letters `A` to `Z`.
pub fn contains_uppercase(s: &str) -> (r: bool)
    ensures
        r == has_uppercase(s@),
        is_ascii_chars(s@) ==> r == has_ascii_capital(s@),
{
    let mut found = false;
    for c in it: s.chars()
        invariant
            it.seq() == s@,
            found == has_uppercase(s@.take(it.index() as int)),
            is_ascii_chars(s@) ==> found == has_ascii_capital(s@.take(it.index() as int)),
    {
        let upper = c.is_uppercase();
        proof {
            let n = it.index() as int;
            let before = s@.take(n);
            let after = s@.take(n + 1);
            assert(forall|i: int| 0 <= i < n ==> before[i] == after[i]);
            assert(after[n] == c);
            assert(s@[n] == c);
            if has_uppercase(before) {
                let w = choose|i: int| 0 <= i < before.len() && char_is_uppercase(#[trigger] before[i]);
                assert(char_is_uppercase(after[w]));
            }
            if has_uppercase(after) && !upper {
                let w = choose|i: int| 0 <= i < after.len() && char_is_uppercase(#[trigger] after[i]);
                assert(char_is_uppercase(before[w]));
            }
            if has_ascii_capital(before) {
                let w = choose|i: int| 0 <= i < before.len() && is_ascii_capital(#[trigger] before[i]);
                assert(is_ascii_capital(after[w]));
            }
            if is_ascii_chars(s@) {
                if has_ascii_capital(after) && !upper {
                    let w = choose|i: int| 0 <= i < after.len() && is_ascii_capital(#[trigger] after[i]);
                    assert(is_ascii_capital(before[w]));
                }
                if upper {
                    assert(is_ascii_capital(after[n]));
                }
            }
        }
        if upper {
            found = true;
        }
    }
    proof {
        assert(s@.take(s@.len() as int) =~= s@);
    }
    found
}

/// The characters of `s`, in order.
pub fn to_chars(s: &str) -> (v: Vec<char>)
    ensures
        v@ == s@,
{
    let mut v: Vec<char> = Vec::new();
    for c in it: s.chars()
        invariant
            v@ == it.seq().take(it.index() as int),
            it.seq() == s@,
    {
        v.push(c);
    }
    v
}

/// The string spelled by `chars[from..to]`.
pub fn string_of(chars: &Vec<char>, from: usize, to: usize) -> (s: String)
    requires
        from <= to <= chars.len(),
    ensures
        s@ == chars@.subrange(from as int, to as int),
{
    let mut s = String::new();
    let mut i: usize = from;
    while i < to
        invariant
            from <= i <= to <= chars.len(),
            s@ == chars@.subrange(from as int, i as int),
        decreases to - i,
    {
        s.push(chars[i]);
        i += 1;
    }
    s
}

/// The decimal digit for `d`, which is below ten.
pub open spec fn digit_char(d: nat) -> char {
    if d == 0 {
        '0'
    } else if d == 1 {
        '1'
    } else if d == 2 {
        '2'
    } else if d == 3 {
        '3'
    } else if d == 4 {
        '4'
    } else if d == 5 {
        '5'
    } else if d == 6 {
        '6'
    } else if d == 7 {
        '7'
    } else if d == 8 {
        '8'
    } else {
        '9'
    }
}

/// `n` written in decimal, without leading zeros.
pub open spec fn decimal(n: nat) -> Seq<char>
    decreases n,
{
    if n < 10 {
        seq![digit_char(n)]
    } else {
        decimal(n / 10).push(digit_char(n % 10))
    }
}

fn digit(d: u64) -> (c: char)
    requires
        d < 10,
    ensures
        c == digit_char(d as nat),
{
    match d {
        0 => '0',
        1 => '1',
        2 => '2',
        3 => '3',
        4 => '4',
        5 => '5',
        6 => '6',
        7 => '7',
        8 => '8',
        _ => '9',
    }
}

/// Appends `n` in decimal to `s`.
pub fn push_decimal(s: &mut String, n: u64)
    ensures
        final(s)@ == old(s)@ + decimal(n as nat),
    decreases n,
{
    if n >= 10 {
        push_decimal(s, n / 10);
        s.push(digit(n % 10));
        assert(s@ =~= old(s)@ + decimal(n as nat));
    } else {
        s.push(digit(n));
        assert(s@ =~= old(s)@ + decimal(n as nat));
    }
}

/// A copy of every string of `v`, in order.
pub fn clone_strings(v: &Vec<String>) -> (r: Vec<String>)
    ensures
        r.deep_view() == v.deep_view(),
{
    let mut r: Vec<String> = Vec::new();
    let mut i: usize = 0;
    while i < v.len()
        invariant
            i <= v.len(),
            r.len() == i,
            forall|j: int| 0 <= j < i ==> r[j]@ == v[j]@,
        decreases v.len() - i,
    {
        r.push(v[i].clone());
        i += 1;
    }
    assert(r.deep_view() =~= v.deep_view());
    r
}

/// `s` without the run of `c` at its end.
pub open spec fn trim_end(s: Seq<char>, c: char) -> Seq<char>
    decreases s.len(),
{
    if s.len() > 0 && s.last() == c {
        trim_end(s.drop_last(), c)
    } else {
        s
    }
}

/// The length of `chars[..len]` once the run of `c` at its end is cut off.
pub fn trim_end_len(chars: &Vec<char>, len: usize, c: char) -> (n: usize)
    requires
        len <= chars.len(),
    ensures
        n <= len,
        chars@.take(n as int) == trim_end(chars@.take(len as int), c),
{
    let mut n = len;
    while n > 0 && chars[n - 1] == c
        invariant
            n <= len <= chars.len(),
            trim_end(chars@.take(n as int), c) == trim_end(chars@.take(len as int), c),
        decreases n,
    {
        assert(chars@.take(n as int).drop_last() =~= chars@.take(n - 1));
        n -= 1;
    }
    n
}

/// `s` without the white space at its end.
pub open spec fn trim_space_end(s: Seq<char>) -> Seq<char>
    decreases s.len(),
{
    if s.len() > 0 && char_is_whitespace(s.last()) {
        trim_space_end(s.drop_last())
    } else {
        s
    }
}

/// `s` without the white space at its start.
pub open spec fn trim_space_start(s: Seq<char>) -> Seq<char>
    decreases s.len(),
{
    if s.len() > 0 && char_is_whitespace(s[0]) {
        trim_space_start(s.drop_first())
    } else {
        s
    }
}

/// `s` without the white space at either end.
pub open spec fn trim_space(s: Seq<char>) -> Seq<char> {
    trim_space_start(trim_space_end(s))
}

/// `s` without the white space at either end.
pub fn trimmed(s: &str) -> (r: String)
    ensures
        r@ == trim_space(s@),
{
    let chars = to_chars(s);
    let mut end: usize = chars.len();
    assert(chars@.take(end as int) =~= chars@);
    while end > 0 && chars[end - 1].is_whitespace()
        invariant
            end <= chars.len(),
            trim_space_end(chars@.take(end as int)) == trim_space_end(chars@),
        decreases end,
    {
        assert(chars@.take(end as int).drop_last() =~= chars@.take(end - 1));
        end -= 1;
    }
    let mut start: usize = 0;
    assert(chars@.subrange(0, end as int) =~= chars@.take(end as int));
    while start < end && chars[start].is_whitespace()
        invariant
            start <= end <= chars.len(),
            trim_space_start(chars@.subrange(start as int, end as int)) == trim_space(chars@),
        decreases end - start,
    {
        assert(chars@.subrange(start as int, end as int).drop_first() =~= chars@.subrange(
            start + 1,
            end as int,
        ));
        start += 1;
    }
    string_of(&chars, start, end)
}

/// The position of the first `c` in `s` at or after `from`, or the length of
/// `s` where there is none.
pub open spec fn find_char(s: Seq<char>, c: char, from: int) -> int
    decreases s.len() - from,
{
    if from < 0 || from >= s.len() {
        s.len() as int
    } else if s[from] == c {
        from
    } else {
        find_char(s, c, from + 1)
    }
}

/// The position of the first `c` in `chars` at or after `from`, or the
/// length of `chars` where there is none.
pub fn position_of(chars: &Vec<char>, c: char, from: usize) -> (at: usize)
    requires
        from <= chars.len(),
    ensures
        at == find_char(chars@, c, from as int),
        from <= at <= chars.len(),
{
    let mut at = from;
    while at < chars.len() && chars[at] != c
        invariant
            from <= at <= chars.len(),
            find_char(chars@, c, at as int) == find_char(chars@, c, from as int),
        decreases chars.len() - at,
    {
        at += 1;
    }
    at
}

/// `s[start..stop]`, a line whose line feed stands at `stop`, without the
/// carriage return that may stand before the line feed.
pub open spec fn line_before(s: Seq<char>, start: int, stop: int) -> Seq<char> {
    if start < stop && s[stop - 1] == '\r' {
        s.subrange(start, stop - 1)
    } else {
        s.subrange(start, stop)
    }
}

/// The lines of `s` from `start` on, where `s[start..at]` is known to hold
/// no line feed.
pub open spec fn lines_from(s: Seq<char>, start: int, at: int) -> Seq<Seq<char>>
    decreases s.len() - at,
{
    if at < 0 || at >= s.len() {
        if 0 <= start < s.len() {
            seq![s.subrange(start, s.len() as int)]
        } else {
            Seq::empty()
        }
    } else if s[at] == '\n' {
        seq![line_before(s, start, at)] + lines_from(s, at + 1, at + 1)
    } else {
        lines_from(s, start, at + 1)
    }
}

/// The lines of `s`. A line ends with a line feed, or with a carriage
/// return and a line feed; neither belongs to the line. What follows the
/// last line feed is a line too, unless it is empty.
pub open spec fn lines_of(s: Seq<char>) -> Seq<Seq<char>> {
    lines_from(s, 0, 0)
}

/// Cuts `chars` into lines.
pub fn split_lines(chars: &Vec<char>) -> (lines: Vec<Vec<char>>)
    ensures
        lines.deep_view() == lines_of(chars@),
{
    let mut lines: Vec<Vec<char>> = Vec::new();
    let mut start: usize = 0;
    let mut at: usize = 0;
    assert(lines.deep_view() =~= Seq::<Seq<char>>::empty());
    while at < chars.len()
        invariant
            start <= at <= chars.len(),
            lines.deep_view() + lines_from(chars@, start as int, at as int) == lines_of(chars@),
        decreases chars.len() - at,
    {
        let ghost before = lines.deep_view();
        if chars[at] == '\n' {
            let stop = if start < at && chars[at - 1] == '\r' {
                at - 1
            } else {
                at
            };
            let line = copy_range(chars, start, stop);
            assert(line.deep_view() =~= line@);
            lines.push(line);
            proof {
                let line_view = line_before(chars@, start as int, at as int);
                assert(lines.deep_view() =~= before.push(line_view));
                assert(before + (seq![line_view] + lines_from(chars@, at + 1, at + 1)) =~= before.push(
                    line_view,
                ) + lines_from(chars@, at + 1, at + 1));
            }
            start = at + 1;
        }
        at += 1;
    }
    if start < chars.len() {
        let ghost before = lines.deep_view();
        let line = copy_range(chars, start, chars.len());
        assert(line.deep_view() =~= line@);
        lines.push(line);
        assert(lines.deep_view() =~= before + seq![chars@.subrange(start as int, chars.len() as int)]);
    } else {
        assert(lines.deep_view() + Seq::<Seq<char>>::empty() =~= lines.deep_view());
    }
    lines
}

/// A copy of `chars[from..to]`.
pub fn copy_range(chars: &Vec<char>, from: usize, to: usize) -> (r: Vec<char>)
    requires
        from <= to <= chars.len(),
    ensures
        r@ == chars@.subrange(from as int, to as int),
{
    let mut r: Vec<char> = Vec::new();
    let mut i: usize = from;
    while i < to
        invariant
            from <= i <= to <= chars.len(),
            r@ == chars@.subrange(from as int, i as int),
        decreases to - i,
    {
        r.push(chars[i]);
        i += 1;
    }
    r
}

} // verus!
