//! What the reader needs of a line of text, a line being its characters:
//! words split at white space, numbers, prefixes, infixes and byte lengths.

use vstd::prelude::*;
use crate::models::rows_of;

verus! {

// ----------------------------------------------------------------------
// White space and words
// ----------------------------------------------------------------------

/// The characters with Unicode's White_Space property, which are those
/// that `char::is_whitespace` accepts.
pub open spec fn is_space(c: char) -> bool {
    let v = c as u32;
    (0x9 <= v <= 0xd) || v == 0x20 || v == 0x85 || v == 0xa0 || v == 0x1680 || (0x2000 <= v <= 0x200a)
        || v == 0x2028 || v == 0x2029 || v == 0x202f || v == 0x205f || v == 0x3000
}

/// Tells whether `c` is white space.
pub fn is_whitespace_char(c: char) -> (b: bool)
    ensures
        b == is_space(c),
{
    let v = c as u32;
    (0x9 <= v && v <= 0xd) || v == 0x20 || v == 0x85 || v == 0xa0 || v == 0x1680 || (0x2000 <= v && v <= 0x200a)
        || v == 0x2028 || v == 0x2029 || v == 0x202f || v == 0x205f || v == 0x3000
}

/// The words of `s`: its longest runs of characters that are not white
/// space, in order, as `str::split_whitespace` gives them.
pub open spec fn words(s: Seq<char>) -> Seq<Seq<char>>
    decreases s.len(),
{
    if s.len() == 0 {
        Seq::empty()
    } else {
        let before = words(s.drop_last());
        let c = s.last();
        if is_space(c) {
            before
        } else if s.len() >= 2 && !is_space(s[s.len() - 2]) {
            before.update(before.len() - 1, before.last().push(c))
        } else {
            before.push(seq![c])
        }
    }
}

/// A text that ends in a character that is not white space has a word.
proof fn lemma_words_nonempty(s: Seq<char>)
    requires
        s.len() > 0,
        !is_space(s.last()),
    ensures
        words(s).len() > 0,
    decreases s.len(),
{
    if s.len() >= 2 && !is_space(s[s.len() - 2]) {
        assert(s.drop_last().last() == s[s.len() - 2]);
        lemma_words_nonempty(s.drop_last());
    }
}

/// Splits `s` into its words.
pub fn split_words(s: &Vec<char>) -> (r: Vec<Vec<char>>)
    ensures
        rows_of(r@) == words(s@),
{
    let mut out: Vec<Vec<char>> = Vec::new();
    let mut i: usize = 0;
    assert(s@.take(0) =~= Seq::<char>::empty());
    assert(rows_of(out@) =~= words(s@.take(0)));
    while i < s.len()
        invariant
            i <= s.len(),
            rows_of(out@) == words(s@.take(i as int)),
        decreases s.len() - i,
    {
        let c = s[i];
        let ghost t = s@.take(i + 1);
        assert(t.drop_last() =~= s@.take(i as int));
        assert(t.last() == c);
        if !is_whitespace_char(c) {
            if i > 0 && !is_whitespace_char(s[i - 1]) {
                assert(t[t.len() - 2] == s[i - 1]);
                proof {
                    assert(s@.take(i as int).last() == s@[i - 1]);
                    lemma_words_nonempty(s@.take(i as int));
                }
                let mut last = out.pop().unwrap();
                last.push(c);
                out.push(last);
                assert(rows_of(out@) =~= words(t));
            } else {
                let mut word: Vec<char> = Vec::new();
                word.push(c);
                assert(word@ =~= seq![c]);
                out.push(word);
                assert(rows_of(out@) =~= words(t));
            }
        } else {
            assert(rows_of(out@) =~= words(t));
        }
        i += 1;
    }
    assert(s@.take(s.len() as int) =~= s@);
    out
}

// ----------------------------------------------------------------------
// Numbers
// ----------------------------------------------------------------------

/// An ASCII decimal digit.
pub open spec fn is_digit(c: char) -> bool {
    '0' as u32 <= c as u32 <= '9' as u32
}

/// The value of a run of decimal digits.
pub open spec fn digits_value(s: Seq<char>) -> int
    decreases s.len(),
{
    if s.len() == 0 {
        0
    } else {
        digits_value(s.drop_last()) * 10 + (s.last() as u32 - '0' as u32)
    }
}

/// `s` without the `+` sign that may begin it.
pub open spec fn unsigned_digits(s: Seq<char>) -> Seq<char> {
    if s.len() > 0 && s[0] == '+' { s.drop_first() } else { s }
}

/// What `str::parse::<usize>` gives: an optional `+`, then at least one
/// decimal digit and nothing else, of a value that fits in a `usize`.
pub open spec fn parse_usize(s: Seq<char>) -> Option<usize> {
    let digits = unsigned_digits(s);
    if digits.len() > 0 && (forall|i: int| 0 <= i < digits.len() ==> #[trigger] is_digit(digits[i]))
        && digits_value(digits) <= usize::MAX {
        Some(digits_value(digits) as usize)
    } else {
        None
    }
}

/// The value of a run of digits is never negative and never less than
/// the value of a run that begins it.
proof fn lemma_digits_value_prefix(s: Seq<char>, k: int)
    requires
        0 <= k <= s.len(),
        forall|i: int| 0 <= i < s.len() ==> #[trigger] is_digit(s[i]),
    ensures
        0 <= digits_value(s.take(k)) <= digits_value(s),
    decreases s.len(),
{
    if s.len() > 0 {
        let d = s.drop_last();
        assert forall|i: int| 0 <= i < d.len() implies #[trigger] is_digit(d[i]) by {
            assert(d[i] == s[i]);
        }
        lemma_digits_value_prefix(d, d.len() as int);
        assert(d.take(d.len() as int) =~= d);
        assert(is_digit(s[s.len() - 1]));
        let v = digits_value(d);
        assert(v * 10 >= v) by (nonlinear_arith)
            requires
                v >= 0,
        ;
        if k < s.len() {
            lemma_digits_value_prefix(d, k);
            assert(d.take(k) =~= s.take(k));
        } else {
            assert(s.take(k) =~= s);
        }
    } else {
        assert(s.take(k) =~= s);
    }
}

/// Reads a `usize` as `str::parse::<usize>` does, or gives `None`.
pub fn parse_number(s: &Vec<char>) -> (r: Option<usize>)
    ensures
        r == parse_usize(s@),
{
    let start: usize = if s.len() > 0 && s[0] == '+' { 1 } else { 0 };
    let ghost digits = unsigned_digits(s@);
    assert(digits =~= s@.subrange(start as int, s@.len() as int));
    if start >= s.len() {
        return None;
    }
    let mut value: usize = 0;
    let mut i: usize = start;
    while i < s.len()
        invariant
            start <= i <= s.len(),
            digits == unsigned_digits(s@),
            digits =~= s@.subrange(start as int, s@.len() as int),
            forall|j: int| 0 <= j < i - start ==> #[trigger] is_digit(digits[j]),
            value == digits_value(digits.take(i - start)),
        decreases s.len() - i,
    {
        let c = s[i];
        assert(digits[i - start] == c);
        let v = c as u32;
        if v < 48 || v > 57 {
            assert(!is_digit(digits[i - start]));
            return None;
        }
        let d = (v - 48) as usize;
        assert(digits.take(i + 1 - start).drop_last() =~= digits.take(i - start));
        assert(digits.take(i + 1 - start).last() == c);
        if value > (usize::MAX - d) / 10 {
            proof {
                assert(value * 10 + d > usize::MAX) by (nonlinear_arith)
                    requires
                        value > (usize::MAX - d) / 10,
                        d <= 9,
                ;
                if forall|j: int| 0 <= j < digits.len() ==> #[trigger] is_digit(digits[j]) {
                    lemma_digits_value_prefix(digits, i + 1 - start);
                    assert(digits_value(digits) > usize::MAX);
                }
            }
            return None;
        }
        assert(value * 10 + d <= usize::MAX) by (nonlinear_arith)
            requires
                value <= (usize::MAX - d) / 10,
                d <= 9,
        ;
        value = value * 10 + d;
        i += 1;
    }
    assert(digits.take(digits.len() as int) =~= digits);
    Some(value)
}

/// `s` without the colons that end it, as `str::trim_end_matches(':')`
/// gives it.
pub open spec fn trim_colons(s: Seq<char>) -> Seq<char>
    decreases s.len(),
{
    if s.len() > 0 && s.last() == ':' {
        trim_colons(s.drop_last())
    } else {
        s
    }
}

/// Drops the colons that end `s`.
pub fn strip_trailing_colons(s: &Vec<char>) -> (r: Vec<char>)
    ensures
        r@ == trim_colons(s@),
{
    let mut end: usize = s.len();
    assert(s@.take(end as int) =~= s@);
    while end > 0 && s[end - 1] == ':'
        invariant
            end <= s.len(),
            trim_colons(s@) == trim_colons(s@.take(end as int)),
        decreases end,
    {
        assert(s@.take(end as int).drop_last() =~= s@.take(end - 1));
        end -= 1;
    }
    let mut out: Vec<char> = Vec::new();
    let mut i: usize = 0;
    while i < end
        invariant
            i <= end <= s.len(),
            out@ =~= s@.take(i as int),
        decreases end - i,
    {
        out.push(s[i]);
        i += 1;
    }
    out
}

// ----------------------------------------------------------------------
// Prefixes and infixes
// ----------------------------------------------------------------------

/// `s` begins with `pat`.
pub open spec fn starts_with(s: Seq<char>, pat: Seq<char>) -> bool {
    s.len() >= pat.len() && s.subrange(0, pat.len() as int) == pat
}

/// `pat` occurs somewhere in `s`.
pub open spec fn contains_seq(s: Seq<char>, pat: Seq<char>) -> bool {
    exists|i: int| 0 <= i <= s.len() - pat.len() && #[trigger] s.subrange(i, i + pat.len()) == pat
}

/// `pat` occurs in `s` at position `i`.
fn matches_at(s: &Vec<char>, pat: &[char], i: usize) -> (b: bool)
    requires
        i + pat@.len() <= s@.len(),
    ensures
        b == (s@.subrange(i as int, i + pat@.len()) == pat@),
{
    let mut j: usize = 0;
    while j < pat.len()
        invariant
            i + pat@.len() <= s@.len(),
            s@.len() == s.len(),
            j <= pat@.len(),
            forall|k: int| 0 <= k < j ==> s@[i + k] == pat@[k],
        decreases pat@.len() - j,
    {
        if s[i + j] != pat[j] {
            assert(s@.subrange(i as int, i + pat@.len())[j as int] != pat@[j as int]);
            return false;
        }
        j += 1;
    }
    assert(s@.subrange(i as int, i + pat@.len()) =~= pat@);
    true
}

/// Tells whether `s` begins with `pat`.
pub fn has_prefix(s: &Vec<char>, pat: &[char]) -> (b: bool)
    ensures
        b == starts_with(s@, pat@),
{
    if s.len() < pat.len() {
        return false;
    }
    matches_at(s, pat, 0)
}

/// Tells whether `pat` occurs in `s`.
pub fn has_infix(s: &Vec<char>, pat: &[char]) -> (b: bool)
    ensures
        b == contains_seq(s@, pat@),
{
    if s.len() < pat.len() {
        return false;
    }
    let last = s.len() - pat.len();
    let mut i: usize = 0;
    loop
        invariant
            last == s@.len() - pat@.len(),
            i <= last,
            forall|k: int| 0 <= k < i ==> #[trigger] s@.subrange(k, k + pat@.len()) != pat@,
        decreases last - i,
    {
        if matches_at(s, pat, i) {
            return true;
        }
        if i == last {
            return false;
        }
        i += 1;
    }
}

// ----------------------------------------------------------------------
// Bytes
// ----------------------------------------------------------------------

/// How many bytes UTF-8 takes for `c`.
pub open spec fn char_width(c: char) -> int {
    let v = c as u32;
    if v < 0x80 {
        1
    } else if v < 0x800 {
        2
    } else if v < 0x10000 {
        3
    } else {
        4
    }
}

/// How many bytes UTF-8 takes for `s`, as `str::len` counts them.
pub open spec fn byte_len(s: Seq<char>) -> int
    decreases s.len(),
{
    if s.len() == 0 { 0 } else { byte_len(s.drop_last()) + char_width(s.last()) }
}

/// The bytes of a beginning of `s` are fewer than those of a longer one.
pub proof fn lemma_byte_len_grows(s: Seq<char>, i: int, j: int)
    requires
        0 <= i <= j <= s.len(),
    ensures
        byte_len(s.take(i)) + (j - i) <= byte_len(s.take(j)),
    decreases j - i,
{
    if i < j {
        lemma_byte_len_grows(s, i, j - 1);
        assert(s.take(j).drop_last() =~= s.take(j - 1));
    }
}

/// How many bytes UTF-8 takes for `c`.
fn width_of(c: char) -> (r: usize)
    ensures
        r == char_width(c),
{
    let v = c as u32;
    if v < 0x80 {
        1
    } else if v < 0x800 {
        2
    } else if v < 0x10000 {
        3
    } else {
        4
    }
}

/// Tells whether `s` takes at least four bytes.
pub fn has_four_bytes(s: &Vec<char>) -> (b: bool)
    ensures
        b == (byte_len(s@) >= 4),
{
    let mut total: usize = 0;
    let mut i: usize = 0;
    assert(s@.take(0) =~= Seq::<char>::empty());
    while i < s.len()
        invariant
            i <= s.len(),
            total == byte_len(s@.take(i as int)),
            total < 4,
        decreases s.len() - i,
    {
        assert(s@.take(i + 1).drop_last() =~= s@.take(i as int));
        total = total + width_of(s[i]);
        if total >= 4 {
            proof {
                lemma_byte_len_grows(s@, i + 1, s@.len() as int);
                assert(s@.take(s@.len() as int) =~= s@);
            }
            return true;
        }
        i += 1;
    }
    assert(s@.take(s@.len() as int) =~= s@);
    false
}

/// What follows the first four bytes of `s`, where the fourth byte ends a
/// character; `None` where it does not, where `&s[4..]` would panic.
pub open spec fn after_four_bytes(s: Seq<char>) -> Option<Seq<char>> {
    if exists|m: int| 0 <= m <= s.len() && #[trigger] byte_len(s.take(m)) == 4 {
        let m = choose|m: int| 0 <= m <= s.len() && #[trigger] byte_len(s.take(m)) == 4;
        Some(s.skip(m))
    } else {
        None
    }
}

/// The characters of `s` after its first four bytes, or `None` where the
/// fourth byte does not end a character.
pub fn split_after_four_bytes(s: &Vec<char>) -> (r: Option<Vec<char>>)
    requires
        byte_len(s@) >= 4,
    ensures
        match r {
            Some(rest) => after_four_bytes(s@) == Some(rest@),
            None => after_four_bytes(s@) is None,
        },
{
    let mut total: usize = 0;
    let mut i: usize = 0;
    assert(s@.take(0) =~= Seq::<char>::empty());
    assert(s@.take(s@.len() as int) =~= s@);
    while total < 4
        invariant
            i <= s.len(),
            total == byte_len(s@.take(i as int)),
            total <= 7,
            i > 0 ==> byte_len(s@.take(i - 1)) < 4,
            byte_len(s@.take(s@.len() as int)) >= 4,
        decreases s.len() - i,
    {
        if i == s.len() {
            assert(false);
        }
        assert(s@.take(i + 1).drop_last() =~= s@.take(i as int));
        total = total + width_of(s[i]);
        i += 1;
    }
    if total != 4 {
        proof {
            assert forall|m: int| 0 <= m <= s@.len() implies #[trigger] byte_len(s@.take(m)) != 4 by {
                if m < i {
                    lemma_byte_len_grows(s@, m, i - 1);
                } else {
                    lemma_byte_len_grows(s@, i as int, m);
                }
            }
        }
        return None;
    }
    proof {
        let m = choose|m: int| 0 <= m <= s@.len() && #[trigger] byte_len(s@.take(m)) == 4;
        if m < i {
            lemma_byte_len_grows(s@, m, i as int);
        } else if m > i {
            lemma_byte_len_grows(s@, i as int, m);
        }
    }
    let mut out: Vec<char> = Vec::new();
    let start = i;
    while i < s.len()
        invariant
            start <= i <= s.len(),
            out@ =~= s@.subrange(start as int, i as int),
        decreases s.len() - i,
    {
        out.push(s[i]);
        i += 1;
    }
    Some(out)
}

} // verus!
