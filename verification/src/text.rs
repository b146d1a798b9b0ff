//! Small searches in strings, stated over their characters.

use vstd::prelude::*;
use vstd::string::*;
use crate::cursor::{is_digit, stands_at};

verus! {

/// The code of `c`, an upper case letter of ASCII counting as its lower case
/// one.
pub open spec fn lower_code(c: char) -> int {
    if 'A' <= c <= 'Z' {
        c as int + 32
    } else {
        c as int
    }
}

/// The two texts are the same but for the case of their ASCII letters.
pub open spec fn same_ignoring_case(a: Seq<char>, b: Seq<char>) -> bool {
    a.len() == b.len() && forall|i: int| 0 <= i < a.len() ==> lower_code(#[trigger] a[i])
        == lower_code(b[i])
}

/// `text` ends with `end`.
pub open spec fn ends_with(text: Seq<char>, end: Seq<char>) -> bool {
    stands_at(text, text.len() - end.len(), end)
}

/// `part` stands somewhere in `text`.
pub open spec fn contains(text: Seq<char>, part: Seq<char>) -> bool {
    exists|i: int| #[trigger] stands_at(text, i, part)
}

/// The index of the first `c` in `text` from `from` on; the length of the
/// text where there is none.
pub open spec fn index_of(text: Seq<char>, c: char, from: int) -> int
    decreases text.len() - from,
{
    if from < 0 || from >= text.len() {
        text.len() as int
    } else if text[from] == c {
        from
    } else {
        index_of(text, c, from + 1)
    }
}

/// The number that a run of decimal digits writes.
pub open spec fn decimal_value(digits: Seq<char>) -> nat
    decreases digits.len(),
{
    if digits.len() == 0 {
        0
    } else {
        decimal_value(digits.drop_last()) * 10 + (digits.last() as nat - '0' as nat) as nat
    }
}

/// The number that a run of digits writes is at least the number that any of
/// its beginnings writes.
pub proof fn lemma_decimal_value_grows(digits: Seq<char>, k: int)
    requires
        0 <= k <= digits.len(),
        forall|i: int| 0 <= i < digits.len() ==> is_digit(#[trigger] digits[i]),
    ensures
        decimal_value(digits.subrange(0, k)) <= decimal_value(digits),
    decreases digits.len() - k,
{
    if k < digits.len() {
        let front = digits.drop_last();
        assert(is_digit(digits[digits.len() - 1]));
        if k < digits.len() - 1 {
            lemma_decimal_value_grows(front, k);
            assert(front.subrange(0, k) =~= digits.subrange(0, k));
        } else {
            assert(front =~= digits.subrange(0, k));
        }
    } else {
        assert(digits.subrange(0, k) =~= digits);
    }
}

/// Whether the two characters are the same but for the case of an ASCII
/// letter.
pub fn same_char_ignoring_case(a: char, b: char) -> (same: bool)
    ensures
        same == (lower_code(a) == lower_code(b)),
{
    let x: u32 = if a >= 'A' && a <= 'Z' {
        a as u32 + 32
    } else {
        a as u32
    };
    let y: u32 = if b >= 'A' && b <= 'Z' {
        b as u32 + 32
    } else {
        b as u32
    };
    x == y
}

/// Whether `word` stands in `text` at `at`.
pub fn str_stands_at(text: &str, at: usize, word: &str) -> (found: bool)
    ensures
        found == stands_at(text@, at as int, word@),
{
    let n = text.unicode_len();
    let m = word.unicode_len();
    if at > n || m > n - at {
        return false;
    }
    let mut i: usize = 0;
    while i < m
        invariant
            n == text@.len(),
            m == word@.len(),
            at + m <= n,
            i <= m,
            forall|k: int| 0 <= k < i ==> text@[at + k] == word@[k],
        decreases m - i,
    {
        if text.get_char(at + i) != word.get_char(i) {
            assert(text@.subrange(at as int, at + m)[i as int] == text@[at + i]);
            return false;
        }
        i += 1;
    }
    assert(text@.subrange(at as int, at + m) =~= word@);
    true
}

/// Whether `text` ends with `end`.
pub fn str_ends_with(text: &str, end: &str) -> (found: bool)
    ensures
        found == ends_with(text@, end@),
{
    let n = text.unicode_len();
    let m = end.unicode_len();
    if m > n {
        return false;
    }
    str_stands_at(text, n - m, end)
}

/// Whether `part` stands somewhere in `text`.
pub fn str_contains(text: &str, part: &str) -> (found: bool)
    ensures
        found == contains(text@, part@),
{
    let n = text.unicode_len();
    let m = part.unicode_len();
    if m > n {
        assert forall|i: int| !#[trigger] stands_at(text@, i, part@) by {}
        return false;
    }
    let mut at: usize = 0;
    while at < n - m
        invariant
            n == text@.len(),
            m == part@.len(),
            m <= n,
            at <= n - m,
            forall|i: int| 0 <= i < at ==> !#[trigger] stands_at(text@, i, part@),
        decreases n - m - at,
    {
        if str_stands_at(text, at, part) {
            return true;
        }
        at += 1;
    }
    let found = str_stands_at(text, at, part);
    assert(!found ==> forall|i: int| !#[trigger] stands_at(text@, i, part@));
    found
}

/// The index of the first `c` in `text`, or the length of the text where
/// there is none.
pub fn str_index_of(text: &str, c: char) -> (index: usize)
    ensures
        index == index_of(text@, c, 0),
        index <= text@.len(),
{
    let n = text.unicode_len();
    let mut i: usize = 0;
    while i < n
        invariant
            n == text@.len(),
            i <= n,
            index_of(text@, c, 0) == index_of(text@, c, i as int),
        decreases n - i,
    {
        if text.get_char(i) == c {
            return i;
        }
        i += 1;
    }
    i
}

} // verus!
