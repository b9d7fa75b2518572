//! The smallest parts of a problem file: white space, runs of characters,
//! fixed words and numbers.

use vstd::prelude::*;
use vstd::string::StringSliceAdditionalSpecFns;

verus! {

/// The number of bytes of the white space character that begins at place
/// `i`, 0 where none begins there.
pub open spec fn space_width(s: Seq<u8>, i: int) -> int {
    if !(0 <= i < s.len()) {
        0
    } else if 9 <= s[i] <= 13 || s[i] == 32 {
        1
    } else if i + 1 < s.len() && s[i] == 0xC2 && (s[i + 1] == 0x85 || s[i + 1] == 0xA0) {
        2
    } else if i + 2 < s.len() && ((s[i] == 0xE1 && s[i + 1] == 0x9A && s[i + 2] == 0x80) || (s[i]
        == 0xE2 && s[i + 1] == 0x80 && (0x80 <= s[i + 2] <= 0x8A || s[i + 2] == 0xA8 || s[i + 2]
        == 0xA9 || s[i + 2] == 0xAF)) || (s[i] == 0xE2 && s[i + 1] == 0x81 && s[i + 2] == 0x9F)
        || (s[i] == 0xE3 && s[i + 1] == 0x80 && s[i + 2] == 0x80)) {
        3
    } else {
        0
    }
}

/// The first place from `i` on at which no white space begins.
pub open spec fn skip_spaces(s: Seq<u8>, i: int) -> int
    decreases s.len() - i,
{
    if space_width(s, i) > 0 {
        skip_spaces(s, i + space_width(s, i))
    } else {
        i
    }
}

/// The first place from `i` on that does not hold the byte `c`.
pub open spec fn skip_byte(s: Seq<u8>, i: int, c: u8) -> int
    decreases s.len() - i,
{
    if 0 <= i < s.len() && s[i] == c {
        skip_byte(s, i + 1, c)
    } else {
        i
    }
}

/// One of the digits 0 to 9.
pub open spec fn is_digit(c: u8) -> bool {
    48 <= c <= 57
}

/// A letter, a digit or a punctuation mark.
pub open spec fn is_name_byte(c: u8) -> bool {
    33 <= c <= 126
}

/// A letter or an underscore.
pub open spec fn is_word_start(c: u8) -> bool {
    65 <= c <= 90 || 97 <= c <= 122 || c == 95
}

/// A letter, a digit or an underscore.
pub open spec fn is_word_byte(c: u8) -> bool {
    is_word_start(c) || is_digit(c)
}

/// The first place from `i` on that holds no digit.
pub open spec fn skip_digits(s: Seq<u8>, i: int) -> int
    decreases s.len() - i,
{
    if 0 <= i < s.len() && is_digit(s[i]) {
        skip_digits(s, i + 1)
    } else {
        i
    }
}

/// The first place from `i` on that holds no letter, digit or punctuation
/// mark.
pub open spec fn skip_name(s: Seq<u8>, i: int) -> int
    decreases s.len() - i,
{
    if 0 <= i < s.len() && is_name_byte(s[i]) {
        skip_name(s, i + 1)
    } else {
        i
    }
}

/// The first place from `i` on that holds no letter, digit or underscore.
pub open spec fn skip_word(s: Seq<u8>, i: int) -> int
    decreases s.len() - i,
{
    if 0 <= i < s.len() && is_word_byte(s[i]) {
        skip_word(s, i + 1)
    } else {
        i
    }
}

/// The bytes of `word` stand at place `i`.
pub open spec fn has_word(s: Seq<u8>, i: int, word: &str) -> bool {
    &&& 0 <= i
    &&& i + word.spec_bytes().len() <= s.len()
    &&& s.subrange(i, i + word.spec_bytes().len()) == word.spec_bytes()
}

/// The place behind the number that begins at `i`: behind a single 0, or
/// behind the digits that follow a digit other than 0; -1 where no digit
/// stands at `i`.
pub open spec fn number_end(s: Seq<u8>, i: int) -> int {
    if !(0 <= i < s.len()) || !is_digit(s[i]) {
        -1
    } else if s[i] == 48 {
        i + 1
    } else {
        skip_digits(s, i + 1)
    }
}

/// The number that the digits from `i` up to, not including, `j` write.
pub open spec fn digits_value(s: Seq<u8>, i: int, j: int) -> int
    decreases j - i,
{
    if j <= i {
        0
    } else {
        digits_value(s, i, j - 1) * 10 + (s[j - 1] - 48)
    }
}

/// The place behind the word that begins at `i`: a letter or an underscore,
/// then letters, digits and underscores; -1 where none begins there.
pub open spec fn word_end(s: Seq<u8>, i: int) -> int {
    if 0 <= i < s.len() && is_word_start(s[i]) {
        skip_word(s, i + 1)
    } else {
        -1
    }
}

/// The place behind the unit that may follow a number: blanks and then a
/// word; `i` itself where no word follows the blanks.
pub open spec fn unit_end(s: Seq<u8>, i: int) -> int {
    if word_end(s, skip_byte(s, i, 32)) >= 0 {
        word_end(s, skip_byte(s, i, 32))
    } else {
        i
    }
}

/// The place behind the end of line that begins at `i`: a line feed, with a
/// carriage return before it or without, a carriage return, a vertical tab, a
/// form feed, or one of the characters next line, line separator and
/// paragraph separator; -1 where none begins there.
pub open spec fn newline_end(s: Seq<u8>, i: int) -> int {
    if !(0 <= i < s.len()) {
        -1
    } else if s[i] == 13 && i + 1 < s.len() && s[i + 1] == 10 {
        i + 2
    } else if 10 <= s[i] <= 13 {
        i + 1
    } else if i + 1 < s.len() && s[i] == 0xC2 && s[i + 1] == 0x85 {
        i + 2
    } else if i + 2 < s.len() && s[i] == 0xE2 && s[i + 1] == 0x80 && (s[i + 2] == 0xA8 || s[i + 2]
        == 0xA9) {
        i + 3
    } else {
        -1
    }
}

/// The first place from `start` on at which no white space begins.
pub fn skip_spaces_from(text: &[u8], start: usize) -> (end: usize)
    requires
        start <= text.len(),
    ensures
        end == skip_spaces(text@, start as int),
        start <= end <= text.len(),
{
    let mut i = start;
    loop
        invariant
            start <= i <= text.len(),
            skip_spaces(text@, i as int) == skip_spaces(text@, start as int),
        ensures
            i == skip_spaces(text@, start as int),
            start <= i <= text.len(),
        decreases text.len() - i,
    {
        let width = space_width_at(text, i);
        if width == 0 {
            break ;
        }
        i += width;
    }
    i
}

/// The number of bytes of the white space character that begins at `i`.
pub fn space_width_at(text: &[u8], i: usize) -> (width: usize)
    requires
        i <= text.len(),
    ensures
        width == space_width(text@, i as int),
        i + width <= text.len(),
{
    let n = text.len();
    if i >= n {
        return 0;
    }
    let c = text[i];
    if (9 <= c && c <= 13) || c == 32 {
        return 1;
    }
    if n - i >= 2 && c == 0xC2 && (text[i + 1] == 0x85 || text[i + 1] == 0xA0) {
        return 2;
    }
    if n - i >= 3 {
        let d = text[i + 1];
        let e = text[i + 2];
        if (c == 0xE1 && d == 0x9A && e == 0x80) || (c == 0xE2 && d == 0x80 && ((0x80 <= e && e
            <= 0x8A) || e == 0xA8 || e == 0xA9 || e == 0xAF)) || (c == 0xE2 && d == 0x81 && e
            == 0x9F) || (c == 0xE3 && d == 0x80 && e == 0x80) {
            return 3;
        }
    }
    0
}

/// The first place from `start` on that does not hold the byte `c`.
pub fn skip_byte_from(text: &[u8], start: usize, c: u8) -> (end: usize)
    requires
        start <= text.len(),
    ensures
        end == skip_byte(text@, start as int, c),
        start <= end <= text.len(),
{
    let mut i = start;
    while i < text.len() && text[i] == c
        invariant
            start <= i <= text.len(),
            skip_byte(text@, i as int, c) == skip_byte(text@, start as int, c),
        decreases text.len() - i,
    {
        i += 1;
    }
    i
}

/// The first place from `start` on that holds no digit.
pub fn skip_digits_from(text: &[u8], start: usize) -> (end: usize)
    requires
        start <= text.len(),
    ensures
        end == skip_digits(text@, start as int),
        start <= end <= text.len(),
{
    let mut i = start;
    while i < text.len() && 48 <= text[i] && text[i] <= 57
        invariant
            start <= i <= text.len(),
            skip_digits(text@, i as int) == skip_digits(text@, start as int),
        decreases text.len() - i,
    {
        i += 1;
    }
    i
}

/// The first place from `start` on that holds no letter, digit or
/// punctuation mark.
pub fn skip_name_from(text: &[u8], start: usize) -> (end: usize)
    requires
        start <= text.len(),
    ensures
        end == skip_name(text@, start as int),
        start <= end <= text.len(),
{
    let mut i = start;
    while i < text.len() && 33 <= text[i] && text[i] <= 126
        invariant
            start <= i <= text.len(),
            skip_name(text@, i as int) == skip_name(text@, start as int),
        decreases text.len() - i,
    {
        i += 1;
    }
    i
}

/// Whether a letter or an underscore.
pub fn word_start(c: u8) -> (yes: bool)
    ensures
        yes == is_word_start(c),
{
    (65 <= c && c <= 90) || (97 <= c && c <= 122) || c == 95
}

/// The first place from `start` on that holds no letter, digit or
/// underscore.
pub fn skip_word_from(text: &[u8], start: usize) -> (end: usize)
    requires
        start <= text.len(),
    ensures
        end == skip_word(text@, start as int),
        start <= end <= text.len(),
{
    let mut i = start;
    while i < text.len() && (word_start(text[i]) || (48 <= text[i] && text[i] <= 57))
        invariant
            start <= i <= text.len(),
            skip_word(text@, i as int) == skip_word(text@, start as int),
        decreases text.len() - i,
    {
        i += 1;
    }
    i
}

/// Whether the bytes of `word` stand at place `start`.
pub fn word_at(text: &[u8], start: usize, word: &str) -> (found: bool)
    requires
        start <= text.len(),
    ensures
        found == has_word(text@, start as int, word),
{
    let bytes = word.as_bytes();
    let n = bytes.len();
    if text.len() - start < n {
        return false;
    }
    let mut k: usize = 0;
    while k < n
        invariant
            bytes@ == word.spec_bytes(),
            n == bytes.len(),
            start + n <= text.len(),
            k <= n,
            forall|j: int| 0 <= j < k ==> text[start + j] == bytes[j],
        decreases n - k,
    {
        if text[start + k] != bytes[k] {
            proof {
                let part = text@.subrange(start as int, start + n);
                assert(part[k as int] == text[start + k]);
            }
            return false;
        }
        k += 1;
    }
    assert(text@.subrange(start as int, start + n) =~= bytes@);
    true
}

/// The place behind the unit that may follow a number.
pub fn unit_end_from(text: &[u8], start: usize) -> (end: usize)
    requires
        start <= text.len(),
    ensures
        end == unit_end(text@, start as int),
        start <= end <= text.len(),
{
    let at = skip_byte_from(text, start, 32);
    if at < text.len() && word_start(text[at]) {
        skip_word_from(text, at + 1)
    } else {
        start
    }
}

/// The place behind the end of line that begins at `start`, if one begins
/// there.
pub fn newline_end_from(text: &[u8], start: usize) -> (end: Option<usize>)
    requires
        start <= text.len(),
    ensures
        match end {
            Some(e) => e == newline_end(text@, start as int) && start < e <= text.len(),
            None => newline_end(text@, start as int) == -1,
        },
{
    let n = text.len();
    if start >= n {
        return None;
    }
    let c = text[start];
    if c == 13 && n - start >= 2 && text[start + 1] == 10 {
        return Some(start + 2);
    }
    if 10 <= c && c <= 13 {
        return Some(start + 1);
    }
    if n - start >= 2 && c == 0xC2 && text[start + 1] == 0x85 {
        return Some(start + 2);
    }
    if n - start >= 3 && c == 0xE2 && text[start + 1] == 0x80 && (text[start + 2] == 0xA8
        || text[start + 2] == 0xA9) {
        return Some(start + 3);
    }
    None
}

/// A run of digits ends neither before it begins nor behind the text, and a
/// number that begins with a digit ends behind it.
pub proof fn lemma_number_end(s: Seq<u8>, i: int)
    requires
        0 <= i <= s.len(),
    ensures
        i <= skip_digits(s, i) <= s.len(),
        i < s.len() && is_digit(s[i]) ==> i < number_end(s, i) <= s.len(),
    decreases s.len() - i,
{
    if i < s.len() {
        lemma_number_end(s, i + 1);
    }
}

/// A number that is written with more digits is no smaller.
pub proof fn lemma_digits_grow(s: Seq<u8>, i: int, j: int, k: int)
    requires
        0 <= i <= j <= k <= s.len(),
        forall|x: int| i <= x < k ==> is_digit(#[trigger] s[x]),
    ensures
        0 <= digits_value(s, i, j) <= digits_value(s, i, k),
    decreases k - i,
{
    if j < k {
        lemma_digits_grow(s, i, j, k - 1);
        assert(is_digit(s[k - 1]));
    } else if i < j {
        lemma_digits_grow(s, i, j - 1, j - 1);
        assert(is_digit(s[j - 1]));
    }
}

/// Digits stand at every place of a run of digits.
pub proof fn lemma_digits_run(s: Seq<u8>, i: int)
    requires
        0 <= i <= s.len(),
    ensures
        forall|x: int| i <= x < skip_digits(s, i) ==> is_digit(#[trigger] s[x]),
    decreases s.len() - i,
{
    if i < s.len() && is_digit(s[i]) {
        lemma_digits_run(s, i + 1);
    }
}

/// The number that begins at `start` and the place behind it, where a number
/// begins there that is not above `most`.
pub open spec fn number_at(s: Seq<u8>, i: int, most: int) -> Option<(int, int)> {
    if number_end(s, i) >= 0 && digits_value(s, i, number_end(s, i)) <= most {
        Some((digits_value(s, i, number_end(s, i)), number_end(s, i)))
    } else {
        None
    }
}

/// Reads the number that begins at `start`, if one begins there that is not
/// above `most`.
pub fn read_number(text: &[u8], start: usize, most: usize) -> (found: Option<(usize, usize)>)
    requires
        start <= text.len(),
    ensures
        match found {
            Some((value, end)) => number_at(text@, start as int, most as int) == Some(
                (value as int, end as int),
            ) && start < end <= text.len(),
            None => number_at(text@, start as int, most as int) is None,
        },
{
    let ghost s = text@;
    if start >= text.len() || !(48 <= text[start] && text[start] <= 57) {
        return None;
    }
    let end = if text[start] == 48 {
        start + 1
    } else {
        skip_digits_from(text, start + 1)
    };
    proof {
        lemma_digits_run(s, start + 1);
        assert forall|x: int| start <= x < end implies is_digit(#[trigger] s[x]) by {}
    }
    let mut value: usize = 0;
    let mut i = start;
    while i < end
        invariant
            s == text@,
            start <= i <= end <= text.len(),
            end == number_end(s, start as int),
            forall|x: int| start <= x < end ==> is_digit(#[trigger] s[x]),
            value == digits_value(s, start as int, i as int),
            value <= most,
        decreases end - i,
    {
        let digit = (text[i] - 48) as usize;
        assert(is_digit(s[i as int]));
        assert(digits_value(s, start as int, i as int + 1) == value * 10 + digit);
        if digit > most || value > (most - digit) / 10 {
            proof {
                lemma_digits_grow(s, start as int, i as int + 1, end as int);
                assert(value * 10 >= 0) by (nonlinear_arith)
                    requires
                        value >= 0,
                ;
                if digit <= most {
                    assert(value * 10 + digit > most) by (nonlinear_arith)
                        requires
                            value > (most - digit) / 10,
                            digit <= most,
                    ;
                }
            }
            return None;
        }
        assert(value * 10 + digit <= most) by (nonlinear_arith)
            requires
                value <= (most - digit) / 10,
                digit <= most,
        ;
        value = value * 10 + digit;
        i += 1;
    }
    Some((value, end))
}

} // verus!
