//! Numeric tokens: which words are decimal literals of a floating-point
//! number, and which consist of numeric characters only.

use vstd::prelude::*;

verus! {

/// Whether `c` is one of the digits `0` to `9`.
pub open spec fn is_digit(c: char) -> bool {
    '0' <= c && c <= '9'
}

/// Whether `c` is a plus or minus sign.
pub open spec fn is_sign(c: char) -> bool {
    c == '+' || c == '-'
}

/// Number of digits that stand in a row from `from` on.
pub open spec fn digits_len(s: Seq<char>, from: int) -> nat
    decreases s.len() - from,
{
    if from < 0 || from >= s.len() || !is_digit(s[from]) {
        0
    } else {
        1 + digits_len(s, from + 1)
    }
}

/// Whether an exponent begins at `at` and runs to the end of `s`: the letter
/// `e` in either case, an optional sign, and at least one digit.
pub open spec fn is_exponent(s: Seq<char>, at: int) -> bool {
    &&& 0 <= at < s.len()
    &&& (s[at] == 'e' || s[at] == 'E')
    &&& {
        let digits = if at + 1 < s.len() && is_sign(s[at + 1]) {
            at + 2
        } else {
            at + 1
        };
        digits_len(s, digits) > 0 && digits + digits_len(s, digits) == s.len()
    }
}

/// Whether a decimal number begins at `from` and runs to the end of `s`:
/// digits, optionally a point and more digits, with at least one digit on
/// either side of the point, and optionally an exponent.
pub open spec fn is_decimal(s: Seq<char>, from: int) -> bool {
    let whole = digits_len(s, from);
    let point = from + whole < s.len() && s[from + whole] == '.';
    let fraction = if point {
        digits_len(s, from + whole + 1)
    } else {
        0
    };
    let end = if point {
        from + whole + 1 + fraction
    } else {
        from + whole
    };
    whole + fraction > 0 && (end == s.len() || is_exponent(s, end))
}

/// Whether `c` is the letter `lower` in either case; `upper` is its capital.
pub open spec fn is_letter(c: char, lower: char, upper: char) -> bool {
    c == lower || c == upper
}

/// Whether the three characters from `from` on spell `inf`, in any case.
pub open spec fn spells_inf(s: Seq<char>, from: int) -> bool {
    &&& 0 <= from && from + 3 <= s.len()
    &&& is_letter(s[from], 'i', 'I')
    &&& is_letter(s[from + 1], 'n', 'N')
    &&& is_letter(s[from + 2], 'f', 'F')
}

/// Whether the five characters from `from` on spell `inity`, in any case.
pub open spec fn spells_inity(s: Seq<char>, from: int) -> bool {
    &&& 0 <= from && from + 5 <= s.len()
    &&& is_letter(s[from], 'i', 'I')
    &&& is_letter(s[from + 1], 'n', 'N')
    &&& is_letter(s[from + 2], 'i', 'I')
    &&& is_letter(s[from + 3], 't', 'T')
    &&& is_letter(s[from + 4], 'y', 'Y')
}

/// Whether the three characters from `from` on spell `nan`, in any case.
pub open spec fn spells_nan(s: Seq<char>, from: int) -> bool {
    &&& 0 <= from && from + 3 <= s.len()
    &&& is_letter(s[from], 'n', 'N')
    &&& is_letter(s[from + 1], 'a', 'A')
    &&& is_letter(s[from + 2], 'n', 'N')
}

/// Whether what stands from `from` to the end of `s` is one of the words
/// `inf`, `infinity` and `nan`, in any case.
pub open spec fn is_special(s: Seq<char>, from: int) -> bool {
    ||| s.len() == from + 3 && (spells_inf(s, from) || spells_nan(s, from))
    ||| s.len() == from + 8 && spells_inf(s, from) && spells_inity(s, from + 3)
}

/// Whether `s` is a literal of a floating-point number: an optional sign, then
/// a decimal number or one of the words `inf`, `infinity` and `nan`.
pub open spec fn is_float_literal(s: Seq<char>) -> bool {
    let body: int = if s.len() > 0 && is_sign(s[0]) {
        1
    } else {
        0
    };
    is_special(s, body) || is_decimal(s, body)
}

/// Names whether `c` belongs to one of Unicode's categories of numbers, as
/// `char::is_numeric` decides it.
pub uninterp spec fn is_numeric_char(c: char) -> bool;

/// Whether every character of `s` is numeric.
pub open spec fn all_numeric(s: Seq<char>) -> bool {
    forall|i: int| 0 <= i < s.len() ==> is_numeric_char(#[trigger] s[i])
}

/// A run of digits ends within the text.
pub proof fn lemma_digits_len_bound(s: Seq<char>, from: int)
    requires
        0 <= from <= s.len(),
    ensures
        from + digits_len(s, from) <= s.len(),
    decreases s.len() - from,
{
    if from < s.len() && is_digit(s[from]) {
        lemma_digits_len_bound(s, from + 1);
    }
}

/// `char::is_numeric` of std: whether the character belongs to one of the
/// general categories of numbers. The contract only gives the answer its name.
#[verifier::external_body]
fn char_is_numeric(c: char) -> (b: bool)
    ensures
        b == is_numeric_char(c),
{
    c.is_numeric()
}

/// Whether every character of `word` is numeric.
pub fn is_numeric_word(word: &[char]) -> (b: bool)
    ensures
        b == all_numeric(word@),
{
    let mut i: usize = 0;
    while i < word.len()
        invariant
            i <= word@.len(),
            forall|k: int| 0 <= k < i ==> is_numeric_char(#[trigger] word@[k]),
        decreases word@.len() - i,
    {
        if !char_is_numeric(word[i]) {
            return false;
        }
        i += 1;
    }
    true
}

/// Whether `c` is a digit.
fn char_is_digit(c: char) -> (b: bool)
    ensures
        b == is_digit(c),
{
    '0' <= c && c <= '9'
}

/// Whether `c` is a sign.
fn char_is_sign(c: char) -> (b: bool)
    ensures
        b == is_sign(c),
{
    c == '+' || c == '-'
}

/// Index of the first character at or after `from` that is no digit.
fn skip_digits(word: &[char], from: usize) -> (end: usize)
    requires
        from <= word@.len(),
    ensures
        end == from + digits_len(word@, from as int),
        end <= word@.len(),
{
    let mut end: usize = from;
    while end < word.len() && char_is_digit(word[end])
        invariant
            from <= end <= word@.len(),
            end + digits_len(word@, end as int) == from + digits_len(word@, from as int),
        decreases word@.len() - end,
    {
        end += 1;
    }
    end
}

/// Whether an exponent runs from `at` to the end of `word`.
fn accepts_exponent(word: &[char], at: usize) -> (b: bool)
    requires
        at <= word@.len(),
    ensures
        b == is_exponent(word@, at as int),
{
    if at >= word.len() || !(word[at] == 'e' || word[at] == 'E') {
        return false;
    }
    let digits: usize = if at + 1 < word.len() && char_is_sign(word[at + 1]) {
        at + 2
    } else {
        at + 1
    };
    let end = skip_digits(word, digits);
    end > digits && end == word.len()
}

/// Whether a decimal number runs from `from` to the end of `word`.
fn accepts_decimal(word: &[char], from: usize) -> (b: bool)
    requires
        from <= word@.len(),
    ensures
        b == is_decimal(word@, from as int),
{
    let point = skip_digits(word, from);
    let end: usize = if point < word.len() && word[point] == '.' {
        skip_digits(word, point + 1)
    } else {
        point
    };
    let digits: bool = if point < word.len() && word[point] == '.' {
        point > from || end > point + 1
    } else {
        point > from
    };
    digits && (end == word.len() || accepts_exponent(word, end))
}

/// Whether one of the three words runs from `from` to the end of `word`.
fn accepts_special(word: &[char], from: usize) -> (b: bool)
    requires
        from <= word@.len(),
    ensures
        b == is_special(word@, from as int),
{
    let rest: usize = word.len() - from;
    if rest == 3 {
        let inf = (word[from] == 'i' || word[from] == 'I') && (word[from + 1] == 'n' || word[from
            + 1] == 'N') && (word[from + 2] == 'f' || word[from + 2] == 'F');
        let nan = (word[from] == 'n' || word[from] == 'N') && (word[from + 1] == 'a' || word[from
            + 1] == 'A') && (word[from + 2] == 'n' || word[from + 2] == 'N');
        inf || nan
    } else if rest == 8 {
        (word[from] == 'i' || word[from] == 'I') && (word[from + 1] == 'n' || word[from + 1]
            == 'N') && (word[from + 2] == 'f' || word[from + 2] == 'F') && (word[from + 3] == 'i'
            || word[from + 3] == 'I') && (word[from + 4] == 'n' || word[from + 4] == 'N') && (
        word[from + 5] == 'i' || word[from + 5] == 'I') && (word[from + 6] == 't' || word[from
            + 6] == 'T') && (word[from + 7] == 'y' || word[from + 7] == 'Y')
    } else {
        false
    }
}

/// Whether `word` is a literal of a floating-point number.
pub fn accepts_float(word: &[char]) -> (b: bool)
    ensures
        b == is_float_literal(word@),
{
    let body: usize = if word.len() > 0 && char_is_sign(word[0]) {
        1
    } else {
        0
    };
    accepts_special(word, body) || accepts_decimal(word, body)
}

} // verus!
