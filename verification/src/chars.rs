//! Character classification and line/column accounting.
//!
//! The scanner works on a random-access buffer of characters.  The spec
//! functions here classify single characters and define, for a position in
//! the buffer, the line and column that the cursor reports there: consuming a
//! newline increments the line and resets the column to zero, consuming any
//! other character increments the column.

use vstd::prelude::*;

verus! {

/// Whitespace that is skipped between tokens.
pub open spec fn is_space_char(c: char) -> bool {
    c == ' ' || c == '\r' || c == '\t' || c == '\n'
}

/// ASCII decimal digit.
pub open spec fn is_digit_char(c: char) -> bool {
    48 <= c as u32 && c as u32 <= 57
}

/// ASCII hexadecimal digit.
pub open spec fn is_hex_digit_char(c: char) -> bool {
    is_digit_char(c) || (65 <= c as u32 && c as u32 <= 70) || (97 <= c as u32 && c as u32 <= 102)
}

/// ASCII letter.
pub open spec fn is_ascii_alpha_char(c: char) -> bool {
    (65 <= c as u32 && c as u32 <= 90) || (97 <= c as u32 && c as u32 <= 122)
}

pub fn is_space(c: char) -> (r: bool)
    ensures
        r == is_space_char(c),
{
    c == ' ' || c == '\r' || c == '\t' || c == '\n'
}

pub fn is_digit(c: char) -> (r: bool)
    ensures
        r == is_digit_char(c),
{
    let u = c as u32;
    48 <= u && u <= 57
}

pub fn is_hex_digit(c: char) -> (r: bool)
    ensures
        r == is_hex_digit_char(c),
{
    let u = c as u32;
    (48 <= u && u <= 57) || (65 <= u && u <= 70) || (97 <= u && u <= 102)
}

pub fn is_ascii_alpha(c: char) -> (r: bool)
    ensures
        r == is_ascii_alpha_char(c),
{
    let u = c as u32;
    (65 <= u && u <= 90) || (97 <= u && u <= 122)
}

/// Whether a character may appear inside an identifier, after its first
/// character: Unicode alphanumeric, or an underscore.
pub uninterp spec fn alphanumeric_char(c: char) -> bool;

/// Whether a character may begin an identifier under the defensive check of
/// the identifier reader: Unicode alphabetic.
pub uninterp spec fn alphabetic_char(c: char) -> bool;

/// Relies on char::is_alphanumeric: a deterministic classification of the
/// character alone; ASCII letters and digits are alphanumeric.
#[verifier::external_body]
pub fn is_alphanumeric_char(c: char) -> (r: bool)
    ensures
        r == alphanumeric_char(c),
        is_digit_char(c) || is_ascii_alpha_char(c) ==> r,
{
    c.is_alphanumeric()
}

/// Relies on char::is_alphabetic: a deterministic classification of the
/// character alone; ASCII letters are alphabetic.
#[verifier::external_body]
pub fn is_alphabetic_char(c: char) -> (r: bool)
    ensures
        r == alphabetic_char(c),
        is_ascii_alpha_char(c) ==> r,
{
    c.is_alphabetic()
}

/// Relies on String::push: appends exactly the given character.
#[verifier::external_body]
pub fn push_char(s: &mut String, c: char)
    ensures
        final(s)@ == old(s)@.push(c),
{
    s.push(c);
}

/// Number of newline characters in a sequence.
pub open spec fn newline_count(s: Seq<char>) -> int
    decreases s.len(),
{
    if s.len() == 0 {
        0
    } else {
        newline_count(s.drop_last()) + if s.last() == '\n' {
            1int
        } else {
            0int
        }
    }
}

/// Line reported at buffer position `i`: one more than the number of
/// newlines already consumed.
pub open spec fn line_at(src: Seq<char>, i: int) -> int {
    1 + newline_count(src.take(i))
}

/// Column reported at buffer position `i`: the number of characters consumed
/// since the last newline.
pub open spec fn col_at(src: Seq<char>, i: int) -> int
    decreases i,
{
    if i <= 0 {
        0
    } else if src[i - 1] == '\n' {
        0
    } else {
        col_at(src, i - 1) + 1
    }
}

pub proof fn lemma_newline_count_nonneg(s: Seq<char>)
    ensures
        0 <= newline_count(s) <= s.len(),
    decreases s.len(),
{
    if s.len() > 0 {
        lemma_newline_count_nonneg(s.drop_last());
    }
}

/// Consuming one character advances the line count by one exactly when the
/// character is a newline.
pub proof fn lemma_line_at_step(src: Seq<char>, i: int)
    requires
        0 <= i < src.len(),
    ensures
        line_at(src, i + 1) == line_at(src, i) + if src[i] == '\n' {
            1int
        } else {
            0int
        },
{
    assert(src.take(i + 1).drop_last() =~= src.take(i));
    assert(src.take(i + 1).last() == src[i]);
}

pub proof fn lemma_line_at_bounds(src: Seq<char>, i: int)
    requires
        0 <= i <= src.len(),
    ensures
        1 <= line_at(src, i) <= 1 + i,
{
    lemma_newline_count_nonneg(src.take(i));
}

pub proof fn lemma_col_at_bounds(src: Seq<char>, i: int)
    requires
        0 <= i,
    ensures
        0 <= col_at(src, i) <= i,
    decreases i,
{
    if i > 0 && src[i - 1] != '\n' {
        lemma_col_at_bounds(src, i - 1);
    }
}

/// The line number never decreases as the cursor moves forward.
pub proof fn lemma_line_at_mono(src: Seq<char>, i: int, j: int)
    requires
        0 <= i <= j <= src.len(),
    ensures
        line_at(src, i) <= line_at(src, j),
    decreases j - i,
{
    if i < j {
        lemma_line_at_step(src, j - 1);
        lemma_line_at_mono(src, i, j - 1);
    }
}

/// Advancing over a run of characters that contains no newline leaves the
/// line unchanged and adds the run's length to the column.
pub proof fn lemma_advance_over_plain(src: Seq<char>, a: int, b: int)
    requires
        0 <= a <= b <= src.len(),
        forall|k: int| a <= k < b ==> src[k] != '\n',
    ensures
        line_at(src, b) == line_at(src, a),
        col_at(src, b) == col_at(src, a) + (b - a),
    decreases b - a,
{
    if a < b {
        lemma_line_at_step(src, b - 1);
        lemma_advance_over_plain(src, a, b - 1);
    }
}

/// Line one, column zero, is only ever reported at the start of the buffer.
pub proof fn lemma_start_of_buffer(src: Seq<char>, i: int)
    requires
        0 <= i <= src.len(),
        line_at(src, i) == 1,
        col_at(src, i) == 0,
    ensures
        i == 0,
{
    if i > 0 {
        if src[i - 1] == '\n' {
            lemma_line_at_step(src, i - 1);
            lemma_line_at_bounds(src, i - 1);
        } else {
            lemma_col_at_bounds(src, i - 1);
        }
    }
}

} // verus!
