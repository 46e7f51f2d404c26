//! The mathematical model of the scanner.
//!
//! `lex(src, i)` gives the complete result of scanning `src` from position
//! `i`: the ordered sequence of tokens, or the first lexical error.  It is
//! built from one dispatch step, `step(src, i)`, which classifies the
//! character at `i` and says how far the scanner moves, which token (if any)
//! it emits, and where it fails.  The executable scanner in `lexer` is proved
//! to return exactly `lex(src, 0)`.

use vstd::prelude::*;

use crate::chars::{
    alphabetic_char, alphanumeric_char, is_ascii_alpha_char, is_digit_char, is_hex_digit_char,
    is_space_char, line_at,
};
use crate::token::{ScanErrorKind, SpecLexeme, SpecToken, TokenType};

verus! {

/// End of a line comment or shebang line: the index just past the next
/// newline, or the end of input.
pub open spec fn line_skip_end(src: Seq<char>, i: int) -> int
    decreases src.len() - i,
{
    if i < 0 || i >= src.len() {
        src.len() as int
    } else if src[i] == '\n' {
        i + 1
    } else {
        line_skip_end(src, i + 1)
    }
}

/// End of a run of decimal digits starting at `i`.
pub open spec fn digits_end(src: Seq<char>, i: int) -> int
    decreases src.len() - i,
{
    if 0 <= i < src.len() && is_digit_char(src[i]) {
        digits_end(src, i + 1)
    } else {
        i
    }
}

/// End of a run of hexadecimal digits starting at `i`.
pub open spec fn hex_digits_end(src: Seq<char>, i: int) -> int
    decreases src.len() - i,
{
    if 0 <= i < src.len() && is_hex_digit_char(src[i]) {
        hex_digits_end(src, i + 1)
    } else {
        i
    }
}

/// Whether a hexadecimal literal (`0x` or `0X` followed by a hex digit)
/// starts at `i`.
pub open spec fn is_hex_start(src: Seq<char>, i: int) -> bool {
    &&& 0 <= i && i + 2 < src.len()
    &&& src[i] == '0'
    &&& (src[i + 1] == 'x' || src[i + 1] == 'X')
    &&& is_hex_digit_char(src[i + 2])
}

/// End of an exponent suffix at `j`: `e` or `E`, an optional sign, then at
/// least one digit; anything less is not consumed.
pub open spec fn exponent_end(src: Seq<char>, j: int) -> int {
    if 0 <= j && j < src.len() && (src[j] == 'e' || src[j] == 'E') {
        if j + 1 < src.len() && is_digit_char(src[j + 1]) {
            digits_end(src, j + 1)
        } else if j + 2 < src.len() && (src[j + 1] == '+' || src[j + 1] == '-') && is_digit_char(
            src[j + 2],
        ) {
            digits_end(src, j + 2)
        } else {
            j
        }
    } else {
        j
    }
}

/// Whether a numeric literal starts at `i`: a digit, or a dot followed by a
/// digit.
pub open spec fn is_number_start(src: Seq<char>, i: int) -> bool {
    &&& 0 <= i < src.len()
    &&& (is_digit_char(src[i]) || (src[i] == '.' && i + 1 < src.len() && is_digit_char(
        src[i + 1],
    )))
}

/// End of the numeric literal starting at `i`: a hex literal, or an integer
/// part, an optional fraction introduced by a dot, and an optional exponent.
pub open spec fn number_end(src: Seq<char>, i: int) -> int {
    if is_hex_start(src, i) {
        hex_digits_end(src, i + 2)
    } else {
        let j1 = digits_end(src, i);
        let j2 = if 0 <= j1 && j1 < src.len() && src[j1] == '.' {
            digits_end(src, j1 + 1)
        } else {
            j1
        };
        exponent_end(src, j2)
    }
}

/// End of the identifier whose first character stands just before `j`:
/// consume while alphanumeric or underscore.
pub open spec fn ident_cont_end(src: Seq<char>, j: int) -> int
    decreases src.len() - j,
{
    if 0 <= j < src.len() && (alphanumeric_char(src[j]) || src[j] == '_') {
        ident_cont_end(src, j + 1)
    } else {
        j
    }
}

/// The keyword a given identifier text stands for, or `Identifier` if none.
/// `goto` is not here: it is rejected before a token is formed.
pub open spec fn keyword_kind(s: Seq<char>) -> TokenType {
    if s =~= "and"@ {
        TokenType::And
    } else if s =~= "break"@ {
        TokenType::Break
    } else if s =~= "do"@ {
        TokenType::Do
    } else if s =~= "else"@ {
        TokenType::Else
    } else if s =~= "elseif"@ {
        TokenType::ElseIf
    } else if s =~= "end"@ {
        TokenType::End
    } else if s =~= "false"@ {
        TokenType::False
    } else if s =~= "for"@ {
        TokenType::For
    } else if s =~= "function"@ {
        TokenType::Function
    } else if s =~= "if"@ {
        TokenType::If
    } else if s =~= "in"@ {
        TokenType::In
    } else if s =~= "local"@ {
        TokenType::Local
    } else if s =~= "nil"@ {
        TokenType::Nil
    } else if s =~= "not"@ {
        TokenType::Not
    } else if s =~= "or"@ {
        TokenType::Or
    } else if s =~= "repeat"@ {
        TokenType::Repeat
    } else if s =~= "return"@ {
        TokenType::Return
    } else if s =~= "then"@ {
        TokenType::Then
    } else if s =~= "true"@ {
        TokenType::True
    } else if s =~= "until"@ {
        TokenType::Until
    } else if s =~= "while"@ {
        TokenType::While
    } else {
        TokenType::Identifier
    }
}

/// Scanning a single-line string from just after its opening quote: the
/// index just past the closing quote, or the error and the index where it is
/// detected.  A backslash consumes the following character unconditionally;
/// a bare newline or the end of input before the closing quote fails.
pub open spec fn string_end(src: Seq<char>, i: int, quote: char) -> Result<int, (ScanErrorKind, int)>
    decreases src.len() - i,
{
    if i < 0 {
        Err((ScanErrorKind::UnterminatedString, 0))
    } else if i >= src.len() {
        Err((ScanErrorKind::UnterminatedString, src.len() as int))
    } else if src[i] == quote {
        Ok(i + 1)
    } else if src[i] == '\n' {
        Err((ScanErrorKind::UnterminatedString, i))
    } else if src[i] == '\\' {
        if i + 1 < src.len() {
            string_end(src, i + 2, quote)
        } else {
            Err((ScanErrorKind::UnterminatedEscapeSequence, src.len() as int))
        }
    } else {
        string_end(src, i + 1, quote)
    }
}

/// The opening of a long bracket, from just after its first `[`: the index
/// just past the second `[`, and the number of `=` seen before it; `None`
/// when the end of input comes first.
pub open spec fn long_open(src: Seq<char>, i: int) -> Option<(int, int)>
    decreases src.len() - i,
{
    if i < 0 || i >= src.len() {
        None
    } else if src[i] == '[' {
        Some((i + 1, 0))
    } else {
        match long_open(src, i + 1) {
            Some((j, n)) => Some(
                (
                    j,
                    n + if src[i] == '=' {
                        1int
                    } else {
                        0int
                    },
                ),
            ),
            None => None,
        }
    }
}

/// Length of the run of `=` characters starting at `i`.
pub open spec fn eq_run_len(src: Seq<char>, i: int) -> int
    decreases src.len() - i,
{
    if 0 <= i < src.len() && src[i] == '=' {
        1 + eq_run_len(src, i + 1)
    } else {
        0
    }
}

/// The close of a long bracket: scanning from `i`, the index just past the
/// first `]` that is followed by exactly `eq` `=` signs and another `]`;
/// `None` when the end of input comes first.
pub open spec fn long_close(src: Seq<char>, i: int, eq: int) -> Option<int>
    decreases src.len() - i,
{
    if i < 0 || i >= src.len() {
        None
    } else if src[i] == ']' && eq_run_len(src, i + 1) == eq && i + 1 + eq < src.len() && src[i + 1
        + eq] == ']' {
        Some(i + eq + 2)
    } else {
        long_close(src, i + 1, eq)
    }
}

/// A whole long bracket from just after its first `[`: the index just past
/// its closer, or `None` when it never closes.
pub open spec fn long_bracket_end(src: Seq<char>, i: int) -> Option<int> {
    match long_open(src, i) {
        Some((j, eq)) => long_close(src, j, eq),
        None => None,
    }
}

/// What one dispatch step does, scanning from position `i`: move to `end`
/// emitting nothing, move to `end` emitting one token, or fail at `at`.
pub enum LexStep {
    Skip { skip_end: int },
    Emit { kind: TokenType, end: int },
    Fail { err: ScanErrorKind, at: int },
}

/// The token emitted by a step that consumed `src[i..end)`: its lexeme is
/// exactly that text, and its line is the line reported at `end`.
pub open spec fn mk_token(src: Seq<char>, i: int, kind: TokenType, end: int) -> SpecToken {
    SpecToken {
        kind,
        lexeme: if kind is Number {
            SpecLexeme::Number(src.subrange(i, end))
        } else {
            SpecLexeme::Symbol(src.subrange(i, end))
        },
        line: line_at(src, end),
    }
}

/// One dispatch step of the scanner at position `i` (with `0 <= i <
/// src.len()`), classifying `src[i]` by the rules of the grammar.
pub open spec fn step(src: Seq<char>, i: int) -> LexStep {
    let c = src[i];
    let len = src.len() as int;
    if is_space_char(c) {
        LexStep::Skip { skip_end: i + 1 }
    } else if c == '(' {
        LexStep::Emit { kind: TokenType::LeftParen, end: i + 1 }
    } else if c == ')' {
        LexStep::Emit { kind: TokenType::RightParen, end: i + 1 }
    } else if c == '{' {
        LexStep::Emit { kind: TokenType::LeftBrace, end: i + 1 }
    } else if c == '}' {
        LexStep::Emit { kind: TokenType::RightBrace, end: i + 1 }
    } else if c == ']' {
        LexStep::Emit { kind: TokenType::RightBracket, end: i + 1 }
    } else if c == '+' {
        LexStep::Emit { kind: TokenType::Plus, end: i + 1 }
    } else if c == '*' {
        LexStep::Emit { kind: TokenType::Star, end: i + 1 }
    } else if c == '%' {
        LexStep::Emit { kind: TokenType::Percent, end: i + 1 }
    } else if c == '^' {
        LexStep::Emit { kind: TokenType::Caret, end: i + 1 }
    } else if c == ';' {
        LexStep::Emit { kind: TokenType::Semicolon, end: i + 1 }
    } else if c == ',' {
        LexStep::Emit { kind: TokenType::Comma, end: i + 1 }
    } else if c == '&' {
        LexStep::Emit { kind: TokenType::BitAnd, end: i + 1 }
    } else if c == '|' {
        LexStep::Emit { kind: TokenType::BitOr, end: i + 1 }
    } else if c == '[' {
        if i + 1 < len && (src[i + 1] == '[' || src[i + 1] == '=') {
            match long_bracket_end(src, i + 1) {
                Some(e) => LexStep::Emit { kind: TokenType::MultilineString, end: e },
                None => LexStep::Fail {
                    err: ScanErrorKind::UnterminatedLongBracket { comment: false },
                    at: len,
                },
            }
        } else {
            LexStep::Emit { kind: TokenType::LeftBracket, end: i + 1 }
        }
    } else if c == '-' {
        if i + 1 < len && src[i + 1] == '-' {
            if i + 3 < len && src[i + 2] == '[' && (src[i + 3] == '[' || src[i + 3] == '=') {
                match long_bracket_end(src, i + 3) {
                    Some(e) => LexStep::Skip { skip_end: e },
                    None => LexStep::Fail {
                        err: ScanErrorKind::UnterminatedLongBracket { comment: true },
                        at: len,
                    },
                }
            } else {
                LexStep::Skip { skip_end: line_skip_end(src, i + 2) }
            }
        } else {
            LexStep::Emit { kind: TokenType::Minus, end: i + 1 }
        }
    } else if c == '#' {
        if i == 0 {
            LexStep::Skip { skip_end: line_skip_end(src, 1) }
        } else {
            LexStep::Emit { kind: TokenType::Hash, end: i + 1 }
        }
    } else if c == '/' {
        if i + 1 < len && src[i + 1] == '/' {
            LexStep::Emit { kind: TokenType::FloorDiv, end: i + 2 }
        } else {
            LexStep::Emit { kind: TokenType::Slash, end: i + 1 }
        }
    } else if c == '=' {
        if i + 1 < len && src[i + 1] == '=' {
            LexStep::Emit { kind: TokenType::DoubleEquals, end: i + 2 }
        } else {
            LexStep::Emit { kind: TokenType::Equals, end: i + 1 }
        }
    } else if c == '~' {
        if i + 1 < len && src[i + 1] == '=' {
            LexStep::Emit { kind: TokenType::NotEquals, end: i + 2 }
        } else {
            LexStep::Emit { kind: TokenType::Tilde, end: i + 1 }
        }
    } else if c == '<' {
        if i + 1 < len && src[i + 1] == '=' {
            LexStep::Emit { kind: TokenType::LessThanOrEqual, end: i + 2 }
        } else if i + 1 < len && src[i + 1] == '<' {
            LexStep::Emit { kind: TokenType::BitShiftLeft, end: i + 2 }
        } else {
            LexStep::Emit { kind: TokenType::LessThan, end: i + 1 }
        }
    } else if c == '>' {
        if i + 1 < len && src[i + 1] == '=' {
            LexStep::Emit { kind: TokenType::GreaterThanOrEqual, end: i + 2 }
        } else if i + 1 < len && src[i + 1] == '>' {
            LexStep::Emit { kind: TokenType::BitShiftRight, end: i + 2 }
        } else {
            LexStep::Emit { kind: TokenType::GreaterThan, end: i + 1 }
        }
    } else if c == '.' {
        if i + 2 < len && src[i + 1] == '.' && src[i + 2] == '.' {
            LexStep::Emit { kind: TokenType::TripleDot, end: i + 3 }
        } else if i + 1 < len && is_digit_char(src[i + 1]) {
            LexStep::Emit { kind: TokenType::Number, end: number_end(src, i) }
        } else if i + 1 < len && src[i + 1] == '.' {
            LexStep::Emit { kind: TokenType::DoubleDot, end: i + 2 }
        } else {
            LexStep::Emit { kind: TokenType::Dot, end: i + 1 }
        }
    } else if c == ':' {
        if i + 1 < len && src[i + 1] == ':' {
            LexStep::Fail { err: ScanErrorKind::UnsupportedFeature, at: i + 1 }
        } else {
            LexStep::Emit { kind: TokenType::Colon, end: i + 1 }
        }
    } else if c == '"' || c == '\'' {
        match string_end(src, i + 1, c) {
            Ok(e) => LexStep::Emit { kind: TokenType::String, end: e },
            Err((k, at)) => LexStep::Fail { err: k, at },
        }
    } else if is_digit_char(c) {
        LexStep::Emit { kind: TokenType::Number, end: number_end(src, i) }
    } else if is_ascii_alpha_char(c) || c == '_' {
        if c != '_' && !alphabetic_char(c) {
            LexStep::Fail { err: ScanErrorKind::InvalidIdentifierStart, at: i }
        } else {
            let e = ident_cont_end(src, i + 1);
            if src.subrange(i, e) =~= "goto"@ {
                LexStep::Fail { err: ScanErrorKind::UnsupportedFeature, at: e }
            } else {
                LexStep::Emit { kind: keyword_kind(src.subrange(i, e)), end: e }
            }
        }
    } else {
        LexStep::Fail { err: ScanErrorKind::UnexpectedCharacter, at: i + 1 }
    }
}

/// The complete result of scanning from position `i`: every later token in
/// order, or the first error.
pub open spec fn lex(src: Seq<char>, i: int) -> Result<Seq<SpecToken>, (ScanErrorKind, int)>
    decreases src.len() - i,
{
    if i < 0 || i >= src.len() {
        Ok(Seq::empty())
    } else {
        match step(src, i) {
            LexStep::Skip { skip_end } => if i < skip_end <= src.len() {
                lex(src, skip_end)
            } else {
                Ok(Seq::empty())
            },
            LexStep::Emit { kind, end } => if i < end <= src.len() {
                match lex(src, end) {
                    Ok(rest) => Ok(seq![mk_token(src, i, kind, end)] + rest),
                    Err(e) => Err(e),
                }
            } else {
                Ok(Seq::empty())
            },
            LexStep::Fail { err, at } => Err((err, at)),
        }
    }
}

/// Tokens already emitted, spliced onto the result of scanning the rest.
pub open spec fn lex_combine(
    pre: Seq<SpecToken>,
    r: Result<Seq<SpecToken>, (ScanErrorKind, int)>,
) -> Result<Seq<SpecToken>, (ScanErrorKind, int)> {
    match r {
        Ok(ts) => Ok(pre + ts),
        Err(e) => Err(e),
    }
}

/// A counted run of `=` is exactly `eq_run_len`.
pub proof fn lemma_eq_run_char(src: Seq<char>, a: int, k: int)
    requires
        0 <= a,
        0 <= k,
        a + k <= src.len(),
        forall|m: int| a <= m < a + k ==> src[m] == '=',
        a + k == src.len() || src[a + k] != '=',
    ensures
        eq_run_len(src, a) == k,
    decreases k,
{
    if k == 0 {
        assert(a < src.len() ==> src[a] != '=');
    } else {
        assert(src[a] == '=');
        lemma_eq_run_char(src, a + 1, k - 1);
    }
}

/// A step that skips moves the splice point forward without changing the
/// result.
pub proof fn lemma_lex_skip(src: Seq<char>, i: int, pre: Seq<SpecToken>)
    requires
        0 <= i < src.len(),
        step(src, i) is Skip,
        lex_combine(pre, lex(src, i)) == lex(src, 0),
    ensures
        step(src, i) matches LexStep::Skip { skip_end } && i < skip_end <= src.len() && lex_combine(
            pre,
            lex(src, skip_end),
        ) == lex(src, 0),
{
    lemma_step_in_range(src, i);
    let end = step(src, i)->skip_end;
    assert(lex(src, i) == lex(src, end));
}

/// A step that emits a token appends it to the splice and moves forward.
pub proof fn lemma_lex_emit(src: Seq<char>, i: int, kind: TokenType, end: int, pre: Seq<SpecToken>)
    requires
        0 <= i < src.len(),
        step(src, i) == (LexStep::Emit { kind, end }),
        lex_combine(pre, lex(src, i)) == lex(src, 0),
    ensures
        i < end <= src.len(),
        lex_combine(pre.push(mk_token(src, i, kind, end)), lex(src, end)) == lex(src, 0),
{
    lemma_step_in_range(src, i);
    let t = mk_token(src, i, kind, end);
    match lex(src, end) {
        Ok(rest) => {
            assert(lex(src, i) == Ok::<Seq<SpecToken>, (ScanErrorKind, int)>(seq![t] + rest));
            assert(pre + (seq![t] + rest) =~= pre.push(t) + rest);
        },
        Err(e) => {
            assert(lex(src, i) == Err::<Seq<SpecToken>, (ScanErrorKind, int)>(e));
        },
    }
}

/// A step that fails makes the whole scan fail with its error.
pub proof fn lemma_lex_fail(src: Seq<char>, i: int, pre: Seq<SpecToken>)
    requires
        0 <= i < src.len(),
        step(src, i) is Fail,
        lex_combine(pre, lex(src, i)) == lex(src, 0),
    ensures
        step(src, i) matches LexStep::Fail { err, at } && lex(src, 0) == Err::<
            Seq<SpecToken>,
            (ScanErrorKind, int),
        >((err, at)),
{
    let kind = step(src, i)->err;
    let at = step(src, i)->at;
    assert(lex(src, i) == Err::<Seq<SpecToken>, (ScanErrorKind, int)>((kind, at)));
}

/// Bounds of the helper scans: each stays inside the buffer and, where it
/// must, makes progress.
pub proof fn lemma_line_skip_end_bounds(src: Seq<char>, i: int)
    requires
        0 <= i <= src.len(),
    ensures
        i <= line_skip_end(src, i) <= src.len(),
    decreases src.len() - i,
{
    if i < src.len() && src[i] != '\n' {
        lemma_line_skip_end_bounds(src, i + 1);
    }
}

pub proof fn lemma_digits_end_bounds(src: Seq<char>, i: int)
    requires
        0 <= i <= src.len(),
    ensures
        i <= digits_end(src, i) <= src.len(),
        i < src.len() && is_digit_char(src[i]) ==> i + 1 <= digits_end(src, i),
    decreases src.len() - i,
{
    if i < src.len() && is_digit_char(src[i]) {
        lemma_digits_end_bounds(src, i + 1);
    }
}

pub proof fn lemma_hex_digits_end_bounds(src: Seq<char>, i: int)
    requires
        0 <= i <= src.len(),
    ensures
        i <= hex_digits_end(src, i) <= src.len(),
        i < src.len() && is_hex_digit_char(src[i]) ==> i + 1 <= hex_digits_end(src, i),
    decreases src.len() - i,
{
    if i < src.len() && is_hex_digit_char(src[i]) {
        lemma_hex_digits_end_bounds(src, i + 1);
    }
}

pub proof fn lemma_number_end_bounds(src: Seq<char>, i: int)
    requires
        is_number_start(src, i),
    ensures
        i < number_end(src, i) <= src.len(),
{
    if is_hex_start(src, i) {
        lemma_hex_digits_end_bounds(src, i + 2);
    } else {
        lemma_digits_end_bounds(src, i);
        let j1 = digits_end(src, i);
        if 0 <= j1 && j1 < src.len() && src[j1] == '.' {
            lemma_digits_end_bounds(src, j1 + 1);
        }
        let j2 = if 0 <= j1 && j1 < src.len() && src[j1] == '.' {
            digits_end(src, j1 + 1)
        } else {
            j1
        };
        if 0 <= j2 && j2 < src.len() && (src[j2] == 'e' || src[j2] == 'E') {
            if j2 + 1 < src.len() && is_digit_char(src[j2 + 1]) {
                lemma_digits_end_bounds(src, j2 + 1);
            } else if j2 + 2 < src.len() && (src[j2 + 1] == '+' || src[j2 + 1] == '-')
                && is_digit_char(src[j2 + 2]) {
                lemma_digits_end_bounds(src, j2 + 2);
            }
        }
    }
}

pub proof fn lemma_ident_cont_end_bounds(src: Seq<char>, j: int)
    requires
        0 <= j <= src.len(),
    ensures
        j <= ident_cont_end(src, j) <= src.len(),
    decreases src.len() - j,
{
    if j < src.len() && (alphanumeric_char(src[j]) || src[j] == '_') {
        lemma_ident_cont_end_bounds(src, j + 1);
    }
}

pub proof fn lemma_string_end_bounds(src: Seq<char>, i: int, quote: char)
    requires
        0 <= i <= src.len(),
    ensures
        match string_end(src, i, quote) {
            Ok(e) => i < e <= src.len(),
            Err((_, at)) => 0 <= at <= src.len(),
        },
    decreases src.len() - i,
{
    if i < src.len() && src[i] != quote && src[i] != '\n' {
        if src[i] == '\\' {
            if i + 1 < src.len() {
                lemma_string_end_bounds(src, i + 2, quote);
            }
        } else {
            lemma_string_end_bounds(src, i + 1, quote);
        }
    }
}

pub proof fn lemma_long_open_bounds(src: Seq<char>, i: int)
    requires
        0 <= i <= src.len(),
    ensures
        match long_open(src, i) {
            Some((j, eq)) => i < j <= src.len() && 0 <= eq,
            None => true,
        },
    decreases src.len() - i,
{
    if i < src.len() && src[i] != '[' {
        lemma_long_open_bounds(src, i + 1);
    }
}

pub proof fn lemma_long_close_bounds(src: Seq<char>, i: int, eq: int)
    requires
        0 <= i <= src.len(),
        0 <= eq,
    ensures
        match long_close(src, i, eq) {
            Some(e) => i < e <= src.len(),
            None => true,
        },
    decreases src.len() - i,
{
    if i < src.len() {
        if src[i] == ']' && eq_run_len(src, i + 1) == eq && i + 1 + eq < src.len() && src[i + 1
            + eq] == ']' {
        } else {
            lemma_long_close_bounds(src, i + 1, eq);
        }
    }
}

pub proof fn lemma_long_bracket_end_bounds(src: Seq<char>, i: int)
    requires
        0 <= i <= src.len(),
    ensures
        match long_bracket_end(src, i) {
            Some(e) => i < e <= src.len(),
            None => true,
        },
{
    lemma_long_open_bounds(src, i);
    match long_open(src, i) {
        Some((j, eq)) => lemma_long_close_bounds(src, j, eq),
        None => {},
    }
}

/// Every step stays inside the buffer and, when it moves, moves forward.
pub proof fn lemma_step_in_range(src: Seq<char>, i: int)
    requires
        0 <= i < src.len(),
    ensures
        match step(src, i) {
            LexStep::Skip { skip_end } => i < skip_end <= src.len(),
            LexStep::Emit { kind, end } => i < end <= src.len(),
            LexStep::Fail { err, at } => 0 <= at <= src.len(),
        },
{
    let c = src[i];
    let len = src.len() as int;
    if c == '[' && i + 1 < len && (src[i + 1] == '[' || src[i + 1] == '=') {
        lemma_long_bracket_end_bounds(src, i + 1);
    } else if c == '-' && i + 1 < len && src[i + 1] == '-' {
        if i + 3 < len && src[i + 2] == '[' && (src[i + 3] == '[' || src[i + 3] == '=') {
            lemma_long_bracket_end_bounds(src, i + 3);
        } else {
            lemma_line_skip_end_bounds(src, i + 2);
        }
    } else if c == '#' && i == 0 {
        lemma_line_skip_end_bounds(src, 1);
    } else if c == '"' || c == '\'' {
        lemma_string_end_bounds(src, i + 1, c);
    } else if c == '.' {
        if i + 2 < len && src[i + 1] == '.' && src[i + 2] == '.' {
        } else if i + 1 < len && is_digit_char(src[i + 1]) {
            lemma_number_end_bounds(src, i);
        }
    } else if is_digit_char(c) {
        lemma_number_end_bounds(src, i);
    } else if is_ascii_alpha_char(c) || c == '_' {
        lemma_ident_cont_end_bounds(src, i + 1);
    }
}

} // verus!
