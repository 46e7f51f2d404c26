//! The executable scanner.
//!
//! `Lexer` owns the character buffer and the `(offset, line, column)` cursor,
//! with bounds-checked forward consumption, lookahead, and single-step
//! backtracking.  `scan_code` drives one dispatch pass over the whole buffer
//! and is proved to return exactly what the mathematical model `model::lex`
//! says: the same tokens with the same lexemes and lines, or the same first
//! error at the same line and column.

use vstd::prelude::*;

use crate::chars::{
    col_at, is_alphabetic_char, is_alphanumeric_char, is_ascii_alpha, is_digit, is_hex_digit,
    is_space, lemma_advance_over_plain, lemma_line_at_bounds, lemma_line_at_mono,
    lemma_line_at_step, lemma_newline_count_nonneg, lemma_start_of_buffer, line_at, newline_count,
    push_char,
};
use crate::model::{
    digits_end, hex_digits_end, ident_cont_end, is_number_start, keyword_kind, lemma_lex_emit,
    lemma_lex_fail, lemma_lex_skip, lex, lex_combine, line_skip_end, long_bracket_end, long_close,
    long_open, number_end, string_end,
};
use crate::token::{
    Lexeme, Number, ScanError, ScanErrorKind, SpecLexeme, SpecToken, Token, TokenType,
};

verus! {

/// Compare a string against a literal.
fn string_eq_lit(a: &String, b: &str) -> (r: bool)
    ensures
        r == (a@ == b@),
{
    let owned: String = b.to_owned();
    *a == owned
}

/// The keyword token kind a scanned identifier stands for.
fn keyword_of(text: &String) -> (k: TokenType)
    ensures
        k == keyword_kind(text@),
{
    if string_eq_lit(text, "and") {
        TokenType::And
    } else if string_eq_lit(text, "break") {
        TokenType::Break
    } else if string_eq_lit(text, "do") {
        TokenType::Do
    } else if string_eq_lit(text, "else") {
        TokenType::Else
    } else if string_eq_lit(text, "elseif") {
        TokenType::ElseIf
    } else if string_eq_lit(text, "end") {
        TokenType::End
    } else if string_eq_lit(text, "false") {
        TokenType::False
    } else if string_eq_lit(text, "for") {
        TokenType::For
    } else if string_eq_lit(text, "function") {
        TokenType::Function
    } else if string_eq_lit(text, "if") {
        TokenType::If
    } else if string_eq_lit(text, "in") {
        TokenType::In
    } else if string_eq_lit(text, "local") {
        TokenType::Local
    } else if string_eq_lit(text, "nil") {
        TokenType::Nil
    } else if string_eq_lit(text, "not") {
        TokenType::Not
    } else if string_eq_lit(text, "or") {
        TokenType::Or
    } else if string_eq_lit(text, "repeat") {
        TokenType::Repeat
    } else if string_eq_lit(text, "return") {
        TokenType::Return
    } else if string_eq_lit(text, "then") {
        TokenType::Then
    } else if string_eq_lit(text, "true") {
        TokenType::True
    } else if string_eq_lit(text, "until") {
        TokenType::Until
    } else if string_eq_lit(text, "while") {
        TokenType::While
    } else {
        TokenType::Identifier
    }
}

/// The characters of a string, as a random-access buffer.
fn chars_of(s: &String) -> (v: Vec<char>)
    ensures
        v@ == s@,
{
    let n = s.as_str().unicode_len();
    let mut v: Vec<char> = Vec::new();
    let mut k: usize = 0;
    while k < n
        invariant
            n == s@.len(),
            k <= n,
            v@ == s@.take(k as int),
        decreases n - k,
    {
        let c = s.as_str().get_char(k);
        v.push(c);
        k = k + 1;
        proof {
            assert(v@ =~= s@.take(k as int));
        }
    }
    proof {
        assert(s@.take(n as int) =~= s@);
    }
    v
}

/// The scanner state: the character buffer, the tokens emitted so far, and
/// the cursor `(current, line, column)`.
pub struct Lexer {
    pub source: Vec<char>,
    pub tokens: Vec<Token>,
    pub column: usize,
    pub current: usize,
    pub line: usize,
}

impl Lexer {
    /// Structural soundness of the cursor: it sits inside the buffer, the
    /// buffer leaves room for the line counter, and the counters stay within
    /// the bounds that forward consumption can produce.
    pub open spec fn wf(&self) -> bool {
        &&& self.current <= self.source@.len()
        &&& self.source@.len() + 2 <= usize::MAX
        &&& 1 <= self.line
        &&& self.line <= 1 + newline_count(self.source@.take(self.current as int))
        &&& self.column <= self.current
    }

    /// The counters report exactly the line and column of the current offset.
    /// Forward consumption preserves this; retreating over a newline only
    /// approximates the column, so it does not.
    pub open spec fn synced(&self) -> bool {
        &&& self.line == line_at(self.source@, self.current as int)
        &&& self.column == col_at(self.source@, self.current as int)
    }

    /// The tokens emitted so far, as mathematical values.
    pub open spec fn toks(&self) -> Seq<SpecToken> {
        self.tokens@.map_values(|t: Token| t@)
    }

    /// A fresh scanner over the given source text, at offset zero, line one.
    pub fn new(source: String) -> (lexer: Lexer)
        requires
            source@.len() + 2 <= usize::MAX,
        ensures
            lexer.source@ == source@,
            lexer.tokens@.len() == 0,
            lexer.current == 0,
            lexer.line == 1,
            lexer.column == 0,
            lexer.wf(),
            lexer.synced(),
    {
        let v = chars_of(&source);
        proof {
            assert(v@.take(0) =~= Seq::<char>::empty());
        }
        Lexer { source: v, tokens: Vec::new(), column: 0, current: 0, line: 1 }
    }

    /// Whether the cursor is at or past the end of the buffer.
    pub fn done(&self) -> (r: bool)
        ensures
            r == (self.current >= self.source@.len()),
    {
        self.current >= self.source.len()
    }

    /// Consume and return the character at the cursor, or nothing at the end
    /// of input.  Consuming a newline increments the line and resets the
    /// column to zero; any other character increments the column.
    pub fn advance(&mut self) -> (r: Option<char>)
        requires
            old(self).wf(),
        ensures
            final(self).wf(),
            final(self).source == old(self).source,
            final(self).tokens == old(self).tokens,
            old(self).current < old(self).source@.len() ==> {
                let c = old(self).source@[old(self).current as int];
                &&& r == Some(c)
                &&& final(self).current == old(self).current + 1
                &&& (c == '\n' ==> final(self).line == old(self).line + 1 && final(self).column
                    == 0)
                &&& (c != '\n' ==> final(self).line == old(self).line && final(self).column == old(self).column + 1)
            },
            old(self).current >= old(self).source@.len() ==> r is None && *final(self) == *old(self),
            old(self).synced() ==> final(self).synced(),
    {
        if self.current >= self.source.len() {
            None
        } else {
            let ghost src = self.source@;
            let ghost i = self.current as int;
            let c = self.source[self.current];
            proof {
                lemma_newline_count_nonneg(src.take(i));
                assert(src.take(i + 1).drop_last() =~= src.take(i));
                lemma_line_at_step(src, i);
            }
            if c == '\n' {
                self.line = self.line + 1;
                self.column = 0;
            } else {
                self.column = self.column + 1;
            }
            self.current = self.current + 1;
            Some(c)
        }
    }

    /// Consume `offset` characters in one step, updating the line and column
    /// from the identity of the last consumed character alone; nothing
    /// happens when fewer than `offset` characters remain or `offset` is
    /// zero.
    pub fn advance_to(&mut self, offset: usize) -> (r: Option<char>)
        requires
            old(self).wf(),
        ensures
            final(self).wf(),
            final(self).source == old(self).source,
            final(self).tokens == old(self).tokens,
            ({
                let i = old(self).current as int;
                let n = old(self).source@.len() as int;
                if 1 <= offset && i + offset <= n {
                    let c = old(self).source@[i + offset - 1];
                    &&& r == Some(c)
                    &&& final(self).current == old(self).current + offset
                    &&& (c == '\n' ==> final(self).line == old(self).line + 1 && final(self).column == 0)
                    &&& (c != '\n' ==> final(self).line == old(self).line && final(self).column
                        == old(self).column + offset)
                } else {
                    r is None && *final(self) == *old(self)
                }
            }),
            old(self).synced() && (forall|k: int|
                old(self).current <= k < old(self).current + offset ==> old(self).source@[k]
                    != '\n') ==> final(self).synced(),
    {
        let ghost src = self.source@;
        let ghost i = self.current as int;
        if 1 <= offset && offset <= self.source.len() - self.current {
            let c = self.source[self.current + offset - 1];
            proof {
                lemma_newline_count_nonneg(src.take(i));
                lemma_line_at_mono(src, i, i + offset as int);
                lemma_line_at_mono(src, i, i + offset - 1);
                lemma_line_at_step(src, i + offset - 1);
                lemma_line_at_bounds(src, i + offset as int);
                if forall|k: int| i <= k < i + offset ==> src[k] != '\n' {
                    lemma_advance_over_plain(src, i, i + offset as int);
                }
            }
            if c == '\n' {
                self.line = self.line + 1;
                self.column = 0;
            } else {
                self.column = self.column + offset;
            }
            self.current = self.current + offset;
            Some(c)
        } else {
            None
        }
    }

    /// Un-consume one character; nothing happens at the start of the buffer.
    /// Retreating over a newline decrements the line and resets the column
    /// to zero (an approximation: the true prior column is not recoverable
    /// without re-scanning the line).
    pub fn go_back(&mut self) -> (r: Option<char>)
        requires
            old(self).wf(),
        ensures
            final(self).wf(),
            final(self).source == old(self).source,
            final(self).tokens == old(self).tokens,
            old(self).current == 0 ==> r is None && *final(self) == *old(self),
            old(self).current >= 1 ==> {
                let c = old(self).source@[old(self).current - 1];
                &&& r == Some(c)
                &&& final(self).current == old(self).current - 1
                &&& (c == '\n' ==> final(self).column == 0 && final(self).line == if old(self).line > 1 {
                    (old(self).line - 1) as usize
                } else {
                    1usize
                })
                &&& (c != '\n' ==> final(self).line == old(self).line && final(self).column == if
                    old(self).column > 0 {
                    (old(self).column - 1) as usize
                } else {
                    0usize
                })
            },
    {
        if self.current == 0 {
            None
        } else {
            let ghost src = self.source@;
            let ghost i = self.current as int;
            let c = self.source[self.current - 1];
            proof {
                assert(src.take(i).drop_last() =~= src.take(i - 1));
                lemma_newline_count_nonneg(src.take(i - 1));
            }
            if c == '\n' {
                if self.line > 1 {
                    self.line = self.line - 1;
                }
                self.column = 0;
            } else {
                if self.column > 0 {
                    self.column = self.column - 1;
                }
            }
            self.current = self.current - 1;
            Some(c)
        }
    }

    /// The character at the cursor, without consuming it.
    pub fn peek(&self) -> (r: Option<char>)
        ensures
            r == if self.current < self.source@.len() {
                Some(self.source@[self.current as int])
            } else {
                None::<char>
            },
    {
        if self.current < self.source.len() {
            Some(self.source[self.current])
        } else {
            None
        }
    }

    /// The character `offset` positions ahead of the cursor (one-based:
    /// `peek_at(1)` is `peek`), without consuming anything.
    pub fn peek_at(&self, offset: usize) -> (r: Option<char>)
        requires
            1 <= offset,
        ensures
            r == if self.current + offset <= self.source@.len() {
                Some(self.source@[self.current + offset - 1])
            } else {
                None::<char>
            },
    {
        if self.current < self.source.len() && offset - 1 < self.source.len() - self.current {
            Some(self.source[self.current + offset - 1])
        } else {
            None
        }
    }

    /// The character two positions behind the cursor, or nothing before that
    /// position exists.
    pub fn look_back(&self) -> (r: Option<char>)
        requires
            self.wf(),
        ensures
            r == if self.current >= 2 {
                Some(self.source@[self.current - 2])
            } else {
                None::<char>
            },
    {
        if self.current >= 2 {
            Some(self.source[self.current - 2])
        } else {
            None
        }
    }

    /// The text of the buffer span `[start, end)`, as a string.
    fn collect(&self, start: usize, end: usize) -> (s: String)
        requires
            start <= end <= self.source@.len(),
        ensures
            s@ == self.source@.subrange(start as int, end as int),
    {
        let mut s = String::new();
        let mut k: usize = start;
        proof {
            assert(s@ =~= self.source@.subrange(start as int, start as int));
        }
        while k < end
            invariant
                start <= k <= end <= self.source@.len(),
                s@ == self.source@.subrange(start as int, k as int),
            decreases end - k,
        {
            let c = self.source[k];
            push_char(&mut s, c);
            k = k + 1;
            proof {
                assert(s@ =~= self.source@.subrange(start as int, k as int));
            }
        }
        s
    }

    /// Emit a token whose lexeme is the last `len` consumed characters,
    /// ending at the cursor, carrying the current line.
    pub fn add_token(&mut self, token_type: TokenType, len: usize)
        requires
            old(self).wf(),
            len <= old(self).current,
            token_type != TokenType::Number,
        ensures
            final(self).wf(),
            final(self).source == old(self).source,
            final(self).current == old(self).current,
            final(self).line == old(self).line,
            final(self).column == old(self).column,
            final(self).toks() == old(self).toks().push(
                SpecToken {
                    kind: token_type,
                    lexeme: SpecLexeme::Symbol(
                        old(self).source@.subrange(
                            old(self).current - len,
                            old(self).current as int,
                        ),
                    ),
                    line: old(self).line as int,
                },
            ),
    {
        let ghost pre = self.toks();
        let lexeme = self.collect(self.current - len, self.current);
        let t = Token::new(token_type, lexeme, self.line);
        self.tokens.push(t);
        proof {
            assert(self.toks() =~= pre.push(t@));
        }
    }

    /// Emit a token whose lexeme starts one character behind the cursor and
    /// runs `len` characters; the remaining `len - 1` characters are consumed
    /// in one step, and the token carries the line after that step.
    pub fn add_token_front(&mut self, token_type: TokenType, len: usize)
        requires
            old(self).wf(),
            1 <= old(self).current,
            2 <= len,
            old(self).current + len - 1 <= old(self).source@.len(),
            token_type != TokenType::Number,
        ensures
            final(self).wf(),
            final(self).source == old(self).source,
            final(self).current == old(self).current + len - 1,
            final(self).toks() == old(self).toks().push(
                SpecToken {
                    kind: token_type,
                    lexeme: SpecLexeme::Symbol(
                        old(self).source@.subrange(
                            old(self).current - 1,
                            old(self).current + len - 1,
                        ),
                    ),
                    line: final(self).line as int,
                },
            ),
            old(self).synced() && (forall|k: int|
                old(self).current <= k < old(self).current + len - 1 ==> old(self).source@[k]
                    != '\n') ==> final(self).synced(),
    {
        let ghost pre = self.toks();
        let lexeme = self.collect(self.current - 1, self.current + len - 1);
        let _ = self.advance_to(len - 1);
        let t = Token::new(token_type, lexeme, self.line);
        self.tokens.push(t);
        proof {
            assert(self.toks() =~= pre.push(t@));
        }
    }

    /// Skip to just past the next newline, or to the end of input (line
    /// comments and the shebang line).
    fn skip_to_line_end(&mut self)
        requires
            old(self).wf(),
            old(self).synced(),
        ensures
            final(self).wf(),
            final(self).synced(),
            final(self).source == old(self).source,
            final(self).tokens == old(self).tokens,
            final(self).current == line_skip_end(old(self).source@, old(self).current as int),
            old(self).current <= final(self).current,
    {
        let ghost src = self.source@;
        let ghost i0 = self.current as int;
        loop
            invariant
                self.wf(),
                self.synced(),
                self.source == old(self).source,
                self.source@ == src,
                src == old(self).source@,
                i0 == old(self).current,
                self.tokens == old(self).tokens,
                i0 <= self.current,
                line_skip_end(src, i0) == line_skip_end(src, self.current as int),
            decreases src.len() - self.current,
        {
            let ghost i = self.current as int;
            match self.peek() {
                None => {
                    proof {
                        assert(line_skip_end(src, i) == i);
                    }
                    return ;
                },
                Some(c) => {
                    self.advance();
                    if c == '\n' {
                        proof {
                            assert(line_skip_end(src, i) == i + 1);
                        }
                        return ;
                    }
                    proof {
                        assert(line_skip_end(src, i) == line_skip_end(src, i + 1));
                    }
                },
            }
        }
    }

    /// Consume a run of decimal digits.
    fn eat_digits(&mut self)
        requires
            old(self).wf(),
            old(self).synced(),
        ensures
            final(self).wf(),
            final(self).synced(),
            final(self).source == old(self).source,
            final(self).tokens == old(self).tokens,
            final(self).current == digits_end(old(self).source@, old(self).current as int),
            old(self).current <= final(self).current,
    {
        let ghost src = self.source@;
        let ghost i0 = self.current as int;
        loop
            invariant
                self.wf(),
                self.synced(),
                self.source == old(self).source,
                self.source@ == src,
                src == old(self).source@,
                i0 == old(self).current,
                self.tokens == old(self).tokens,
                i0 <= self.current,
                digits_end(src, i0) == digits_end(src, self.current as int),
            decreases src.len() - self.current,
        {
            let ghost i = self.current as int;
            match self.peek() {
                None => {
                    proof {
                        assert(digits_end(src, i) == i);
                    }
                    return ;
                },
                Some(c) => {
                    if is_digit(c) {
                        self.advance();
                        proof {
                            assert(digits_end(src, i) == digits_end(src, i + 1));
                        }
                    } else {
                        proof {
                            assert(digits_end(src, i) == i);
                        }
                        return ;
                    }
                },
            }
        }
    }

    /// Consume a run of hexadecimal digits.
    fn eat_hex_digits(&mut self)
        requires
            old(self).wf(),
            old(self).synced(),
        ensures
            final(self).wf(),
            final(self).synced(),
            final(self).source == old(self).source,
            final(self).tokens == old(self).tokens,
            final(self).current == hex_digits_end(old(self).source@, old(self).current as int),
            old(self).current <= final(self).current,
    {
        let ghost src = self.source@;
        let ghost i0 = self.current as int;
        loop
            invariant
                self.wf(),
                self.synced(),
                self.source == old(self).source,
                self.source@ == src,
                src == old(self).source@,
                i0 == old(self).current,
                self.tokens == old(self).tokens,
                i0 <= self.current,
                hex_digits_end(src, i0) == hex_digits_end(src, self.current as int),
            decreases src.len() - self.current,
        {
            let ghost i = self.current as int;
            match self.peek() {
                None => {
                    proof {
                        assert(hex_digits_end(src, i) == i);
                    }
                    return ;
                },
                Some(c) => {
                    if is_hex_digit(c) {
                        self.advance();
                        proof {
                            assert(hex_digits_end(src, i) == hex_digits_end(src, i + 1));
                        }
                    } else {
                        proof {
                            assert(hex_digits_end(src, i) == i);
                        }
                        return ;
                    }
                },
            }
        }
    }

    /// Read a single-line string, the opening quote already consumed.  A
    /// backslash consumes the following character unconditionally; the string
    /// fails at a bare newline or at the end of input, and a trailing
    /// backslash fails as an unterminated escape.  The emitted lexeme
    /// includes both quotes.
    pub fn read_string(&mut self, quote: char) -> (r: Result<(), ScanError>)
        requires
            old(self).wf(),
            old(self).synced(),
            1 <= old(self).current,
        ensures
            final(self).wf(),
            final(self).source == old(self).source,
            ({
                let src = old(self).source@;
                let i0 = old(self).current as int;
                match string_end(src, i0, quote) {
                    Ok(e) => {
                        &&& r is Ok
                        &&& final(self).synced()
                        &&& final(self).current == e
                        &&& final(self).toks() == old(self).toks().push(
                            SpecToken {
                                kind: TokenType::String,
                                lexeme: SpecLexeme::Symbol(src.subrange(i0 - 1, e)),
                                line: line_at(src, e),
                            },
                        )
                    },
                    Err((k, at)) => {
                        &&& r matches Err(err) && err@.kind == k && err@.line == line_at(src, at)
                            && err@.col == col_at(src, at)
                        &&& final(self).tokens == old(self).tokens
                    },
                }
            }),
    {
        let ghost src = self.source@;
        let ghost i0 = self.current as int;
        let start = self.current;
        loop
            invariant
                self.wf(),
                self.synced(),
                self.source == old(self).source,
                self.source@ == src,
                src == old(self).source@,
                i0 == old(self).current,
                self.tokens == old(self).tokens,
                i0 <= self.current,
                1 <= i0,
                start == old(self).current,
                string_end(src, i0, quote) == string_end(src, self.current as int, quote),
            decreases src.len() - self.current,
        {
            let ghost i = self.current as int;
            match self.peek() {
                None => {
                    return Err(
                        ScanError {
                            kind: ScanErrorKind::UnterminatedString,
                            line: self.line,
                            column: self.column,
                        },
                    );
                },
                Some(c) => {
                    if c == quote {
                        self.advance();
                        self.add_token(TokenType::String, self.current - (start - 1));
                        return Ok(());
                    } else if c == '\n' {
                        return Err(
                            ScanError {
                                kind: ScanErrorKind::UnterminatedString,
                                line: self.line,
                                column: self.column,
                            },
                        );
                    } else if c == '\\' {
                        self.advance();
                        match self.peek() {
                            Some(_) => {
                                self.advance();
                                proof {
                                    assert(string_end(src, i, quote) == string_end(
                                        src,
                                        i + 2,
                                        quote,
                                    ));
                                }
                            },
                            None => {
                                return Err(
                                    ScanError {
                                        kind: ScanErrorKind::UnterminatedEscapeSequence,
                                        line: self.line,
                                        column: self.column,
                                    },
                                );
                            },
                        }
                    } else {
                        self.advance();
                        proof {
                            assert(string_end(src, i, quote) == string_end(src, i + 1, quote));
                        }
                    }
                },
            }
        }
    }

    /// Match a whole long bracket, the first `[` already consumed: find the
    /// second `[` counting the `=` before it, then scan to the first `]`
    /// followed by the same count of `=` and another `]`, and consume through
    /// that closer.  Fails at the end of input, naming comment or string for
    /// the diagnostic.
    fn read_long_bracket(&mut self, comment: bool) -> (r: Result<(), ScanError>)
        requires
            old(self).wf(),
            old(self).synced(),
        ensures
            final(self).wf(),
            final(self).source == old(self).source,
            final(self).tokens == old(self).tokens,
            ({
                let src = old(self).source@;
                let i0 = old(self).current as int;
                match long_bracket_end(src, i0) {
                    Some(e) => {
                        &&& r is Ok
                        &&& final(self).synced()
                        &&& final(self).current == e
                    },
                    None => {
                        &&& r matches Err(err) && err@.kind
                            == (ScanErrorKind::UnterminatedLongBracket { comment }) && err@.line
                            == line_at(src, src.len() as int) && err@.col == col_at(
                            src,
                            src.len() as int,
                        )
                    },
                }
            }),
    {
        let ghost src = self.source@;
        let ghost i0 = self.current as int;
        let mut eq: usize = 0;
        // Opening: find the second `[`, counting `=` seen on the way.
        loop
            invariant_except_break
                ({
                    match long_open(src, self.current as int) {
                        Some((j, n)) => long_open(src, i0) == Some((j, n + eq)),
                        None => long_open(src, i0) is None,
                    }
                }),
            invariant
                self.wf(),
                self.synced(),
                self.source == old(self).source,
                self.source@ == src,
                src == old(self).source@,
                i0 == old(self).current,
                self.tokens == old(self).tokens,
                i0 <= self.current,
                eq <= self.current,
            ensures
                long_open(src, i0) == Some((self.current as int, eq as int)),
            decreases src.len() - self.current,
        {
            let ghost i = self.current as int;
            match self.peek() {
                None => {
                    return Err(
                        ScanError {
                            kind: ScanErrorKind::UnterminatedLongBracket { comment },
                            line: self.line,
                            column: self.column,
                        },
                    );
                },
                Some(c) => {
                    self.advance();
                    if c == '[' {
                        proof {
                            assert(long_open(src, i) == Some((i + 1, 0int)));
                        }
                        break ;
                    }
                    if c == '=' {
                        eq = eq + 1;
                    }
                },
            }
        }
        let ghost body0 = self.current as int;
        let ghost eqn = eq as int;
        proof {
            assert(long_open(src, i0) == Some((body0, eqn)));
        }
        // Body: scan to a `]` followed by exactly `eq` `=` and another `]`.
        loop
            invariant
                self.wf(),
                self.synced(),
                self.source == old(self).source,
                self.source@ == src,
                src == old(self).source@,
                i0 == old(self).current,
                self.tokens == old(self).tokens,
                body0 <= self.current,
                long_open(src, i0) == Some((body0, eqn)),
                eqn == eq,
                long_close(src, body0, eqn) == long_close(src, self.current as int, eqn),
            decreases src.len() - self.current,
        {
            let ghost i = self.current as int;
            match self.peek() {
                None => {
                    return Err(
                        ScanError {
                            kind: ScanErrorKind::UnterminatedLongBracket { comment },
                            line: self.line,
                            column: self.column,
                        },
                    );
                },
                Some(c) => {
                    if c == ']' {
                        // Count the `=` run after this `]` by lookahead.
                        let mut k: usize = 0;
                        loop
                            invariant
                                self.wf(),
                                self.synced(),
                                self.source@ == src,
                                self.tokens == old(self).tokens,
                                i == self.current,
                                0 <= i < src.len(),
                                i + 1 + k <= src.len(),
                                forall|m: int| i + 1 <= m < i + 1 + k ==> src[m] == '=',
                            ensures
                                i + 1 + k <= src.len(),
                                i + 1 + k == src.len() || src[i + 1 + k] != '=',
                                forall|m: int| i + 1 <= m < i + 1 + k ==> src[m] == '=',
                                i == self.current,
                                self.wf(),
                                self.synced(),
                                self.source@ == src,
                                self.tokens == old(self).tokens,
                            decreases src.len() - i - k,
                        {
                            match self.peek_at(2 + k) {
                                Some(d) => {
                                    if d == '=' {
                                        k = k + 1;
                                    } else {
                                        break ;
                                    }
                                },
                                None => {
                                    break ;
                                },
                            }
                        }
                        proof {
                            crate::model::lemma_eq_run_char(src, i + 1, k as int);
                        }
                        let two_k = 2 + k;
                        let close = match self.peek_at(two_k) {
                            Some(d) => d == ']',
                            None => false,
                        };
                        if k == eq && close {
                            let _ = self.advance_to(k + 2);
                            proof {
                                assert(forall|m: int|
                                    i <= m < i + k + 2 ==> src[m] != '\n') by {
                                    assert(src[i] == ']');
                                    assert(src[i + 1 + eqn] == ']');
                                }
                                assert(long_close(src, i, eqn) == Some(i + eqn + 2));
                            }
                            return Ok(());
                        } else {
                            self.advance();
                            proof {
                                assert(long_close(src, i, eqn) == long_close(src, i + 1, eqn));
                            }
                        }
                    } else {
                        self.advance();
                        proof {
                            assert(long_close(src, i, eqn) == long_close(src, i + 1, eqn));
                        }
                    }
                },
            }
        }
    }

    /// Read a multiline string, the first `[` already consumed; the emitted
    /// lexeme includes the full delimiters.
    pub fn read_multiline_string(&mut self) -> (r: Result<(), ScanError>)
        requires
            old(self).wf(),
            old(self).synced(),
            1 <= old(self).current,
        ensures
            final(self).wf(),
            final(self).source == old(self).source,
            ({
                let src = old(self).source@;
                let i0 = old(self).current as int;
                match long_bracket_end(src, i0) {
                    Some(e) => {
                        &&& r is Ok
                        &&& final(self).synced()
                        &&& final(self).current == e
                        &&& final(self).toks() == old(self).toks().push(
                            SpecToken {
                                kind: TokenType::MultilineString,
                                lexeme: SpecLexeme::Symbol(src.subrange(i0 - 1, e)),
                                line: line_at(src, e),
                            },
                        )
                    },
                    None => {
                        &&& r matches Err(err) && err@.kind
                            == (ScanErrorKind::UnterminatedLongBracket { comment: false })
                            && err@.line == line_at(src, src.len() as int) && err@.col == col_at(
                            src,
                            src.len() as int,
                        )
                        &&& final(self).tokens == old(self).tokens
                    },
                }
            }),
    {
        let start = self.current;
        proof {
            crate::model::lemma_long_bracket_end_bounds(self.source@, self.current as int);
        }
        match self.read_long_bracket(false) {
            Ok(()) => {
                self.add_token(TokenType::MultilineString, self.current - (start - 1));
                Ok(())
            },
            Err(e) => Err(e),
        }
    }

    /// Skip a long block comment, the first `[` already consumed; the
    /// captured text is discarded.
    pub fn read_multiline_comment(&mut self) -> (r: Result<(), ScanError>)
        requires
            old(self).wf(),
            old(self).synced(),
        ensures
            final(self).wf(),
            final(self).source == old(self).source,
            final(self).tokens == old(self).tokens,
            ({
                let src = old(self).source@;
                let i0 = old(self).current as int;
                match long_bracket_end(src, i0) {
                    Some(e) => {
                        &&& r is Ok
                        &&& final(self).synced()
                        &&& final(self).current == e
                    },
                    None => {
                        r matches Err(err) && err@.kind == (ScanErrorKind::UnterminatedLongBracket {
                            comment: true,
                        }) && err@.line == line_at(src, src.len() as int) && err@.col == col_at(
                            src,
                            src.len() as int,
                        )
                    },
                }
            }),
    {
        self.read_long_bracket(true)
    }

    /// Read an identifier or keyword at the cursor.  The accumulated text is
    /// matched against the keyword set; `goto` is rejected as unsupported,
    /// and a character that cannot start an identifier is rejected
    /// defensively.
    pub fn read_token(&mut self) -> (r: Result<(), ScanError>)
        requires
            old(self).wf(),
            old(self).synced(),
        ensures
            final(self).wf(),
            final(self).source == old(self).source,
            ({
                let src = old(self).source@;
                let i0 = old(self).current as int;
                if i0 >= src.len() || !(crate::chars::alphabetic_char(src[i0]) || src[i0] == '_') {
                    &&& r matches Err(err) && err@.kind == ScanErrorKind::InvalidIdentifierStart
                        && err@.line == line_at(src, i0) && err@.col == col_at(src, i0)
                    &&& *final(self) == *old(self)
                } else {
                    let e = ident_cont_end(src, i0 + 1);
                    if src.subrange(i0, e) == "goto"@ {
                        &&& r matches Err(err) && err@.kind == ScanErrorKind::UnsupportedFeature
                            && err@.line == line_at(src, e) && err@.col == col_at(src, e)
                        &&& final(self).tokens == old(self).tokens
                        &&& final(self).current == e
                    } else {
                        &&& r is Ok
                        &&& final(self).synced()
                        &&& final(self).current == e
                        &&& final(self).toks() == old(self).toks().push(
                            SpecToken {
                                kind: keyword_kind(src.subrange(i0, e)),
                                lexeme: SpecLexeme::Symbol(src.subrange(i0, e)),
                                line: line_at(src, e),
                            },
                        )
                    }
                }
            }),
    {
        let ghost src = self.source@;
        let ghost i0 = self.current as int;
        let start = self.current;
        let c0 = match self.peek() {
            Some(c) => c,
            None => {
                return Err(
                    ScanError {
                        kind: ScanErrorKind::InvalidIdentifierStart,
                        line: self.line,
                        column: self.column,
                    },
                );
            },
        };
        if !(is_alphabetic_char(c0) || c0 == '_') {
            return Err(
                ScanError {
                    kind: ScanErrorKind::InvalidIdentifierStart,
                    line: self.line,
                    column: self.column,
                },
            );
        }
        self.advance();
        loop
            invariant
                self.wf(),
                self.synced(),
                self.source == old(self).source,
                self.source@ == src,
                src == old(self).source@,
                i0 == old(self).current,
                self.tokens == old(self).tokens,
                i0 + 1 <= self.current,
                ident_cont_end(src, i0 + 1) == ident_cont_end(src, self.current as int),
            ensures
                self.wf(),
                self.synced(),
                self.source == old(self).source,
                self.source@ == src,
                src == old(self).source@,
                i0 == old(self).current,
                self.tokens == old(self).tokens,
                i0 + 1 <= self.current,
                ident_cont_end(src, i0 + 1) == self.current as int,
            decreases src.len() - self.current,
        {
            let ghost i = self.current as int;
            match self.peek() {
                None => {
                    proof {
                        assert(ident_cont_end(src, i) == i);
                    }
                    break ;
                },
                Some(c) => {
                    if is_alphanumeric_char(c) || c == '_' {
                        self.advance();
                        proof {
                            assert(ident_cont_end(src, i) == ident_cont_end(src, i + 1));
                        }
                    } else {
                        proof {
                            assert(ident_cont_end(src, i) == i);
                        }
                        break ;
                    }
                },
            }
        }
        let ghost e = self.current as int;
        let text = self.collect(start, self.current);
        if string_eq_lit(&text, "goto") {
            return Err(
                ScanError {
                    kind: ScanErrorKind::UnsupportedFeature,
                    line: self.line,
                    column: self.column,
                },
            );
        }
        let kind = keyword_of(&text);
        let ghost pre = self.toks();
        let t = Token::new(kind, text, self.line);
        self.tokens.push(t);
        proof {
            assert(self.toks() =~= pre.push(t@));
        }
        Ok(())
    }

    /// Read one numeric literal at the cursor: a hex literal, or an integer
    /// part, an optional fraction, and an optional exponent; the parsed value
    /// carries the exact source text.  The reader consumes exactly the
    /// literal and never fails.
    pub fn read_number(&mut self) -> (r: Result<(), ScanError>)
        requires
            old(self).wf(),
            old(self).synced(),
            is_number_start(old(self).source@, old(self).current as int),
        ensures
            final(self).wf(),
            final(self).synced(),
            final(self).source == old(self).source,
            r is Ok,
            final(self).current == number_end(old(self).source@, old(self).current as int),
            final(self).toks() == old(self).toks().push(
                SpecToken {
                    kind: TokenType::Number,
                    lexeme: SpecLexeme::Number(
                        old(self).source@.subrange(
                            old(self).current as int,
                            number_end(old(self).source@, old(self).current as int),
                        ),
                    ),
                    line: line_at(
                        old(self).source@,
                        number_end(old(self).source@, old(self).current as int),
                    ),
                },
            ),
    {
        let ghost src = self.source@;
        let ghost i0 = self.current as int;
        let start = self.current;
        let hex = match (self.peek(), self.peek_at(2), self.peek_at(3)) {
            (Some(c0), Some(c1), Some(c2)) => c0 == '0' && (c1 == 'x' || c1 == 'X') && is_hex_digit(
                c2,
            ),
            _ => false,
        };
        if hex {
            self.advance();
            self.advance();
            self.eat_hex_digits();
        } else {
            self.eat_digits();
            let dotted = match self.peek() {
                Some(c) => c == '.',
                None => false,
            };
            if dotted {
                self.advance();
                self.eat_digits();
            }
            let exp = match (self.peek(), self.peek_at(2), self.peek_at(3)) {
                (Some(c0), Some(c1), _) if (c0 == 'e' || c0 == 'E') && is_digit(c1) => 1usize,
                (Some(c0), Some(c1), Some(c2)) if (c0 == 'e' || c0 == 'E') && (c1 == '+' || c1
                    == '-') && is_digit(c2) => 2usize,
                _ => 0usize,
            };
            if exp == 1 {
                self.advance();
                self.eat_digits();
            } else if exp == 2 {
                self.advance();
                self.advance();
                self.eat_digits();
            }
        }
        let text = self.collect(start, self.current);
        let ghost pre = self.toks();
        let t = Token::new_number(TokenType::Number, Number { text }, self.line);
        self.tokens.push(t);
        proof {
            assert(self.toks() =~= pre.push(t@));
        }
        Ok(())
    }
}

/// Scan a complete source text into its ordered token sequence, or the first
/// lexical error.  The result is exactly what the mathematical model of the
/// grammar says: `lex(code, 0)`, tokens with their lexemes and lines, or the
/// first error with its kind, line and column.
#[verifier::rlimit(100)]
pub fn scan_code(code: String) -> (r: Result<Vec<Token>, ScanError>)
    requires
        code@.len() + 2 <= usize::MAX,
    ensures
        ({
            let src = code@;
            match r {
                Ok(tokens) => lex(src, 0) matches Ok(sts) && tokens@.map_values(|t: Token| t@)
                    == sts,
                Err(e) => lex(src, 0) matches Err((k, at)) && e@.kind == k && e@.line == line_at(
                    src,
                    at,
                ) && e@.col == col_at(src, at),
            }
        }),
{
    let mut lexer = Lexer::new(code);
    let ghost src = lexer.source@;
    proof {
        assert(lex_combine(lexer.toks(), lex(src, 0)) == lex(src, 0)) by {
            assert(lexer.toks() =~= Seq::<SpecToken>::empty());
            match lex(src, 0) {
                Ok(ts) => {
                    assert(Seq::<SpecToken>::empty() + ts =~= ts);
                },
                Err(_) => {},
            }
        }
    }
    while lexer.current < lexer.source.len()
        invariant
            lexer.wf(),
            lexer.synced(),
            lexer.source@ == src,
            src == code@,
            lex_combine(lexer.toks(), lex(src, lexer.current as int)) == lex(src, 0),
        decreases src.len() - lexer.current,
    {
        let ghost i = lexer.current as int;
        let ghost pre = lexer.toks();
        let c = match lexer.peek() {
            Some(c) => c,
            None => {
                return Err(
                    ScanError {
                        kind: ScanErrorKind::UnexpectedCharacter,
                        line: lexer.line,
                        column: lexer.column,
                    },
                );
            },
        };
        if is_space(c) {
            lexer.advance();
            proof {
                lemma_lex_skip(src, i, pre);
            }
        } else if c == '(' {
            lexer.advance();
            lexer.add_token(TokenType::LeftParen, 1);
            proof {
                lemma_lex_emit(src, i, TokenType::LeftParen, i + 1, pre);
            }
        } else if c == ')' {
            lexer.advance();
            lexer.add_token(TokenType::RightParen, 1);
            proof {
                lemma_lex_emit(src, i, TokenType::RightParen, i + 1, pre);
            }
        } else if c == '{' {
            lexer.advance();
            lexer.add_token(TokenType::LeftBrace, 1);
            proof {
                lemma_lex_emit(src, i, TokenType::LeftBrace, i + 1, pre);
            }
        } else if c == '}' {
            lexer.advance();
            lexer.add_token(TokenType::RightBrace, 1);
            proof {
                lemma_lex_emit(src, i, TokenType::RightBrace, i + 1, pre);
            }
        } else if c == ']' {
            lexer.advance();
            lexer.add_token(TokenType::RightBracket, 1);
            proof {
                lemma_lex_emit(src, i, TokenType::RightBracket, i + 1, pre);
            }
        } else if c == '+' {
            lexer.advance();
            lexer.add_token(TokenType::Plus, 1);
            proof {
                lemma_lex_emit(src, i, TokenType::Plus, i + 1, pre);
            }
        } else if c == '*' {
            lexer.advance();
            lexer.add_token(TokenType::Star, 1);
            proof {
                lemma_lex_emit(src, i, TokenType::Star, i + 1, pre);
            }
        } else if c == '%' {
            lexer.advance();
            lexer.add_token(TokenType::Percent, 1);
            proof {
                lemma_lex_emit(src, i, TokenType::Percent, i + 1, pre);
            }
        } else if c == '^' {
            lexer.advance();
            lexer.add_token(TokenType::Caret, 1);
            proof {
                lemma_lex_emit(src, i, TokenType::Caret, i + 1, pre);
            }
        } else if c == ';' {
            lexer.advance();
            lexer.add_token(TokenType::Semicolon, 1);
            proof {
                lemma_lex_emit(src, i, TokenType::Semicolon, i + 1, pre);
            }
        } else if c == ',' {
            lexer.advance();
            lexer.add_token(TokenType::Comma, 1);
            proof {
                lemma_lex_emit(src, i, TokenType::Comma, i + 1, pre);
            }
        } else if c == '&' {
            lexer.advance();
            lexer.add_token(TokenType::BitAnd, 1);
            proof {
                lemma_lex_emit(src, i, TokenType::BitAnd, i + 1, pre);
            }
        } else if c == '|' {
            lexer.advance();
            lexer.add_token(TokenType::BitOr, 1);
            proof {
                lemma_lex_emit(src, i, TokenType::BitOr, i + 1, pre);
            }
        } else if c == '[' {
            lexer.advance();
            let long = match lexer.peek() {
                Some(d) => d == '[' || d == '=',
                None => false,
            };
            if long {
                match lexer.read_multiline_string() {
                    Ok(()) => {
                        proof {
                            let e = long_bracket_end(src, i + 1)->Some_0;
                            lemma_lex_emit(src, i, TokenType::MultilineString, e, pre);
                        }
                    },
                    Err(e) => {
                        proof {
                            lemma_lex_fail(src, i, pre);
                        }
                        return Err(e);
                    },
                }
            } else {
                lexer.add_token(TokenType::LeftBracket, 1);
                proof {
                    lemma_lex_emit(src, i, TokenType::LeftBracket, i + 1, pre);
                }
            }
        } else if c == '-' {
            lexer.advance();
            let second = match lexer.peek() {
                Some(d) => d == '-',
                None => false,
            };
            if second {
                let long = match (lexer.peek_at(2), lexer.peek_at(3)) {
                    (Some(d2), Some(d3)) => d2 == '[' && (d3 == '[' || d3 == '='),
                    _ => false,
                };
                if long {
                    let _ = lexer.advance_to(2);
                    match lexer.read_multiline_comment() {
                        Ok(()) => {
                            proof {
                                lemma_lex_skip(src, i, pre);
                            }
                        },
                        Err(e) => {
                            proof {
                                lemma_lex_fail(src, i, pre);
                            }
                            return Err(e);
                        },
                    }
                } else {
                    lexer.advance();
                    lexer.skip_to_line_end();
                    proof {
                        lemma_lex_skip(src, i, pre);
                    }
                }
            } else {
                lexer.add_token(TokenType::Minus, 1);
                proof {
                    lemma_lex_emit(src, i, TokenType::Minus, i + 1, pre);
                }
            }
        } else if c == '#' {
            lexer.advance();
            if lexer.line == 1 && lexer.column == 1 {
                proof {
                    lemma_line_at_step(src, i);
                    lemma_start_of_buffer(src, i);
                }
                lexer.skip_to_line_end();
                proof {
                    lemma_lex_skip(src, i, pre);
                }
            } else {
                proof {
                    if i == 0 {
                        lemma_line_at_step(src, 0);
                    }
                }
                lexer.add_token(TokenType::Hash, 1);
                proof {
                    lemma_lex_emit(src, i, TokenType::Hash, i + 1, pre);
                }
            }
        } else if c == '/' {
            lexer.advance();
            let second = match lexer.peek() {
                Some(d) => d == '/',
                None => false,
            };
            if second {
                lexer.advance();
                lexer.add_token(TokenType::FloorDiv, 2);
                proof {
                    lemma_lex_emit(src, i, TokenType::FloorDiv, i + 2, pre);
                }
            } else {
                lexer.add_token(TokenType::Slash, 1);
                proof {
                    lemma_lex_emit(src, i, TokenType::Slash, i + 1, pre);
                }
            }
        } else if c == '=' {
            lexer.advance();
            let second = match lexer.peek() {
                Some(d) => d == '=',
                None => false,
            };
            if second {
                lexer.advance();
                lexer.add_token(TokenType::DoubleEquals, 2);
                proof {
                    lemma_lex_emit(src, i, TokenType::DoubleEquals, i + 2, pre);
                }
            } else {
                lexer.add_token(TokenType::Equals, 1);
                proof {
                    lemma_lex_emit(src, i, TokenType::Equals, i + 1, pre);
                }
            }
        } else if c == '~' {
            lexer.advance();
            let second = match lexer.peek() {
                Some(d) => d == '=',
                None => false,
            };
            if second {
                lexer.advance();
                lexer.add_token(TokenType::NotEquals, 2);
                proof {
                    lemma_lex_emit(src, i, TokenType::NotEquals, i + 2, pre);
                }
            } else {
                lexer.add_token(TokenType::Tilde, 1);
                proof {
                    lemma_lex_emit(src, i, TokenType::Tilde, i + 1, pre);
                }
            }
        } else if c == '<' {
            lexer.advance();
            let next = lexer.peek();
            if next == Some('=') {
                lexer.advance();
                lexer.add_token(TokenType::LessThanOrEqual, 2);
                proof {
                    lemma_lex_emit(src, i, TokenType::LessThanOrEqual, i + 2, pre);
                }
            } else if next == Some('<') {
                lexer.advance();
                lexer.add_token(TokenType::BitShiftLeft, 2);
                proof {
                    lemma_lex_emit(src, i, TokenType::BitShiftLeft, i + 2, pre);
                }
            } else {
                lexer.add_token(TokenType::LessThan, 1);
                proof {
                    lemma_lex_emit(src, i, TokenType::LessThan, i + 1, pre);
                }
            }
        } else if c == '>' {
            lexer.advance();
            let next = lexer.peek();
            if next == Some('=') {
                lexer.advance();
                lexer.add_token(TokenType::GreaterThanOrEqual, 2);
                proof {
                    lemma_lex_emit(src, i, TokenType::GreaterThanOrEqual, i + 2, pre);
                }
            } else if next == Some('>') {
                lexer.advance();
                lexer.add_token(TokenType::BitShiftRight, 2);
                proof {
                    lemma_lex_emit(src, i, TokenType::BitShiftRight, i + 2, pre);
                }
            } else {
                lexer.add_token(TokenType::GreaterThan, 1);
                proof {
                    lemma_lex_emit(src, i, TokenType::GreaterThan, i + 1, pre);
                }
            }
        } else if c == '.' {
            let triple = match (lexer.peek_at(2), lexer.peek_at(3)) {
                (Some(d1), Some(d2)) => d1 == '.' && d2 == '.',
                _ => false,
            };
            let frac = match lexer.peek_at(2) {
                Some(d1) => is_digit(d1),
                None => false,
            };
            let double = match lexer.peek_at(2) {
                Some(d1) => d1 == '.',
                None => false,
            };
            if triple {
                lexer.advance();
                lexer.add_token_front(TokenType::TripleDot, 3);
                proof {
                    lemma_advance_over_plain(src, i + 1, i + 3);
                    lemma_lex_emit(src, i, TokenType::TripleDot, i + 3, pre);
                }
            } else if frac {
                let _ = lexer.read_number();
                proof {
                    lemma_lex_emit(src, i, TokenType::Number, number_end(src, i), pre);
                }
            } else if double {
                lexer.advance();
                lexer.add_token_front(TokenType::DoubleDot, 2);
                proof {
                    lemma_advance_over_plain(src, i + 1, i + 2);
                    lemma_lex_emit(src, i, TokenType::DoubleDot, i + 2, pre);
                }
            } else {
                lexer.advance();
                lexer.add_token(TokenType::Dot, 1);
                proof {
                    lemma_lex_emit(src, i, TokenType::Dot, i + 1, pre);
                }
            }
        } else if c == ':' {
            lexer.advance();
            let second = match lexer.peek() {
                Some(d) => d == ':',
                None => false,
            };
            if second {
                proof {
                    lemma_lex_fail(src, i, pre);
                }
                return Err(
                    ScanError {
                        kind: ScanErrorKind::UnsupportedFeature,
                        line: lexer.line,
                        column: lexer.column,
                    },
                );
            }
            lexer.add_token(TokenType::Colon, 1);
            proof {
                lemma_lex_emit(src, i, TokenType::Colon, i + 1, pre);
            }
        } else if c == '"' || c == '\'' {
            lexer.advance();
            match lexer.read_string(c) {
                Ok(()) => {
                    proof {
                        let e = string_end(src, i + 1, c)->Ok_0;
                        lemma_lex_emit(src, i, TokenType::String, e, pre);
                    }
                },
                Err(e) => {
                    proof {
                        lemma_lex_fail(src, i, pre);
                    }
                    return Err(e);
                },
            }
        } else if is_digit(c) {
            let _ = lexer.read_number();
            proof {
                lemma_lex_emit(src, i, TokenType::Number, number_end(src, i), pre);
            }
        } else if is_ascii_alpha(c) || c == '_' {
            match lexer.read_token() {
                Ok(()) => {
                    proof {
                        let e = ident_cont_end(src, i + 1);
                        assert(keyword_kind(src.subrange(i, e)) != TokenType::Number);
                        lemma_lex_emit(src, i, keyword_kind(src.subrange(i, e)), e, pre);
                    }
                },
                Err(e) => {
                    proof {
                        lemma_lex_fail(src, i, pre);
                    }
                    return Err(e);
                },
            }
        } else {
            lexer.advance();
            proof {
                lemma_lex_fail(src, i, pre);
            }
            return Err(
                ScanError {
                    kind: ScanErrorKind::UnexpectedCharacter,
                    line: lexer.line,
                    column: lexer.column,
                },
            );
        }
    }
    proof {
        match lex(src, 0) {
            Ok(ts) => {
                assert(lexer.toks() + Seq::<SpecToken>::empty() =~= lexer.toks());
            },
            Err(_) => {},
        }
    }
    Ok(lexer.tokens)
}

} // verus!
