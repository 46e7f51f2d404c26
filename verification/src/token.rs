//! The token model: token kinds, lexemes, tokens, and scan errors.

use vstd::prelude::*;

verus! {

/// The closed set of token kinds the scanner can emit.  `goto` and label
/// syntax are deliberately absent: they are rejected with an error before a
/// token is formed.
#[derive(Debug, Clone, Copy, PartialEq, Eq, Structural)]
pub enum TokenType {
    Plus,
    Minus,
    Star,
    Slash,
    FloorDiv,
    Percent,
    Caret,
    Hash,
    Tilde,
    Equals,
    DoubleEquals,
    NotEquals,
    LessThan,
    LessThanOrEqual,
    GreaterThan,
    GreaterThanOrEqual,
    Dot,
    Colon,
    Semicolon,
    Comma,
    LeftParen,
    RightParen,
    LeftBrace,
    RightBrace,
    LeftBracket,
    RightBracket,
    DoubleDot,
    TripleDot,
    BitAnd,
    BitOr,
    BitShiftLeft,
    BitShiftRight,
    Number,
    String,
    MultilineString,
    Identifier,
    And,
    Break,
    Do,
    If,
    Else,
    ElseIf,
    End,
    True,
    False,
    Function,
    In,
    Local,
    Nil,
    Not,
    Or,
    Repeat,
    Return,
    Then,
    Until,
    While,
    For,
    Eof,
}

/// A numeric literal, parsed once during scanning and carried as a value.
/// The payload is the exact source text of the literal; consumers interpret
/// it without re-scanning the source.
#[derive(Debug, Clone, PartialEq)]
pub struct Number {
    pub text: String,
}

impl View for Number {
    type V = Seq<char>;

    open spec fn view(&self) -> Seq<char> {
        self.text@
    }
}

/// The payload of a token: either an immutable text slice, or a parsed
/// numeric value.
#[derive(Debug, Clone, PartialEq)]
pub enum Lexeme {
    Symbol(String),
    Number(Number),
}

/// Mathematical value of a lexeme.
pub enum SpecLexeme {
    Symbol(Seq<char>),
    Number(Seq<char>),
}

impl View for Lexeme {
    type V = SpecLexeme;

    open spec fn view(&self) -> SpecLexeme {
        match self {
            Lexeme::Symbol(s) => SpecLexeme::Symbol(s@),
            Lexeme::Number(n) => SpecLexeme::Number(n@),
        }
    }
}

/// The source text a lexeme stands for.
pub open spec fn lexeme_text(l: SpecLexeme) -> Seq<char> {
    match l {
        SpecLexeme::Symbol(s) => s,
        SpecLexeme::Number(s) => s,
    }
}

impl Lexeme {
    /// The text slice of a symbol lexeme.  Callers must know the lexeme is a
    /// symbol; number lexemes have no text-slice form here.
    pub fn as_symbol(&self) -> (r: String)
        requires
            self@ is Symbol,
        ensures
            r@ == lexeme_text(self@),
    {
        match self {
            Lexeme::Symbol(s) => s.clone(),
            Lexeme::Number(_) => vstd::pervasive::unreached(),
        }
    }

    /// The numeric value of a number lexeme.
    pub fn as_number(&self) -> (r: &Number)
        requires
            self@ is Number,
        ensures
            r@ == lexeme_text(self@),
    {
        match self {
            Lexeme::Number(n) => n,
            Lexeme::Symbol(_) => vstd::pervasive::unreached(),
        }
    }
}

/// Mathematical value of a token.
pub struct SpecToken {
    pub kind: TokenType,
    pub lexeme: SpecLexeme,
    pub line: int,
}

/// An immutable classified lexical unit with its source line.
#[derive(Debug, Clone, PartialEq)]
pub struct Token {
    pub kind: TokenType,
    pub lexeme: Lexeme,
    pub line: usize,
}

impl View for Token {
    type V = SpecToken;

    open spec fn view(&self) -> SpecToken {
        SpecToken { kind: self.kind, lexeme: self.lexeme@, line: self.line as int }
    }
}

impl Token {
    /// A token whose payload is a text slice.
    pub fn new(kind: TokenType, lexeme: String, line: usize) -> (t: Token)
        ensures
            t@ == (SpecToken { kind, lexeme: SpecLexeme::Symbol(lexeme@), line: line as int }),
    {
        Token { kind, lexeme: Lexeme::Symbol(lexeme), line }
    }

    /// A token whose payload is a numeric value.
    pub fn new_number(kind: TokenType, lexeme: Number, line: usize) -> (t: Token)
        ensures
            t@ == (SpecToken { kind, lexeme: SpecLexeme::Number(lexeme@), line: line as int }),
    {
        Token { kind, lexeme: Lexeme::Number(lexeme), line }
    }

    pub fn kind(&self) -> (k: TokenType)
        ensures
            k == self@.kind,
    {
        self.kind
    }

    pub fn lexeme(&self) -> (l: &Lexeme)
        ensures
            l@ == self@.lexeme,
    {
        &self.lexeme
    }

    pub fn line(&self) -> (n: usize)
        ensures
            n as int == self@.line,
    {
        self.line
    }
}

/// The kinds of lexical failure.  Every failure is reported through the one
/// error channel, with the line and column where it was detected.
#[derive(Debug, Clone, Copy, PartialEq, Eq, Structural)]
pub enum ScanErrorKind {
    /// A single-line string reached a newline or the end of input before its
    /// closing quote.
    UnterminatedString,
    /// A backslash escape inside a string had no following character.
    UnterminatedEscapeSequence,
    /// A long-bracket string or comment had no matching closer before the end
    /// of input; `comment` tells the two apart for diagnostics.
    UnterminatedLongBracket { comment: bool },
    /// The identifier reader was invoked on a character that cannot start an
    /// identifier (defensive: the dispatch rules never do).
    InvalidIdentifierStart,
    /// `goto` or `::label::` syntax: permanently outside the supported
    /// language subset.
    UnsupportedFeature,
    /// A character no dispatch rule matches.
    UnexpectedCharacter,
}

/// A lexical error: its kind, and the line and column where the scanner
/// stopped.
#[derive(Debug, Clone, Copy, PartialEq)]
pub struct ScanError {
    pub kind: ScanErrorKind,
    pub line: usize,
    pub column: usize,
}

/// Mathematical value of a scan error.
pub struct SpecErr {
    pub kind: ScanErrorKind,
    pub line: int,
    pub col: int,
}

impl View for ScanError {
    type V = SpecErr;

    open spec fn view(&self) -> SpecErr {
        SpecErr { kind: self.kind, line: self.line as int, col: self.column as int }
    }
}

} // verus!
