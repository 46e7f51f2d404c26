use probe::lexer::scan_code;
use probe::token::{Lexeme, ScanErrorKind, TokenType};

fn kinds(source: &str) -> Vec<TokenType> {
    scan_code(source.to_string())
        .unwrap()
        .iter()
        .map(|t| t.kind())
        .collect()
}

fn symbol_texts(source: &str) -> Vec<String> {
    scan_code(source.to_string())
        .unwrap()
        .iter()
        .map(|t| match t.lexeme() {
            Lexeme::Symbol(s) => s.clone(),
            Lexeme::Number(n) => n.text.clone(),
        })
        .collect()
}

#[test]
fn long_bracket_string_round_trip() {
    let tokens = scan_code("[==[abc]==]".to_string()).unwrap();
    assert_eq!(tokens.len(), 1);
    assert_eq!(tokens[0].kind(), TokenType::MultilineString);
    assert_eq!(tokens[0].lexeme().as_symbol(), "[==[abc]==]");
}

#[test]
fn long_bracket_mismatched_closer_is_unterminated() {
    let err = scan_code("[==[abc]=]".to_string()).unwrap_err();
    assert_eq!(
        err.kind,
        ScanErrorKind::UnterminatedLongBracket { comment: false }
    );
}

#[test]
fn one_plus_two() {
    let tokens = scan_code("1+2".to_string()).unwrap();
    assert_eq!(tokens.len(), 3);
    assert_eq!(tokens[0].kind(), TokenType::Number);
    assert_eq!(tokens[0].lexeme().as_number().text, "1");
    assert_eq!(tokens[1].kind(), TokenType::Plus);
    assert_eq!(tokens[2].kind(), TokenType::Number);
    assert_eq!(tokens[2].lexeme().as_number().text, "2");
}

#[test]
fn block_comment_yields_no_tokens() {
    let tokens = scan_code("--[[ comment ]]".to_string()).unwrap();
    assert_eq!(tokens.len(), 0);
}

#[test]
fn goto_is_unsupported() {
    let err = scan_code("goto foo".to_string()).unwrap_err();
    assert_eq!(err.kind, ScanErrorKind::UnsupportedFeature);
}

#[test]
fn escaped_quote_does_not_terminate_string() {
    let tokens = scan_code("local x = 'a\\'b'".to_string()).unwrap();
    let kinds: Vec<TokenType> = tokens.iter().map(|t| t.kind()).collect();
    assert_eq!(
        kinds,
        vec![
            TokenType::Local,
            TokenType::Identifier,
            TokenType::Equals,
            TokenType::String
        ]
    );
    assert_eq!(tokens[1].lexeme().as_symbol(), "x");
    assert_eq!(tokens[3].lexeme().as_symbol(), "'a\\'b'");
}

#[test]
fn dot_digit_is_a_fractional_number() {
    let tokens = scan_code(".5".to_string()).unwrap();
    assert_eq!(tokens.len(), 1);
    assert_eq!(tokens[0].kind(), TokenType::Number);
    assert_eq!(tokens[0].lexeme().as_number().text, ".5");
}

#[test]
fn shebang_line_is_discarded() {
    let tokens = scan_code("#!/usr/bin/env lua\nlocal x = 1\n".to_string()).unwrap();
    let kinds: Vec<TokenType> = tokens.iter().map(|t| t.kind()).collect();
    assert_eq!(
        kinds,
        vec![
            TokenType::Local,
            TokenType::Identifier,
            TokenType::Equals,
            TokenType::Number
        ]
    );
    for t in &tokens {
        assert_eq!(t.line(), 2);
    }
}

#[test]
fn hash_elsewhere_is_the_length_operator() {
    assert_eq!(kinds(" #t"), vec![TokenType::Hash, TokenType::Identifier]);
}

#[test]
fn lines_are_non_decreasing() {
    let tokens = scan_code("local a = 1\nwhile a < 10 do\n  a = a + 1\nend\n".to_string()).unwrap();
    for w in tokens.windows(2) {
        assert!(w[0].line() <= w[1].line());
    }
    assert_eq!(tokens[0].line(), 1);
    assert_eq!(tokens.last().unwrap().line(), 4);
}

#[test]
fn lexemes_reconstruct_the_source() {
    let source = "local x=1+2 --[[ gap ]] return x\n";
    let tokens = scan_code(source.to_string()).unwrap();
    // Re-insert only the elided whitespace and comments: removing them from
    // the source must leave exactly the concatenated lexemes.
    let joined: String = symbol_texts(source).concat();
    let stripped: String = source
        .replace("--[[ gap ]]", "")
        .chars()
        .filter(|c| !matches!(c, ' ' | '\r' | '\t' | '\n'))
        .collect();
    assert_eq!(joined, stripped);
}

#[test]
fn operators_disambiguate() {
    assert_eq!(
        kinds("/ // = == ~ ~= < <= << > >= >> . .. ..."),
        vec![
            TokenType::Slash,
            TokenType::FloorDiv,
            TokenType::Equals,
            TokenType::DoubleEquals,
            TokenType::Tilde,
            TokenType::NotEquals,
            TokenType::LessThan,
            TokenType::LessThanOrEqual,
            TokenType::BitShiftLeft,
            TokenType::GreaterThan,
            TokenType::GreaterThanOrEqual,
            TokenType::BitShiftRight,
            TokenType::Dot,
            TokenType::DoubleDot,
            TokenType::TripleDot,
        ]
    );
}

#[test]
fn single_character_tokens() {
    assert_eq!(
        kinds("(){}[]+-*%^;,&|:"),
        vec![
            TokenType::LeftParen,
            TokenType::RightParen,
            TokenType::LeftBrace,
            TokenType::RightBrace,
            TokenType::LeftBracket,
            TokenType::RightBracket,
            TokenType::Plus,
            TokenType::Minus,
            TokenType::Star,
            TokenType::Percent,
            TokenType::Caret,
            TokenType::Semicolon,
            TokenType::Comma,
            TokenType::BitAnd,
            TokenType::BitOr,
            TokenType::Colon,
        ]
    );
}

#[test]
fn keywords_and_identifiers() {
    assert_eq!(
        kinds("and break do else elseif end false for function if"),
        vec![
            TokenType::And,
            TokenType::Break,
            TokenType::Do,
            TokenType::Else,
            TokenType::ElseIf,
            TokenType::End,
            TokenType::False,
            TokenType::For,
            TokenType::Function,
            TokenType::If,
        ]
    );
    assert_eq!(
        kinds("in local nil not or repeat return then true until while"),
        vec![
            TokenType::In,
            TokenType::Local,
            TokenType::Nil,
            TokenType::Not,
            TokenType::Or,
            TokenType::Repeat,
            TokenType::Return,
            TokenType::Then,
            TokenType::True,
            TokenType::Until,
            TokenType::While,
        ]
    );
    assert_eq!(
        kinds("android _x x1 Do"),
        vec![
            TokenType::Identifier,
            TokenType::Identifier,
            TokenType::Identifier,
            TokenType::Identifier,
        ]
    );
}

#[test]
fn numeric_literal_forms() {
    assert_eq!(symbol_texts("0 42 3.14 .5 1e5 1E+2 2e-3 0x1F 0Xab"),
        vec!["0", "42", "3.14", ".5", "1e5", "1E+2", "2e-3", "0x1F", "0Xab"]);
    // `0x` with no hex digit is the number 0 followed by an identifier.
    assert_eq!(
        kinds("0x"),
        vec![TokenType::Number, TokenType::Identifier]
    );
    // `1e` with no exponent digits is the number 1 followed by an identifier.
    assert_eq!(
        kinds("1e"),
        vec![TokenType::Number, TokenType::Identifier]
    );
}

#[test]
fn line_comment_runs_to_end_of_line() {
    assert_eq!(kinds("a -- comment ) ( \nb"), vec![
        TokenType::Identifier,
        TokenType::Identifier,
    ]);
    // `--[` that does not open a long bracket is still a line comment.
    assert_eq!(kinds("--[ not long\nc"), vec![TokenType::Identifier]);
}

#[test]
fn long_comment_with_equals() {
    assert_eq!(kinds("--[=[ inner ]] still comment ]=] x"), vec![TokenType::Identifier]);
}

#[test]
fn multiline_string_line_is_its_closing_line() {
    let tokens = scan_code("[[a\nb]] x".to_string()).unwrap();
    assert_eq!(tokens[0].kind(), TokenType::MultilineString);
    assert_eq!(tokens[0].lexeme().as_symbol(), "[[a\nb]]");
    assert_eq!(tokens[0].line(), 2);
    assert_eq!(tokens[1].line(), 2);
}

#[test]
fn unterminated_string_at_end_of_input() {
    let err = scan_code("'abc".to_string()).unwrap_err();
    assert_eq!(err.kind, ScanErrorKind::UnterminatedString);
    assert_eq!(err.line, 1);
}

#[test]
fn unterminated_string_at_newline() {
    let err = scan_code("local s = 'abc\nd'".to_string()).unwrap_err();
    assert_eq!(err.kind, ScanErrorKind::UnterminatedString);
    assert_eq!(err.line, 1);
}

#[test]
fn trailing_backslash_is_an_unterminated_escape() {
    let err = scan_code("'ab\\".to_string()).unwrap_err();
    assert_eq!(err.kind, ScanErrorKind::UnterminatedEscapeSequence);
}

#[test]
fn unterminated_block_comment() {
    let err = scan_code("--[[ never closed".to_string()).unwrap_err();
    assert_eq!(
        err.kind,
        ScanErrorKind::UnterminatedLongBracket { comment: true }
    );
}

#[test]
fn labels_are_unsupported() {
    let err = scan_code("::label::".to_string()).unwrap_err();
    assert_eq!(err.kind, ScanErrorKind::UnsupportedFeature);
    assert_eq!(err.line, 1);
    assert_eq!(err.column, 1);
}

#[test]
fn unexpected_character_is_a_reported_error() {
    let err = scan_code("local x = @".to_string()).unwrap_err();
    assert_eq!(err.kind, ScanErrorKind::UnexpectedCharacter);
    assert_eq!(err.line, 1);
    assert_eq!(err.column, 11);
}

#[test]
fn error_positions_track_lines() {
    let err = scan_code("a = 1\nb = ::".to_string()).unwrap_err();
    assert_eq!(err.kind, ScanErrorKind::UnsupportedFeature);
    assert_eq!(err.line, 2);
}

#[test]
fn string_lexemes_keep_their_quotes() {
    let tokens = scan_code("\"hi\" 'ho'".to_string()).unwrap();
    assert_eq!(tokens[0].lexeme().as_symbol(), "\"hi\"");
    assert_eq!(tokens[1].lexeme().as_symbol(), "'ho'");
}

#[test]
fn empty_source_scans_to_nothing() {
    assert_eq!(scan_code(String::new()).unwrap().len(), 0);
    assert_eq!(scan_code("  \t\r\n".to_string()).unwrap().len(), 0);
}
