use probe::lexer::Lexer;
use probe::token::{Lexeme, Number, Token, TokenType};

#[test]
fn advance_walks_the_buffer() {
    let mut lx = Lexer::new("ab\nc".to_string());
    assert_eq!(lx.line, 1);
    assert_eq!(lx.column, 0);
    assert_eq!(lx.advance(), Some('a'));
    assert_eq!((lx.line, lx.column), (1, 1));
    assert_eq!(lx.advance(), Some('b'));
    assert_eq!(lx.advance(), Some('\n'));
    assert_eq!((lx.line, lx.column), (2, 0));
    assert_eq!(lx.advance(), Some('c'));
    assert!(lx.done());
    assert_eq!(lx.advance(), None);
}

#[test]
fn go_back_unconsumes_one_character() {
    let mut lx = Lexer::new("x\ny".to_string());
    assert_eq!(lx.go_back(), None);
    lx.advance();
    lx.advance();
    assert_eq!((lx.line, lx.column), (2, 0));
    assert_eq!(lx.go_back(), Some('\n'));
    assert_eq!((lx.line, lx.column), (1, 0));
    assert_eq!(lx.go_back(), Some('x'));
    assert_eq!(lx.current, 0);
}

#[test]
fn peek_and_peek_at_do_not_consume() {
    let mut lx = Lexer::new("abc".to_string());
    assert_eq!(lx.peek(), Some('a'));
    assert_eq!(lx.peek_at(1), Some('a'));
    assert_eq!(lx.peek_at(2), Some('b'));
    assert_eq!(lx.peek_at(3), Some('c'));
    assert_eq!(lx.peek_at(4), None);
    assert_eq!(lx.current, 0);
    lx.advance();
    assert_eq!(lx.peek(), Some('b'));
}

#[test]
fn look_back_sees_two_behind() {
    let mut lx = Lexer::new("pq".to_string());
    assert_eq!(lx.look_back(), None);
    lx.advance();
    assert_eq!(lx.look_back(), None);
    lx.advance();
    assert_eq!(lx.look_back(), Some('p'));
}

#[test]
fn advance_to_consumes_in_one_step() {
    let mut lx = Lexer::new("abcd".to_string());
    assert_eq!(lx.advance_to(3), Some('c'));
    assert_eq!(lx.current, 3);
    assert_eq!(lx.column, 3);
    assert_eq!(lx.advance_to(2), None);
    assert_eq!(lx.current, 3);
}

#[test]
fn add_token_slices_trailing_text() {
    let mut lx = Lexer::new("<=".to_string());
    lx.advance();
    lx.advance();
    lx.add_token(TokenType::LessThanOrEqual, 2);
    assert_eq!(lx.tokens.len(), 1);
    assert_eq!(lx.tokens[0].lexeme().as_symbol(), "<=");
    assert_eq!(lx.tokens[0].line(), 1);
}

#[test]
fn add_token_front_consumes_the_rest() {
    let mut lx = Lexer::new("...x".to_string());
    lx.advance();
    lx.add_token_front(TokenType::TripleDot, 3);
    assert_eq!(lx.current, 3);
    assert_eq!(lx.tokens[0].lexeme().as_symbol(), "...");
}

#[test]
fn read_string_requires_the_quote_consumed() {
    let mut lx = Lexer::new("'ab'".to_string());
    lx.advance();
    assert!(lx.read_string('\'').is_ok());
    assert_eq!(lx.tokens[0].kind(), TokenType::String);
    assert_eq!(lx.tokens[0].lexeme().as_symbol(), "'ab'");
}

#[test]
fn read_multiline_string_directly() {
    let mut lx = Lexer::new("[=[x]=]".to_string());
    lx.advance();
    assert!(lx.read_multiline_string().is_ok());
    assert_eq!(lx.tokens[0].lexeme().as_symbol(), "[=[x]=]");
}

#[test]
fn read_multiline_comment_directly() {
    let mut lx = Lexer::new("[[x]]y".to_string());
    lx.advance();
    assert!(lx.read_multiline_comment().is_ok());
    assert_eq!(lx.tokens.len(), 0);
    assert_eq!(lx.peek(), Some('y'));
}

#[test]
fn read_token_rejects_a_bad_start() {
    let mut lx = Lexer::new("1x".to_string());
    let err = lx.read_token().unwrap_err();
    assert_eq!(err.kind, probe::token::ScanErrorKind::InvalidIdentifierStart);
}

#[test]
fn read_token_reads_a_keyword() {
    let mut lx = Lexer::new("while true".to_string());
    assert!(lx.read_token().is_ok());
    assert_eq!(lx.tokens[0].kind(), TokenType::While);
    assert_eq!(lx.tokens[0].lexeme().as_symbol(), "while");
}

#[test]
fn read_number_consumes_exactly_the_literal() {
    let mut lx = Lexer::new("3.25+".to_string());
    assert!(lx.read_number().is_ok());
    assert_eq!(lx.tokens[0].kind(), TokenType::Number);
    assert_eq!(lx.tokens[0].lexeme().as_number().text, "3.25");
    assert_eq!(lx.peek(), Some('+'));
}

#[test]
fn token_constructors_and_getters() {
    let t = Token::new(TokenType::Identifier, "abc".to_string(), 7);
    assert_eq!(t.kind(), TokenType::Identifier);
    assert_eq!(t.line(), 7);
    assert_eq!(t.lexeme().as_symbol(), "abc");

    let n = Token::new_number(TokenType::Number, Number { text: "12".to_string() }, 3);
    assert_eq!(n.kind(), TokenType::Number);
    assert_eq!(n.line(), 3);
    assert_eq!(n.lexeme().as_number().text, "12");
}

#[test]
fn lexemes_compare_by_value() {
    let a = Lexeme::Symbol("x".to_string());
    let b = Lexeme::Symbol("x".to_string());
    let c = Lexeme::Number(Number { text: "1".to_string() });
    assert_eq!(a, b);
    assert_ne!(a, c);
}

#[test]
fn unicode_identifier_continuation() {
    // An ASCII start may continue with any Unicode alphanumeric character.
    let tokens = probe::lexer::scan_code("gru\u{df} = 1".to_string()).unwrap();
    assert_eq!(tokens[0].kind(), TokenType::Identifier);
    assert_eq!(tokens[0].lexeme().as_symbol(), "gru\u{df}");
}
