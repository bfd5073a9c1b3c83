use arit_lexer::scanner::Scanner;
use arit_lexer::token::{LexError, Token};
use arit_lexer::tokenizer::{tokenize, Tokenizer};

fn tokenizer_for(input: Vec<u8>) -> Tokenizer {
    Tokenizer::new(Scanner::new(input))
}

/// Collect every token, panicking on a lexical error.
fn tokens_of(input: &[u8]) -> Vec<Token> {
    let mut tokenizer = tokenizer_for(input.to_vec());
    let mut tokens: Vec<Token> = Vec::new();
    loop {
        match tokenizer.next() {
            Ok(Some(token)) => tokens.push(token),
            Ok(None) => break,
            Err(e) => panic!("unexpected lexical error: {:?}", e),
        }
    }
    tokens
}

fn rendered(input: &[u8]) -> String {
    let parts: Vec<String> = tokens_of(input).iter().map(|t| t.to_text()).collect();
    parts.join(" ")
}

#[test]
fn round_trip_sample() {
    let toks = tokens_of(b"a+1-bc+def-23+456");
    assert_eq!(
        toks,
        vec![
            Token::IDENTIFIER("a".to_string()),
            Token::PLUS,
            Token::NUMBER(1),
            Token::MINUS,
            Token::IDENTIFIER("bc".to_string()),
            Token::PLUS,
            Token::IDENTIFIER("def".to_string()),
            Token::MINUS,
            Token::NUMBER(23),
            Token::PLUS,
            Token::NUMBER(456),
        ]
    );
    assert_eq!(
        rendered(b"a+1-bc+def-23+456"),
        "IDENTIFIER(a) PLUS NUMBER(1) MINUS IDENTIFIER(bc) PLUS IDENTIFIER(def) MINUS NUMBER(23) PLUS NUMBER(456)"
    );
}

#[test]
fn empty_input_yields_no_tokens() {
    assert_eq!(tokens_of(b""), vec![]);
}

#[test]
fn whitespace_only_yields_no_tokens() {
    assert_eq!(tokens_of(b"   "), vec![]);
    assert_eq!(tokens_of(b" \t\r\n \x0b\x0c"), vec![]);
}

#[test]
fn nbsp_and_nel_are_whitespace() {
    assert_eq!(
        tokens_of(&[0xA0, b'z', 0x85]),
        vec![Token::IDENTIFIER("z".to_string())]
    );
}

#[test]
fn plus_minus_two_tokens() {
    assert_eq!(tokens_of(b"+-"), vec![Token::PLUS, Token::MINUS]);
}

#[test]
fn overflow_is_reported() {
    let mut tokenizer = tokenizer_for(b"9999999999".to_vec());
    assert_eq!(tokenizer.next(), Err(LexError::NumberOverflow));
    assert_eq!(tokenizer.next(), Ok(None));
}

#[test]
fn thirty_two_bit_boundary() {
    assert_eq!(tokens_of(b"4294967295"), vec![Token::NUMBER(4294967295)]);
    let mut tokenizer = tokenizer_for(b"4294967296".to_vec());
    assert_eq!(tokenizer.next(), Err(LexError::NumberOverflow));
}

#[test]
fn identifier_maximal_munch() {
    assert_eq!(
        tokens_of(b"abc123 x9"),
        vec![
            Token::IDENTIFIER("abc123".to_string()),
            Token::IDENTIFIER("x9".to_string()),
        ]
    );
}

#[test]
fn number_maximal_munch_and_value() {
    assert_eq!(
        tokens_of(b" 00123 7 "),
        vec![Token::NUMBER(123), Token::NUMBER(7)]
    );
}

#[test]
fn number_stops_at_first_non_digit() {
    assert_eq!(
        tokens_of(b"123abc"),
        vec![Token::NUMBER(123), Token::IDENTIFIER("abc".to_string())]
    );
}

#[test]
fn unrecognized_character_reports_position() {
    let mut tokenizer = tokenizer_for(b"a *b".to_vec());
    assert_eq!(
        tokenizer.next(),
        Ok(Some(Token::IDENTIFIER("a".to_string())))
    );
    assert_eq!(
        tokenizer.next(),
        Err(LexError::UnrecognizedCharacter('*', 2))
    );
    assert_eq!(
        tokenizer.next(),
        Ok(Some(Token::IDENTIFIER("b".to_string())))
    );
    assert_eq!(tokenizer.next(), Ok(None));
}

#[test]
fn exhaustion_is_stable() {
    let mut tokenizer = tokenizer_for(b"x".to_vec());
    assert_eq!(
        tokenizer.next(),
        Ok(Some(Token::IDENTIFIER("x".to_string())))
    );
    assert_eq!(tokenizer.next(), Ok(None));
    assert_eq!(tokenizer.next(), Ok(None));
    assert_eq!(tokenizer.next(), Ok(None));
}

#[test]
fn peek_is_idempotent() {
    let mut scanner = Scanner::new(b"ab".to_vec());
    assert_eq!(scanner.position(), 0);
    assert_eq!(scanner.peek(), Some('a'));
    assert_eq!(scanner.peek(), Some('a'));
    assert_eq!(scanner.peek(), Some('a'));
    assert_eq!(scanner.position(), 0);
    assert_eq!(scanner.next(), Some('a'));
    assert_eq!(scanner.position(), 1);
    assert_eq!(scanner.peek(), Some('b'));
    assert_eq!(scanner.next(), Some('b'));
    assert_eq!(scanner.peek(), None);
    assert_eq!(scanner.peek(), None);
    assert_eq!(scanner.next(), None);
    assert_eq!(scanner.position(), 2);
}

#[test]
fn scanner_reads_bytes_as_chars() {
    let mut scanner = Scanner::new(vec![0x61, 0xE9]);
    assert_eq!(scanner.next(), Some('a'));
    assert_eq!(scanner.next(), Some('\u{E9}'));
    assert_eq!(scanner.next(), None);
}

#[test]
fn latin1_letters_form_identifiers() {
    assert_eq!(
        tokens_of(&[b'c', b'a', b'f', 0xE9]),
        vec![Token::IDENTIFIER("caf\u{E9}".to_string())]
    );
}

#[test]
fn superscript_continues_an_identifier() {
    assert_eq!(
        tokens_of(&[b'a', 0xB2]),
        vec![Token::IDENTIFIER("a\u{B2}".to_string())]
    );
}

#[test]
fn superscript_starts_no_token() {
    let mut tokenizer = tokenizer_for(vec![0xB2]);
    assert_eq!(
        tokenizer.next(),
        Err(LexError::UnrecognizedCharacter('\u{B2}', 0))
    );
    assert_eq!(tokenizer.next(), Ok(None));
}

#[test]
fn tokenize_collects_the_whole_stream() {
    assert_eq!(
        tokenize(b"a+1".to_vec()),
        Ok(vec![
            Token::IDENTIFIER("a".to_string()),
            Token::PLUS,
            Token::NUMBER(1),
        ])
    );
    assert_eq!(tokenize(b"  ".to_vec()), Ok(vec![]));
    assert_eq!(
        tokenize(b"1 ?".to_vec()),
        Err(LexError::UnrecognizedCharacter('?', 2))
    );
    assert_eq!(
        tokenize(b"99999999990".to_vec()),
        Err(LexError::NumberOverflow)
    );
}

#[test]
fn tokenize_matches_token_iteration() {
    let input = b"a+1-bc+def-23+456";
    assert_eq!(tokenize(input.to_vec()), Ok(tokens_of(input)));
}

#[test]
fn token_rendering() {
    assert_eq!(
        Token::IDENTIFIER("a".to_string()).to_text(),
        "IDENTIFIER(a)"
    );
    assert_eq!(Token::NUMBER(12).to_text(), "NUMBER(12)");
    assert_eq!(Token::NUMBER(0).to_text(), "NUMBER(0)");
    assert_eq!(Token::NUMBER(4294967295).to_text(), "NUMBER(4294967295)");
    assert_eq!(Token::PLUS.to_text(), "PLUS");
    assert_eq!(Token::MINUS.to_text(), "MINUS");
}
