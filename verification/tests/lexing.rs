use json_ast::error::{Error, ErrorKind};
use json_ast::lexer::Lexer;
use json_ast::token::Token;
use json_ast::token_types::TokenTypes;

fn lex(input: &str) -> Result<Vec<Token>, Error> {
    let mut lexer = Lexer::new(input.as_bytes().to_vec());
    lexer.lex()
}

#[test]
fn integer_literal_token() {
    let toks = lex("123").unwrap();
    assert_eq!(toks.len(), 1);
    assert_eq!(toks[0].tok_type, TokenTypes::Int);
    assert_eq!(toks[0].tok_value, b"123".to_vec());
    assert_eq!(toks[0].pos_start.index, 0);
    assert_eq!(toks[0].pos_end.index, 3);
}

#[test]
fn float_literal_token() {
    let toks = lex("0.5").unwrap();
    assert_eq!(toks.len(), 1);
    assert_eq!(toks[0].tok_type, TokenTypes::Float);
    assert_eq!(toks[0].tok_value, b"0.5".to_vec());
}

#[test]
fn keyword_tokens_for_reserved_words() {
    for word in ["true", "false", "null"] {
        let toks = lex(word).unwrap();
        assert_eq!(toks.len(), 1);
        assert_eq!(toks[0].tok_type, TokenTypes::Keyword);
        assert_eq!(toks[0].tok_value, word.as_bytes().to_vec());
    }
}

#[test]
fn token_matches_kind_and_text() {
    let toks = lex("null").unwrap();
    assert!(toks[0].matches(TokenTypes::Keyword, "null"));
    assert!(!toks[0].matches(TokenTypes::Keyword, "nul"));
    assert!(!toks[0].matches(TokenTypes::Str, "null"));
}

#[test]
fn structural_tokens_one_byte_each() {
    let toks = lex("[]{},:").unwrap();
    let kinds: Vec<TokenTypes> = toks.iter().map(|t| t.tok_type).collect();
    assert_eq!(
        kinds,
        vec![
            TokenTypes::ArrayOpen,
            TokenTypes::ArrayClose,
            TokenTypes::ObjectOpen,
            TokenTypes::ObjectClose,
            TokenTypes::Comma,
            TokenTypes::Colon,
        ]
    );
    for (i, t) in toks.iter().enumerate() {
        assert_eq!(t.pos_start.index, i);
        assert_eq!(t.pos_end.index, i + 1);
        assert!(t.tok_value.is_empty());
    }
}

#[test]
fn whitespace_only_yields_no_tokens() {
    let toks = lex(" \t\r\n ").unwrap();
    assert!(toks.is_empty());
}

#[test]
fn illegal_character_cites_exact_position() {
    let err = lex("{\n  #").unwrap_err();
    assert_eq!(err.kind, ErrorKind::IllegalCharacter(b'#'));
    assert_eq!(err.pos_start.ln, 2);
    assert_eq!(err.pos_start.cn, 3);
    assert_eq!(err.pos_end.ln, 2);
    assert_eq!(err.pos_end.cn, 4);
}

#[test]
fn illegal_character_alone() {
    let err = lex("#").unwrap_err();
    assert_eq!(err.kind, ErrorKind::IllegalCharacter(b'#'));
    assert_eq!(err.pos_start.ln, 1);
    assert_eq!(err.pos_start.cn, 1);
}

#[test]
fn unterminated_string_is_an_error_not_a_token() {
    let err = lex("\"abc").unwrap_err();
    assert_eq!(err.kind, ErrorKind::UnterminatedString);
    assert_eq!(err.pos_start.index, 0);
    assert_eq!(err.pos_end.index, 4);
}

#[test]
fn string_token_spans_quotes_and_keeps_raw_bytes() {
    let toks = lex("\"a b\"").unwrap();
    assert_eq!(toks.len(), 1);
    assert_eq!(toks[0].tok_type, TokenTypes::Str);
    assert_eq!(toks[0].tok_value, b"a b".to_vec());
    assert_eq!(toks[0].pos_start.index, 0);
    assert_eq!(toks[0].pos_end.index, 5);
}

#[test]
fn backslash_has_no_special_meaning_in_strings() {
    let toks = lex("\"a\\n\"").unwrap();
    assert_eq!(toks.len(), 1);
    assert_eq!(toks[0].tok_value, b"a\\n".to_vec());
}

#[test]
fn number_with_exponent_letter_is_one_float() {
    let toks = lex("2e5").unwrap();
    assert_eq!(toks.len(), 1);
    assert_eq!(toks[0].tok_type, TokenTypes::Float);
    assert_eq!(toks[0].tok_value, b"2e5".to_vec());
}

#[test]
fn number_stops_once_dot_and_e_have_both_appeared() {
    let toks = lex("1.5e2").unwrap();
    assert_eq!(toks.len(), 2);
    assert_eq!(toks[0].tok_type, TokenTypes::Float);
    assert_eq!(toks[0].tok_value, b"1.5".to_vec());
    assert_eq!(toks[1].tok_type, TokenTypes::Keyword);
    assert_eq!(toks[1].tok_value, b"e2".to_vec());
}

#[test]
fn number_stops_before_a_second_dot() {
    let toks = lex("1..2").unwrap();
    assert_eq!(toks.len(), 2);
    assert_eq!(toks[0].tok_type, TokenTypes::Float);
    assert_eq!(toks[0].tok_value, b"1.".to_vec());
    assert_eq!(toks[1].tok_type, TokenTypes::Float);
    assert_eq!(toks[1].tok_value, b".2".to_vec());
}

#[test]
fn identifier_collects_letters_digits_underscore_and_dot() {
    let toks = lex("ab_1.c").unwrap();
    assert_eq!(toks.len(), 1);
    assert_eq!(toks[0].tok_type, TokenTypes::Keyword);
    assert_eq!(toks[0].tok_value, b"ab_1.c".to_vec());
}

#[test]
fn lexing_fails_fast_on_first_error() {
    let err = lex("[1, @ 2]").unwrap_err();
    assert_eq!(err.kind, ErrorKind::IllegalCharacter(b'@'));
}

#[test]
fn newlines_advance_lines_in_positions() {
    let toks = lex("1\n2").unwrap();
    assert_eq!(toks.len(), 2);
    assert_eq!(toks[0].pos_start.ln, 1);
    assert_eq!(toks[1].pos_start.ln, 2);
    assert_eq!(toks[1].pos_start.cn, 1);
}
