use json_ast::error::{Error, ErrorKind};
use json_ast::lexer::Lexer;
use json_ast::nodes::Node;
use json_ast::parser::Parser;
use json_ast::token::Token;

fn lex(input: &str) -> Vec<Token> {
    let mut lexer = Lexer::new(input.as_bytes().to_vec());
    lexer.lex().unwrap()
}

fn parse(input: &str) -> Result<Node, Error> {
    let mut parser = Parser::new(lex(input));
    parser.parse()
}

fn root_pairs(node: &Node) -> &Vec<(Vec<u8>, Node)> {
    match node {
        Node::ObjectNode { pairs, .. } => pairs,
        other => panic!("expected an object at the root, got {:?}", other),
    }
}

#[test]
fn scalar_values_parse_exactly() {
    let node = parse("{\"i\": 123, \"f\": 0.5, \"t\": true, \"x\": false, \"n\": null}").unwrap();
    let pairs = root_pairs(&node);
    assert_eq!(pairs.len(), 5);
    assert_eq!(pairs[0].0, b"i".to_vec());
    assert!(matches!(pairs[0].1, Node::IntNode { value: 123, .. }));
    assert_eq!(pairs[1].0, b"f".to_vec());
    match &pairs[1].1 {
        Node::FloatNode { literal, .. } => {
            assert_eq!(literal, &b"0.5".to_vec());
            let value: f64 = String::from_utf8(literal.clone()).unwrap().parse().unwrap();
            assert_eq!(value, 0.5);
        },
        other => panic!("expected a float, got {:?}", other),
    }
    assert!(matches!(pairs[2].1, Node::BoolNode { boolean: true, .. }));
    assert!(matches!(pairs[3].1, Node::BoolNode { boolean: false, .. }));
    assert!(matches!(pairs[4].1, Node::NullNode { .. }));
}

#[test]
fn string_values_keep_their_bytes() {
    let node = parse("{\"d\": \"Ameer\"}").unwrap();
    let pairs = root_pairs(&node);
    match &pairs[0].1 {
        Node::StrNode { string, .. } => assert_eq!(string, &b"Ameer".to_vec()),
        other => panic!("expected a string, got {:?}", other),
    }
}

#[test]
fn duplicate_keys_keep_only_the_last_write() {
    let node = parse("{\"a\":1,\"a\":2}").unwrap();
    let pairs = root_pairs(&node);
    assert_eq!(pairs.len(), 1);
    assert_eq!(pairs[0].0, b"a".to_vec());
    assert!(matches!(pairs[0].1, Node::IntNode { value: 2, .. }));
}

#[test]
fn array_order_is_preserved() {
    let node = parse("{\"a\":[1,2,3]}").unwrap();
    let pairs = root_pairs(&node);
    match &pairs[0].1 {
        Node::ArrayNode { array, .. } => {
            assert_eq!(array.len(), 3);
            assert!(matches!(array[0], Node::IntNode { value: 1, .. }));
            assert!(matches!(array[1], Node::IntNode { value: 2, .. }));
            assert!(matches!(array[2], Node::IntNode { value: 3, .. }));
        },
        other => panic!("expected an array, got {:?}", other),
    }
}

#[test]
fn trailing_content_fails_citing_the_root_span() {
    let err = parse("{}x").unwrap_err();
    assert_eq!(err.kind, ErrorKind::UnexpectedTrailingInput);
    assert_eq!(err.pos_start.index, 0);
    assert_eq!(err.pos_start.cn, 1);
    assert_eq!(err.pos_end.index, 2);
    assert_eq!(err.pos_end.cn, 3);
}

#[test]
fn missing_colon_fails_with_expected_colon() {
    let err = parse("{\"a\" 1}").unwrap_err();
    assert_eq!(err.kind, ErrorKind::ExpectedColon);
}

#[test]
fn empty_object_is_allowed() {
    let node = parse("{}").unwrap();
    let pairs = root_pairs(&node);
    assert!(pairs.is_empty());
    let (start, end) = node.get_pos();
    assert_eq!(start.index, 0);
    assert_eq!(end.index, 2);
}

#[test]
fn empty_array_is_allowed() {
    let node = parse("{\"a\": []}").unwrap();
    let pairs = root_pairs(&node);
    match &pairs[0].1 {
        Node::ArrayNode { array, .. } => assert!(array.is_empty()),
        other => panic!("expected an array, got {:?}", other),
    }
}

#[test]
fn non_string_key_fails() {
    let err = parse("{1: 2}").unwrap_err();
    assert_eq!(err.kind, ErrorKind::ExpectedKey);
}

#[test]
fn root_must_be_an_object() {
    let err = parse("[1, 2]").unwrap_err();
    assert_eq!(err.kind, ErrorKind::ExpectedOpenDelimiter);
}

#[test]
fn unclosed_object_fails_at_the_end() {
    let err = parse("{\"a\": 1").unwrap_err();
    assert_eq!(err.kind, ErrorKind::ExpectedCloseDelimiter);
}

#[test]
fn stray_keyword_fails_with_expected_value() {
    let err = parse("{\"a\": nil}").unwrap_err();
    assert_eq!(err.kind, ErrorKind::ExpectedValue);
}

#[test]
fn oversized_integer_fails_recoverably() {
    let err = parse("{\"a\": 9999999999999999999999999999999999999999}").unwrap_err();
    assert_eq!(err.kind, ErrorKind::InvalidNumber);
}

#[test]
fn widest_integer_still_fits() {
    let node = parse("{\"a\": 170141183460469231731687303715884105727}").unwrap();
    let pairs = root_pairs(&node);
    assert!(matches!(pairs[0].1, Node::IntNode { value: i128::MAX, .. }));
}

#[test]
fn lone_dot_is_an_invalid_number() {
    let err = parse("{\"a\": .}").unwrap_err();
    assert_eq!(err.kind, ErrorKind::InvalidNumber);
}

#[test]
fn exponent_float_parses_and_converts() {
    let node = parse("{\"a\": 2e5}").unwrap();
    let pairs = root_pairs(&node);
    match &pairs[0].1 {
        Node::FloatNode { literal, .. } => {
            let value: f64 = String::from_utf8(literal.clone()).unwrap().parse().unwrap();
            assert_eq!(value, 200000.0);
        },
        other => panic!("expected a float, got {:?}", other),
    }
}

#[test]
fn nesting_limit_is_enforced() {
    let mut parser = Parser::new(lex("{\"a\": {}}"));
    parser.max_depth = 1;
    let err = parser.parse().unwrap_err();
    assert_eq!(err.kind, ErrorKind::MaxDepthExceeded);

    let mut parser = Parser::new(lex("{\"a\": {}}"));
    parser.max_depth = 2;
    assert!(parser.parse().is_ok());
}

#[test]
fn nested_document_round_trips_structurally() {
    let node = parse(
        "\n{\n  \"a\": true,\n  \"x\": {\"arr\": [0.78, 11]},\n  \"b\": 1,\n  \"d\": \"Ameer\"\n}\n",
    )
    .unwrap();
    let pairs = root_pairs(&node);
    assert_eq!(pairs.len(), 4);
    assert_eq!(pairs[1].0, b"x".to_vec());
    match &pairs[1].1 {
        Node::ObjectNode { pairs: inner, .. } => {
            assert_eq!(inner.len(), 1);
            assert_eq!(inner[0].0, b"arr".to_vec());
            match &inner[0].1 {
                Node::ArrayNode { array, .. } => {
                    assert_eq!(array.len(), 2);
                    assert!(matches!(&array[0], Node::FloatNode { literal, .. } if literal == &b"0.78".to_vec()));
                    assert!(matches!(array[1], Node::IntNode { value: 11, .. }));
                },
                other => panic!("expected an array, got {:?}", other),
            }
        },
        other => panic!("expected an object, got {:?}", other),
    }
}

#[test]
fn node_spans_cover_exactly_the_consumed_input() {
    let node = parse("{\"a\": [1, 22]}").unwrap();
    let (start, end) = node.get_pos();
    assert_eq!(start.index, 0);
    assert_eq!(end.index, 14);
    let pairs = root_pairs(&node);
    let (astart, aend) = pairs[0].1.get_pos();
    assert_eq!(astart.index, 6);
    assert_eq!(aend.index, 13);
}

#[test]
fn errors_deep_in_the_tree_propagate_unchanged() {
    let err = parse("{\"a\": {\"b\": [1, {\"c\" 2}]}}").unwrap_err();
    assert_eq!(err.kind, ErrorKind::ExpectedColon);
}

#[test]
fn repeated_key_keeps_its_place_and_the_last_value() {
    let node = parse("{\"a\":1,\"b\":2,\"a\":3}").unwrap();
    let pairs = root_pairs(&node);
    assert_eq!(pairs.len(), 2);
    assert_eq!(pairs[0].0, b"a".to_vec());
    assert!(matches!(pairs[0].1, Node::IntNode { value: 3, .. }));
    assert_eq!(pairs[1].0, b"b".to_vec());
    assert!(matches!(pairs[1].1, Node::IntNode { value: 2, .. }));
}

#[test]
fn error_positions_survive_multiline_input() {
    let err = parse("{\"a\":\n  {\"b\" true}}").unwrap_err();
    assert_eq!(err.kind, ErrorKind::ExpectedColon);
    assert_eq!(err.pos_start.ln, 2);
    assert_eq!(err.pos_start.cn, 4);
}
