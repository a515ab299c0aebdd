use miniforth::lexer::Token;
use miniforth::num::parse_i32_chars;
use miniforth::value::{TokenId, Value};
use miniforth::vm::VirtualMachine;

#[test]
fn get_str_renders_values() {
    assert_eq!(Value::Int(42).get_str(), "42");
    assert_eq!(Value::Int(-7).get_str(), "-7");
    assert_eq!(Value::Int(0).get_str(), "0");
    assert_eq!(Value::Str(String::from("HELLO")).get_str(), "HELLO");
}

#[test]
fn get_int_reads_values() {
    assert_eq!(Value::Int(-3).get_int(), -3);
    assert_eq!(Value::Str(String::from("X")).get_int(), 0);
}

#[test]
fn parse_splits_into_tokens() {
    let vm = VirtualMachine::new();
    let toks: Vec<Token> = vm.parse("1 2 + DUP : ; FOO").unwrap();
    let ids: Vec<TokenId> = toks.iter().map(|t| t.id).collect();
    assert_eq!(
        ids,
        vec![
            TokenId::Digit,
            TokenId::Digit,
            TokenId::Plus,
            TokenId::Text,
            TokenId::Colon,
            TokenId::Semicolon,
            TokenId::Text,
        ]
    );
    assert_eq!(toks[0].itself.as_deref(), Some("1"));
    assert_eq!(toks[3].itself.as_deref(), Some("DUP"));
    assert_eq!(toks[6].itself.as_deref(), Some("FOO"));
}

#[test]
fn parse_reassembles_quoted_strings() {
    let vm = VirtualMachine::new();
    let toks = vm.parse("\"HELLO BIG WORLD\" 5").unwrap();
    assert_eq!(toks.len(), 2);
    assert_eq!(toks[0].id, TokenId::Text);
    assert_eq!(toks[0].itself.as_deref(), Some("HELLO BIG WORLD"));
    assert_eq!(toks[1].id, TokenId::Digit);
}

#[test]
fn parse_strips_quotes_from_single_word_strings() {
    let vm = VirtualMachine::new();
    let toks = vm.parse("\"HI\"").unwrap();
    assert_eq!(toks.len(), 1);
    assert_eq!(toks[0].itself.as_deref(), Some("HI"));
}

#[test]
fn numerals_parse_with_signs_and_limits() {
    let digits = |s: &str| -> Vec<char> { s.chars().collect() };
    assert_eq!(parse_i32_chars(&digits("0")), Some(0));
    assert_eq!(parse_i32_chars(&digits("+17")), Some(17));
    assert_eq!(parse_i32_chars(&digits("-17")), Some(-17));
    assert_eq!(parse_i32_chars(&digits("2147483647")), Some(i32::MAX));
    assert_eq!(parse_i32_chars(&digits("-2147483648")), Some(i32::MIN));
    assert_eq!(parse_i32_chars(&digits("2147483648")), None);
    assert_eq!(parse_i32_chars(&digits("-2147483649")), None);
    assert_eq!(parse_i32_chars(&digits("99999999999999999999")), None);
    assert_eq!(parse_i32_chars(&digits("")), None);
    assert_eq!(parse_i32_chars(&digits("+")), None);
    assert_eq!(parse_i32_chars(&digits("1X2")), None);
}

#[test]
fn codegen_rejects_bad_digit_tokens() {
    let vm = VirtualMachine::new();
    let toks = vec![Token { id: TokenId::Digit, itself: Some(String::from("NOPE")) }];
    assert!(vm.codegen(&toks).is_err());
}

#[test]
fn codegen_compiles_and_appends_print_top() {
    let vm = VirtualMachine::new();
    let toks = vm.parse("1 2 +").unwrap();
    let prog = vm.codegen(&toks).unwrap();
    assert_eq!(prog.len(), 4);
}
