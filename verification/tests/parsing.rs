use conflang::parse_vars;
use conflang::next_token;
use conflang::scan_name;
use conflang::scan_string;
use conflang::ParseError;
use conflang::Stream;
use conflang::Token;
use conflang::Value;
use conflang::VarMap;

fn parsed(source: &str) -> VarMap {
    match parse_vars(source) {
        Ok(vars) => vars,
        Err(e) => panic!("expected a successful parse, got {:?}", e),
    }
}

fn parse_err(source: &str) -> ParseError {
    match parse_vars(source) {
        Ok(_) => panic!("expected an error"),
        Err(e) => e,
    }
}

fn int_of(vars: &VarMap, name: &str) -> i64 {
    let key: String = name.to_string();
    match vars.get(&key).expect("name not found") {
        Value::Integer(n) => *n,
        other => panic!("expected an integer, got {:?}", other),
    }
}

fn str_of(vars: &VarMap, name: &str) -> String {
    let key: String = name.to_string();
    match vars.get(&key).expect("name not found") {
        Value::String(s) => s.clone(),
        other => panic!("expected a string, got {:?}", other),
    }
}

fn float_of(vars: &VarMap, name: &str) -> f64 {
    let key: String = name.to_string();
    match vars.get(&key).expect("name not found") {
        Value::Float(text) => text.parse::<f64>().expect("ill-formed float literal"),
        other => panic!("expected a float, got {:?}", other),
    }
}

#[test]
fn test_parsing() {
    let source = "
		# Comment
		variable_str   := \"string literal\"
		variable_int   := -15
		variable_float := 105.3";
    let vars = match parse_vars(source) {
        Ok(ok) => ok,
        Err(e) => panic!("{:?}", e),
    };
    {
        let key: String = "variable_str".to_string();
        match vars.get(&key).expect("Name didn't get parsed correctly") {
            Value::String(s) => assert_eq!(s, "string literal"),
            _ => panic!("String literal didn't parse correctly"),
        }
    }
    {
        let key: String = "variable_int".to_string();
        match vars.get(&key).expect("Name didn't get parsed correctly") {
            Value::Integer(n) => assert_eq!(*n, -15),
            _ => panic!("Integer literal didn't parse correctly"),
        }
    }
    {
        let key: String = "variable_float".to_string();
        match vars.get(&key).expect("Name didn't get parsed correctly") {
            Value::Float(f) => assert_eq!(f.parse::<f64>().unwrap(), 105.3),
            _ => panic!("Float literal didnt' parse correctly"),
        }
    }
}

#[test]
fn end_to_end_example_has_exactly_three_entries() {
    let source = "
		# Comment
		variable_str   := \"string literal\"
		variable_int   := -15
		variable_float := 105.3";
    let vars = parsed(source);
    assert_eq!(vars.len(), 3);
    assert_eq!(str_of(&vars, "variable_str"), "string literal");
    assert_eq!(int_of(&vars, "variable_int"), -15);
    assert_eq!(float_of(&vars, "variable_float"), 105.3);
}

#[test]
fn literal_positive_integer() {
    let vars = parsed("x := 42");
    assert_eq!(int_of(&vars, "x"), 42);
}

#[test]
fn literal_negative_integer() {
    let vars = parsed("x := -15");
    assert_eq!(int_of(&vars, "x"), -15);
}

#[test]
fn literal_plus_signed_integer() {
    let vars = parsed("x := +7");
    assert_eq!(int_of(&vars, "x"), 7);
}

#[test]
fn literal_float() {
    let vars = parsed("x := 3.5");
    assert_eq!(float_of(&vars, "x"), 3.5);
}

#[test]
fn literal_float_trailing_dot() {
    let vars = parsed("x := 5.");
    assert_eq!(float_of(&vars, "x"), 5.0);
}

#[test]
fn literal_float_leading_dot() {
    let vars = parsed("x := .5");
    assert_eq!(float_of(&vars, "x"), 0.5);
}

#[test]
fn literal_string() {
    let vars = parsed("x := \"abc\"");
    assert_eq!(str_of(&vars, "x"), "abc");
}

#[test]
fn literal_empty_string() {
    let vars = parsed("x := \"\"");
    assert_eq!(str_of(&vars, "x"), "");
}

#[test]
fn integer_extremes_fit() {
    let vars = parsed("lo := -9223372036854775808 hi := 9223372036854775807");
    assert_eq!(int_of(&vars, "lo"), i64::MIN);
    assert_eq!(int_of(&vars, "hi"), i64::MAX);
}

#[test]
fn integer_overflow_is_invalid_literal() {
    assert_eq!(parse_err("x := 9223372036854775808"), ParseError::InvalidLiteral);
    assert_eq!(parse_err("x := -9223372036854775809"), ParseError::InvalidLiteral);
    assert_eq!(parse_err("x := 99999999999999999999"), ParseError::InvalidLiteral);
}

#[test]
fn bare_sign_is_invalid_literal() {
    assert_eq!(parse_err("x := -"), ParseError::InvalidLiteral);
    assert_eq!(parse_err("x := +"), ParseError::InvalidLiteral);
}

#[test]
fn two_dots_is_invalid_literal() {
    assert_eq!(parse_err("x := 1.2.3"), ParseError::InvalidLiteral);
}

#[test]
fn lone_dot_is_invalid_literal() {
    assert_eq!(parse_err("x := ."), ParseError::InvalidLiteral);
}

#[test]
fn nonascii_digit_is_invalid_literal() {
    assert_eq!(parse_err("x := \u{0663}"), ParseError::InvalidLiteral);
}

#[test]
fn missing_literal_is_expected_literal() {
    assert_eq!(parse_err("x := "), ParseError::ExpectedLiteral);
}

#[test]
fn missing_assignment_is_expected_equals() {
    assert_eq!(parse_err("x 5"), ParseError::ExpectedEquals);
}

#[test]
fn colon_without_equals_is_expected_equals() {
    assert_eq!(parse_err("x :- 5"), ParseError::ExpectedEquals);
    assert_eq!(parse_err("x :"), ParseError::ExpectedEquals);
}

#[test]
fn unterminated_string_is_reported() {
    assert_eq!(parse_err("\"unterminated"), ParseError::UnterminatedString);
}

#[test]
fn unrecognized_char_is_reported() {
    assert_eq!(parse_err("x := @"), ParseError::UnrecognizedChar);
}

#[test]
fn leading_literal_is_expected_name() {
    assert_eq!(parse_err("5 := 3"), ParseError::ExpectedName);
    assert_eq!(parse_err(":= 3"), ParseError::ExpectedName);
}

#[test]
fn empty_source_is_empty_mapping() {
    let vars = parsed("");
    assert_eq!(vars.len(), 0);
}

#[test]
fn blank_source_is_empty_mapping() {
    let vars = parsed(" \t \n\r\n   ");
    assert_eq!(vars.len(), 0);
}

#[test]
fn comment_only_source_is_empty_mapping() {
    let vars = parsed("# nothing but a comment");
    assert_eq!(vars.len(), 0);
    let vars2 = parsed("# a comment with ?? @@ invalid syntax := := \n# and another\n");
    assert_eq!(vars2.len(), 0);
}

#[test]
fn comment_hides_invalid_syntax() {
    let vars = parsed("a := 1\n# x := := @@?\nb := 2");
    assert_eq!(vars.len(), 2);
    assert_eq!(int_of(&vars, "a"), 1);
    assert_eq!(int_of(&vars, "b"), 2);
}

#[test]
fn trailing_comment_without_newline() {
    let vars = parsed("x := 1 # trailing");
    assert_eq!(vars.len(), 1);
    assert_eq!(int_of(&vars, "x"), 1);
}

#[test]
fn whitespace_between_tokens_changes_nothing() {
    let tight = parsed("a:=1 b:=\"s\"");
    let airy = parsed("  a \t :=\n 1 \r\n b\t:= \"s\"  ");
    assert_eq!(tight.len(), airy.len());
    assert_eq!(int_of(&tight, "a"), int_of(&airy, "a"));
    assert_eq!(str_of(&tight, "b"), str_of(&airy, "b"));
}

#[test]
fn last_declaration_wins() {
    let vars = parsed("a := 1 a := 2 b := 3 a := 4");
    assert_eq!(vars.len(), 2);
    assert_eq!(int_of(&vars, "a"), 4);
    assert_eq!(int_of(&vars, "b"), 3);
}

#[test]
fn parsing_twice_yields_equal_mappings() {
    let source = "a := 1 b := \"two\" c := 3.5";
    let first = parsed(source);
    let second = parsed(source);
    assert_eq!(first.len(), second.len());
    assert_eq!(int_of(&first, "a"), int_of(&second, "a"));
    assert_eq!(str_of(&first, "b"), str_of(&second, "b"));
    assert_eq!(float_of(&first, "c"), float_of(&second, "c"));
}

#[test]
fn names_are_greedy_until_whitespace_or_colon() {
    let vars = parsed("a#b := 1");
    assert_eq!(int_of(&vars, "a#b"), 1);
    let vars2 = parsed("x=y := 2");
    assert_eq!(int_of(&vars2, "x=y"), 2);
}

#[test]
fn unicode_names_are_accepted() {
    let vars = parsed("h\u{e9}llo := 1 _under := 2");
    assert_eq!(int_of(&vars, "h\u{e9}llo"), 1);
    assert_eq!(int_of(&vars, "_under"), 2);
}

#[test]
fn absent_name_is_not_found() {
    let vars = parsed("a := 1");
    let key: String = "b".to_string();
    assert!(vars.get(&key).is_none());
}

#[test]
fn nul_in_source_acts_as_end_of_input() {
    let vars = parsed("a := 1\u{0}b := @@@");
    assert_eq!(vars.len(), 1);
    assert_eq!(int_of(&vars, "a"), 1);
}

#[test]
fn nul_inside_string_leaves_it_unterminated() {
    assert_eq!(parse_err("x := \"ab\u{0}cd\""), ParseError::UnterminatedString);
}

#[test]
fn stream_returns_sentinel_past_the_end() {
    let mut s = Stream::new("a");
    assert_eq!(s.peek(), 'a');
    assert_eq!(s.next(), 'a');
    assert_eq!(s.peek(), '\0');
    assert_eq!(s.next(), '\0');
    assert_eq!(s.next(), '\0');
    assert!(s.at_end());
}

#[test]
fn scan_name_stops_at_colon() {
    let mut s = Stream::new("abc:=1");
    let name = scan_name(&mut s);
    assert_eq!(name, "abc");
    assert_eq!(s.peek(), ':');
}

#[test]
fn scan_string_stops_at_quote() {
    let mut s = Stream::new("hello\" rest");
    let body = scan_string(&mut s);
    assert_eq!(body, "hello");
    assert_eq!(s.peek(), '"');
}

#[test]
fn next_token_walks_a_declaration() {
    let mut s = Stream::new("key := \"val\"");
    match next_token(&mut s) {
        Ok(Token::Name(n)) => assert_eq!(n, "key"),
        other => panic!("expected a name, got {:?}", other),
    }
    match next_token(&mut s) {
        Ok(Token::Assignment) => {}
        other => panic!("expected the assignment marker, got {:?}", other),
    }
    match next_token(&mut s) {
        Ok(Token::StringLiteral(v)) => assert_eq!(v, "val"),
        other => panic!("expected a string literal, got {:?}", other),
    }
    match next_token(&mut s) {
        Ok(Token::EOF) => {}
        other => panic!("expected the end of the input, got {:?}", other),
    }
}

#[test]
fn float_keeps_its_literal_text() {
    let vars = parsed("x := -105.3");
    let key: String = "x".to_string();
    match vars.get(&key).expect("name not found") {
        Value::Float(text) => assert_eq!(text, "-105.3"),
        other => panic!("expected a float, got {:?}", other),
    }
}
