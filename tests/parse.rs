use std::str::FromStr;

use toml_lite::error::ParseError;
use toml_lite::parser::{decode_escape, parse, parse_chars};
use toml_lite::scalar::{classify, Scalar, ScalarError};
use toml_lite::token::Token;
use toml_lite::value::{DateTime, Time, Value};

fn table(entries: Vec<(&str, Value)>) -> Value {
    Value::Table(entries.into_iter().map(|(k, v)| (k.to_string(), v)).collect())
}

fn inline(entries: Vec<(&str, Value)>) -> Value {
    Value::InlineTable(entries.into_iter().map(|(k, v)| (k.to_string(), v)).collect())
}

fn one(v: Value) -> Value {
    table(vec![("key", v)])
}

fn cls(s: &str) -> Result<Scalar, ScalarError> {
    classify(&s.chars().collect())
}

#[test]
fn scalar_string() {
    assert_eq!(parse("key = \"hello\""), Ok(one(Value::StringValue("hello".to_string()))));
    assert_eq!(parse("key = 'a\\b'"), Ok(one(Value::StringValue("a\\b".to_string()))));
}

#[test]
fn scalar_integers() {
    assert_eq!(parse("key = 42"), Ok(one(Value::Integer(42))));
    assert_eq!(parse("key = -17"), Ok(one(Value::Integer(-17))));
    assert_eq!(parse("key = +1_000"), Ok(one(Value::Integer(1000))));
    assert_eq!(parse("key = 9223372036854775807"), Ok(one(Value::Integer(i64::MAX))));
    assert_eq!(parse("key = -9223372036854775808"), Ok(one(Value::Integer(i64::MIN))));
    assert_eq!(parse("key = 9223372036854775808"), Err(ParseError::InvalidNumber(0, 6)));
}

#[test]
fn scalar_float_and_booleans() {
    assert_eq!(parse("key = 3.14"), Ok(one(Value::Float("3.14".to_string()))));
    assert_eq!(parse("key = -1.5e+3"), Ok(one(Value::Float("-1.5e+3".to_string()))));
    assert_eq!(parse("key = true"), Ok(one(Value::Boolean(true))));
    assert_eq!(parse("key = false"), Ok(one(Value::Boolean(false))));
    assert_eq!(parse("key = True"), Err(ParseError::InvalidNumber(0, 6)));
}

#[test]
fn scalar_date_time() {
    let d = DateTime {
        year: 2024,
        month: 1,
        day: 15,
        hour: 10,
        minute: 30,
        second: 0,
        nanosecond: 0,
        offset_minutes: 0,
    };
    assert_eq!(parse("key = 2024-01-15T10:30:00Z"), Ok(one(Value::DateTimeValue(d))));
    let t = Time { hour: 10, minute: 30, second: 0, nanosecond: 0 };
    assert_eq!(parse("key = 10:30:00"), Ok(one(Value::TimeValue(t))));
}

#[test]
fn date_time_details() {
    let d = DateTime {
        year: 2024,
        month: 2,
        day: 29,
        hour: 23,
        minute: 59,
        second: 58,
        nanosecond: 120_000_000,
        offset_minutes: -330,
    };
    assert_eq!(cls("2024-02-29T23:59:58.12-05:30"), Ok(Scalar::DateTimeLit(d)));
    let bare = DateTime {
        year: 1999,
        month: 12,
        day: 31,
        hour: 0,
        minute: 0,
        second: 0,
        nanosecond: 0,
        offset_minutes: 0,
    };
    assert_eq!(cls("1999-12-31"), Ok(Scalar::DateTimeLit(bare)));
    assert_eq!(cls("2023-02-29"), Err(ScalarError::DateTime));
    assert_eq!(cls("2024-13-01"), Err(ScalarError::DateTime));
    assert_eq!(cls("24:00:00"), Err(ScalarError::DateTime));
    assert_eq!(
        cls("00:00:01.000000001"),
        Ok(Scalar::TimeLit(Time { hour: 0, minute: 0, second: 1, nanosecond: 1 }))
    );
    assert_eq!(cls("2024-01-15T10:30"), Err(ScalarError::Number));
    assert_eq!(parse("key = 2024-02-30"), Err(ParseError::InvalidDateTime(0, 6)));
}

#[test]
fn classify_order_and_rejects() {
    assert_eq!(cls("true"), Ok(Scalar::Bool(true)));
    assert_eq!(cls("007"), Ok(Scalar::Int(7)));
    assert_eq!(cls("1.0"), Ok(Scalar::Float));
    assert_eq!(cls("1_"), Err(ScalarError::Number));
    assert_eq!(cls("1__0"), Err(ScalarError::Number));
    assert_eq!(cls("1."), Err(ScalarError::Number));
    assert_eq!(cls("abc"), Err(ScalarError::Number));
    assert_eq!(cls("-"), Err(ScalarError::Number));
}

#[test]
fn duplicate_key_rejected() {
    assert_eq!(parse("a = 1\na = 2"), Err(ParseError::DuplicateKey("a".to_string(), 1, 0)));
}

#[test]
fn nested_table_built() {
    let expected = table(vec![(
        "a",
        table(vec![("b", table(vec![("c", Value::Integer(1))]))]),
    )]);
    assert_eq!(parse("[a.b]\nc = 1"), Ok(expected));
}

#[test]
fn table_array_accumulates() {
    let expected = table(vec![(
        "x",
        Value::TableArray(vec![
            table(vec![("n", Value::Integer(1))]),
            table(vec![("n", Value::Integer(2))]),
        ]),
    )]);
    assert_eq!(parse("[[x]]\nn=1\n[[x]]\nn=2"), Ok(expected));
}

#[test]
fn unclosed_structures_fail() {
    assert_eq!(parse("a = [1, 2"), Err(ParseError::UnexpectedEndOfInput));
    assert_eq!(parse("a = {x = 1"), Err(ParseError::UnexpectedEndOfInput));
    assert_eq!(parse("a = \"abc"), Err(ParseError::UnexpectedEndOfInput));
    assert_eq!(parse("a = 'abc"), Err(ParseError::UnexpectedEndOfInput));
    assert_eq!(parse("[a"), Err(ParseError::UnexpectedEndOfInput));
    assert_eq!(parse("a ="), Err(ParseError::UnexpectedEndOfInput));
}

#[test]
fn error_location_is_stable() {
    let text = "a = 1\nb = [1,\n  2 3]\n";
    let first = parse(text);
    let second = parse(text);
    assert_eq!(first, Err(ParseError::UnexpectedToken("`,` or `]`".to_string(), Token::Number(3), 2, 4)));
    assert_eq!(first, second);
}

#[test]
fn arrays_and_inline_tables() {
    let text = "# header\nk = [ 1, 'two', [3], ]  # trailing\nt = { a = 1, b.c = true }\n";
    let expected = table(vec![
        (
            "k",
            Value::Array(vec![
                Value::Integer(1),
                Value::StringValue("two".to_string()),
                Value::Array(vec![Value::Integer(3)]),
            ]),
        ),
        (
            "t",
            inline(vec![
                ("a", Value::Integer(1)),
                ("b", table(vec![("c", Value::Boolean(true))])),
            ]),
        ),
    ]);
    assert_eq!(parse(text), Ok(expected));
    assert_eq!(parse("t = { a = 1, }"), Err(ParseError::UnexpectedToken("a key".to_string(), Token::RightCurlyBrace, 0, 13)));
    assert_eq!(parse("t = {}"), Ok(one_named("t", inline(vec![]))));
}

fn one_named(k: &str, v: Value) -> Value {
    table(vec![(k, v)])
}

#[test]
fn escapes_decoded() {
    assert_eq!(
        parse("s = \"a\\tb\\n\\\"\\\\\""),
        Ok(one_named("s", Value::StringValue("a\tb\n\"\\".to_string())))
    );
    assert_eq!(
        parse("s = \"a\\qb\""),
        Err(ParseError::InvalidString("unknown escape sequence".to_string(), 0, 6))
    );
    assert_eq!(
        parse("s = \"a\nb\""),
        Err(ParseError::InvalidString("line feed inside a string".to_string(), 0, 6))
    );
    assert_eq!(decode_escape('n'), Some('\n'));
    assert_eq!(decode_escape('x'), None);
}

#[test]
fn quoted_and_dotted_keys() {
    let expected = table(vec![
        ("a b", Value::Integer(1)),
        ("x", table(vec![("y", Value::Integer(2)), ("z", Value::Integer(3))])),
    ]);
    assert_eq!(parse("\"a b\" = 1\nx . y = 2\nx.z = 3"), Ok(expected));
    assert_eq!(parse("x.y = 2\nx.y = 3"), Err(ParseError::DuplicateKey("y".to_string(), 1, 0)));
    assert_eq!(parse("x = 1\nx.y = 3"), Err(ParseError::DuplicateKey("x".to_string(), 1, 0)));
}

#[test]
fn header_rules() {
    assert_eq!(parse("[a]\n[a]"), Err(ParseError::DuplicateKey("a".to_string(), 1, 0)));
    assert_eq!(parse("a = 1\n[a]"), Err(ParseError::DuplicateKey("a".to_string(), 1, 0)));
    assert_eq!(parse("[[a]]\n[a]"), Err(ParseError::DuplicateKey("a".to_string(), 1, 0)));
    assert!(parse("[[a]]\n[a.b]\nx=1\n[[a]]\n[a.b]\nx=2").is_ok());
    assert_eq!(parse("[a.b]\n[a]\nc = 1").is_ok(), true);
}

#[test]
fn illegal_character_and_trailing_garbage() {
    assert_eq!(parse("a = 1 !"), Err(ParseError::IllegalChar('!', 0, 6)));
    assert_eq!(parse("= 1"), Err(ParseError::UnexpectedToken("a key".to_string(), Token::Equal, 0, 0)));
    assert_eq!(parse("!"), Err(ParseError::IllegalChar('!', 0, 0)));
}

#[test]
fn empty_and_blank_documents() {
    assert_eq!(parse(""), Ok(table(vec![])));
    assert_eq!(parse("\n  \n# only a comment\n"), Ok(table(vec![])));
    assert_eq!(parse_chars(&vec!['k', '=', '1']), Ok(one_named("k", Value::Integer(1))));
    assert_eq!(Value::from_str("k = 2"), Ok(one_named("k", Value::Integer(2))));
}

#[test]
fn nesting_is_capped() {
    let deep = format!("a = {}{}", "[".repeat(64), "]".repeat(64));
    assert!(parse(&deep).is_ok());
    let deeper = format!("a = {}{}", "[".repeat(65), "]".repeat(65));
    assert!(matches!(parse(&deeper), Err(ParseError::UnexpectedToken(_, Token::LeftSquareBracket, 0, 68))));
}

#[test]
fn repeated_key_on_second_line() {
    assert_eq!(
        Value::from_str("key = 1\nkey = 2.5"),
        Err(ParseError::DuplicateKey("key".to_string(), 1, 0))
    );
    assert_eq!(Value::from_str("!x = 1"), Err(ParseError::IllegalChar('!', 0, 0)));
    assert_eq!(Value::from_str("n = 12x"), Err(ParseError::InvalidNumber(0, 4)));
    assert_eq!(Value::from_str("n = 2024-02-30"), Err(ParseError::InvalidDateTime(0, 4)));
}

#[test]
fn unclosed_strings_reach_the_end() {
    assert_eq!(Value::from_str("s = \"abc def"), Err(ParseError::UnexpectedEndOfInput));
    assert_eq!(Value::from_str("s = 'a\\b"), Err(ParseError::UnexpectedEndOfInput));
    assert_eq!(Value::from_str("s = \""), Err(ParseError::UnexpectedEndOfInput));
}

#[test]
fn quoted_line_gives_its_body() {
    assert_eq!(
        Value::from_str("key = \"hello\""),
        Ok(one(Value::StringValue("hello".to_string())))
    );
    assert_eq!(Value::from_str("k = \"\""), Ok(one_named("k", Value::StringValue(String::new()))));
}
