use beanmeta::entry;
use beanmeta::parse;
use beanmeta::render::render;
use beanmeta::Currency;
use beanmeta::Decimal;
use beanmeta::Value;

fn chars(s: &str) -> Vec<char> {
    s.chars().collect()
}

/// Renders a value, wraps it in a synthetic indented key line, re-parses it
/// and returns the bound value.
fn round_trip(v: &Value) -> Value {
    let mut line = chars("    key: ");
    line.extend(render(v));
    line.push('\n');
    let (map, end) = parse(&line, 0);
    assert_eq!(end, line.len());
    map.get(&chars("key")).unwrap().clone()
}

#[test]
fn round_trip_string() {
    let v = Value::String(chars("Swiss Franc"));
    assert_eq!(round_trip(&v), v);
}

#[test]
fn round_trip_string_with_escapes() {
    let v = Value::String(chars("a\"b\\c\nd\te"));
    assert_eq!(round_trip(&v), v);
}

#[test]
fn round_trip_whole_number() {
    let v = Value::Number(Decimal { num: -42, den: 1 });
    assert_eq!(round_trip(&v), v);
}

#[test]
fn round_trip_fraction() {
    let v = Value::Number(Decimal { num: 275, den: 100 });
    assert_eq!(round_trip(&v), v);
}

#[test]
fn round_trip_extreme_numbers() {
    let v = Value::Number(Decimal { num: i64::MIN, den: 1 });
    assert_eq!(round_trip(&v), v);
    let w = Value::Number(Decimal { num: i64::MAX, den: i64::MAX });
    assert_eq!(round_trip(&w), w);
}

#[test]
fn round_trip_currency() {
    let v = Value::Currency(Currency::from_chars(chars("CHF")).unwrap());
    assert_eq!(round_trip(&v), v);
}

#[test]
fn render_fraction_text() {
    let v = Value::Number(Decimal { num: 275, den: 100 });
    let text: String = render(&v).into_iter().collect();
    assert_eq!(text, "275 / 100");
}

#[test]
fn render_string_text() {
    let v = Value::String(chars("a\"b"));
    let text: String = render(&v).into_iter().collect();
    assert_eq!(text, "\"a\\\"b\"");
}

#[test]
fn decimal_literal_scaled() {
    let input = chars("    x: 2.75\n");
    let (map, _) = parse(&input, 0);
    assert_eq!(map.get(&chars("x")), Some(&Value::Number(Decimal { num: 275, den: 100 })));
}

#[test]
fn negative_literal() {
    let input = chars("    x: -5\n");
    let (map, _) = parse(&input, 0);
    assert_eq!(map.get(&chars("x")), Some(&Value::Number(Decimal { num: -5, den: 1 })));
}

#[test]
fn expression_precedence() {
    let input = chars("    x: 1 + 2 * 3\n");
    let (map, end) = parse(&input, 0);
    assert_eq!(end, input.len());
    assert_eq!(map.get(&chars("x")), Some(&Value::Number(Decimal { num: 7, den: 1 })));
}

#[test]
fn expression_parentheses() {
    let input = chars("    x: (1 + 2) * 3\n");
    let (map, _) = parse(&input, 0);
    assert_eq!(map.get(&chars("x")), Some(&Value::Number(Decimal { num: 9, den: 1 })));
}

#[test]
fn expression_division_keeps_fraction() {
    let input = chars("    x: 7 / 2\n");
    let (map, _) = parse(&input, 0);
    assert_eq!(map.get(&chars("x")), Some(&Value::Number(Decimal { num: 7, den: 2 })));
}

#[test]
fn expression_left_associative() {
    let input = chars("    x: 8 - 3 - 2\n");
    let (map, _) = parse(&input, 0);
    assert_eq!(map.get(&chars("x")), Some(&Value::Number(Decimal { num: 3, den: 1 })));
}

#[test]
fn expression_division_by_zero_rejects_line() {
    let input = chars("    x: 1 / 0\n");
    let (map, end) = parse(&input, 0);
    assert_eq!(end, 0);
    assert_eq!(map.len(), 0);
}

#[test]
fn unspaced_minus_is_no_operator() {
    let input = chars("    x: 2023-05-27\n");
    let (map, end) = parse(&input, 0);
    assert_eq!(end, 0);
    assert_eq!(map.len(), 0);
}

#[test]
fn quoted_ticker_is_a_string() {
    let input = chars("    s: \"CHF\"\n");
    let (map, _) = parse(&input, 0);
    assert_eq!(map.get(&chars("s")), Some(&Value::String(chars("CHF"))));
}

#[test]
fn string_escapes_unescaped() {
    let input = chars("    s: \"a\\\"b\\\\c\\nd\"\n");
    let (map, _) = parse(&input, 0);
    assert_eq!(map.get(&chars("s")), Some(&Value::String(chars("a\"b\\c\nd"))));
}

#[test]
fn currency_from_chars_checks_grammar() {
    assert!(Currency::from_chars(chars("CHF")).is_some());
    assert!(Currency::from_chars(chars("C3")).is_some());
    assert!(Currency::from_chars(chars("chf")).is_none());
    assert!(Currency::from_chars(chars("")).is_none());
    assert!(Currency::from_chars(chars("C f")).is_none());
}

#[test]
fn entry_parses_one_line() {
    let input = chars("  k: 1\nrest");
    let r = entry(&input, 0).unwrap();
    assert_eq!(r.0, 7);
    assert_eq!(r.1, chars("k"));
    assert_eq!(r.2, Value::Number(Decimal { num: 1, den: 1 }));
}

#[test]
fn entry_rejects_blank_line() {
    let input = chars("   \n");
    assert!(entry(&input, 0).is_none());
}

#[test]
fn decimal_constructors() {
    assert_eq!(Decimal::from_int(3), Decimal { num: 3, den: 1 });
    assert_eq!(Decimal::new(7, 2), Some(Decimal { num: 7, den: 2 }));
    assert_eq!(Decimal::new(7, 0), None);
}

#[test]
fn ticker_with_digits() {
    let input = chars("    u: C3\n");
    let (map, _) = parse(&input, 0);
    let c3 = Currency::from_chars(chars("C3")).unwrap();
    assert_eq!(map.get(&chars("u")), Some(&Value::Currency(c3)));
}

#[test]
fn multiplication_overflow_rejects_line() {
    let input = chars("    x: 9223372036854775807 * 2\n");
    let (map, end) = parse(&input, 0);
    assert_eq!(end, 0);
    assert_eq!(map.len(), 0);
}

#[test]
fn string_may_contain_semicolon() {
    let input = chars("    s: \"; not a comment\"\n");
    let (map, _) = parse(&input, 0);
    assert_eq!(map.get(&chars("s")), Some(&Value::String(chars("; not a comment"))));
}
