use beanmeta::parse;
use beanmeta::Currency;
use beanmeta::Decimal;
use beanmeta::Value;

fn chars(s: &str) -> Vec<char> {
    s.chars().collect()
}

#[test]
fn string_entry_then_nonmatching_line() {
    let first = "    title: \"Swiss Franc\"\n";
    let input = chars(&format!("{}    date: 2023-05-27\n", first));
    let (map, end) = parse(&input, 0);
    assert_eq!(end, first.chars().count());
    assert_eq!(map.len(), 1);
    assert_eq!(map.get(&chars("title")), Some(&Value::String(chars("Swiss Franc"))));
}

#[test]
fn repeated_key_last_write_wins() {
    let input = chars("    rating: 2\n    rating: 3\n");
    let (map, end) = parse(&input, 0);
    assert_eq!(end, input.len());
    assert_eq!(map.len(), 1);
    assert_eq!(map.get(&chars("rating")), Some(&Value::Number(Decimal { num: 3, den: 1 })));
}

#[test]
fn currency_entry() {
    let input = chars("    unit: CHF\n");
    let (map, end) = parse(&input, 0);
    assert_eq!(end, input.len());
    assert_eq!(map.len(), 1);
    let chf = Currency::from_chars(chars("CHF")).unwrap();
    assert_eq!(map.get(&chars("unit")), Some(&Value::Currency(chf)));
}

#[test]
fn empty_input_empty_map() {
    let input: Vec<char> = Vec::new();
    let (map, end) = parse(&input, 0);
    assert_eq!(end, 0);
    assert_eq!(map.len(), 0);
}

#[test]
fn uppercase_key_rejected_unconsumed() {
    let input = chars("    Title: \"x\"\n");
    let (map, end) = parse(&input, 0);
    assert_eq!(end, 0);
    assert_eq!(map.len(), 0);
}

#[test]
fn only_blank_lines_all_consumed() {
    let input = chars("\n   \n\t\n  ; a comment line\n");
    let (map, end) = parse(&input, 0);
    assert_eq!(end, input.len());
    assert_eq!(map.len(), 0);
}

#[test]
fn first_line_no_match_consumes_nothing() {
    let input = chars("2023-05-27 commodity CHF\n");
    let (map, end) = parse(&input, 0);
    assert_eq!(end, 0);
    assert_eq!(map.len(), 0);
}

#[test]
fn blank_lines_between_entries() {
    let prefix = "    a: 1\n\n    b: 2\n";
    let input = chars(&format!("{}next directive\n", prefix));
    let (map, end) = parse(&input, 0);
    assert_eq!(end, prefix.chars().count());
    assert_eq!(map.len(), 2);
    assert_eq!(map.get(&chars("a")), Some(&Value::Number(Decimal { num: 1, den: 1 })));
    assert_eq!(map.get(&chars("b")), Some(&Value::Number(Decimal { num: 2, den: 1 })));
}

#[test]
fn missing_space_after_colon_rejected() {
    let input = chars("    k:5\n");
    let (map, end) = parse(&input, 0);
    assert_eq!(end, 0);
    assert_eq!(map.len(), 0);
}

#[test]
fn missing_indent_rejected() {
    let input = chars("k: 5\n");
    let (map, end) = parse(&input, 0);
    assert_eq!(end, 0);
    assert_eq!(map.len(), 0);
}

#[test]
fn trailing_comment_on_entry_line() {
    let input = chars("    k: 5 ; a note\n");
    let (map, end) = parse(&input, 0);
    assert_eq!(end, input.len());
    assert_eq!(map.get(&chars("k")), Some(&Value::Number(Decimal { num: 5, den: 1 })));
}

#[test]
fn crlf_line_ending() {
    let input = chars("    k: 5\r\n");
    let (map, end) = parse(&input, 0);
    assert_eq!(end, input.len());
    assert_eq!(map.get(&chars("k")), Some(&Value::Number(Decimal { num: 5, den: 1 })));
}

#[test]
fn entry_without_terminator_at_end_of_input() {
    let input = chars("    k: 5");
    let (map, end) = parse(&input, 0);
    assert_eq!(end, input.len());
    assert_eq!(map.get(&chars("k")), Some(&Value::Number(Decimal { num: 5, den: 1 })));
}

#[test]
fn key_with_digits_dash_underscore() {
    let input = chars("    key-2_x: 5\n");
    let (map, end) = parse(&input, 0);
    assert_eq!(end, input.len());
    assert_eq!(map.get(&chars("key-2_x")), Some(&Value::Number(Decimal { num: 5, den: 1 })));
}

#[test]
fn number_overflow_rejects_line() {
    let input = chars("    x: 99999999999999999999\n");
    let (map, end) = parse(&input, 0);
    assert_eq!(end, 0);
    assert_eq!(map.len(), 0);
}

#[test]
fn unterminated_string_rejects_line() {
    let input = chars("    s: \"abc\n");
    let (map, end) = parse(&input, 0);
    assert_eq!(end, 0);
    assert_eq!(map.len(), 0);
}

#[test]
fn extra_content_after_value_rejects_line() {
    let input = chars("    u: CHF x\n");
    let (map, end) = parse(&input, 0);
    assert_eq!(end, 0);
    assert_eq!(map.len(), 0);
}

#[test]
fn get_absent_key_is_none() {
    let input = chars("    a: 1\n");
    let (map, _) = parse(&input, 0);
    assert_eq!(map.get(&chars("b")), None);
}

#[test]
fn parse_from_offset() {
    let input = chars("header\n    k: 7\n");
    let (map, end) = parse(&input, 7);
    assert_eq!(end, input.len());
    assert_eq!(map.get(&chars("k")), Some(&Value::Number(Decimal { num: 7, den: 1 })));
}

#[test]
fn tab_indent_accepted() {
    let input = chars("\tk: 5\n");
    let (map, end) = parse(&input, 0);
    assert_eq!(end, input.len());
    assert_eq!(map.get(&chars("k")), Some(&Value::Number(Decimal { num: 5, den: 1 })));
}

#[test]
fn blank_line_with_crlf() {
    let input = chars("  \r\n    k: 1\n");
    let (map, end) = parse(&input, 0);
    assert_eq!(end, input.len());
    assert_eq!(map.len(), 1);
}
