use nfl2mac::decimal::{format_fixed, parse_fixed};

fn chars(s: &str) -> Vec<char> {
    s.chars().collect()
}

fn text(v: i32) -> String {
    format_fixed(v).into_iter().collect()
}

#[test]
fn parses_whole_and_fractional_numbers() {
    assert_eq!(parse_fixed(&chars("1")), Some(1_000_000));
    assert_eq!(parse_fixed(&chars("-2.5")), Some(-2_500_000));
    assert_eq!(parse_fixed(&chars("0.0000019")), Some(2));
    assert_eq!(parse_fixed(&chars("0.0000014")), Some(1));
    assert_eq!(parse_fixed(&chars("-0.0000015")), Some(-2));
    assert_eq!(parse_fixed(&chars(".5")), Some(500_000));
    assert_eq!(parse_fixed(&chars("+1")), Some(1_000_000));
    assert_eq!(parse_fixed(&chars("-.25")), Some(-250_000));
    assert_eq!(parse_fixed(&chars("0.7577722283114")), Some(757_772));
    assert_eq!(parse_fixed(&chars("12.")), Some(12_000_000));
    assert_eq!(parse_fixed(&chars("2147.483647")), Some(i32::MAX));
    assert_eq!(parse_fixed(&chars("-2147.483648")), Some(i32::MIN));
}

#[test]
fn rejects_malformed_or_out_of_range_numbers() {
    assert_eq!(parse_fixed(&chars("")), None);
    assert_eq!(parse_fixed(&chars("-")), None);
    assert_eq!(parse_fixed(&chars(".")), None);
    assert_eq!(parse_fixed(&chars("+")), None);
    assert_eq!(parse_fixed(&chars("2147.4836475")), None);
    assert_eq!(parse_fixed(&chars("1e5")), None);
    assert_eq!(parse_fixed(&chars("1.2.3")), None);
    assert_eq!(parse_fixed(&chars("2147.483648")), None);
    assert_eq!(parse_fixed(&chars("99999")), None);
}

#[test]
fn formats_shortest_text() {
    assert_eq!(text(1_000_000), "1");
    assert_eq!(text(0), "0");
    assert_eq!(text(-2_500_000), "-2.5");
    assert_eq!(text(1), "0.000001");
    assert_eq!(text(i32::MIN), "-2147.483648");
}

#[test]
fn format_then_parse_is_identity() {
    for v in [0, 1, -1, 999_999, 1_000_001, i32::MAX, i32::MIN, 437_500, -757_772] {
        assert_eq!(parse_fixed(&format_fixed(v)), Some(v));
    }
}
