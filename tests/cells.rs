use fund_index::cell::{clean_numeric_text, coerce_cell, parse_decimal, Cell, Decimal};

fn dec(negative: bool, mantissa: u128, scale: usize) -> Option<Decimal> {
    Some(Decimal { negative, mantissa, scale })
}

#[test]
fn native_numbers_keep_their_value() {
    assert_eq!(coerce_cell(&Cell::Number("12.5".to_string())), dec(false, 125, 1));
    assert_eq!(coerce_cell(&Cell::Number("-3".to_string())), dec(true, 3, 0));
    assert_eq!(coerce_cell(&Cell::Number(42i64.to_string())), dec(false, 42, 0));
    assert_eq!(coerce_cell(&Cell::Number(0.1f64.to_string())), dec(false, 1, 1));
}

#[test]
fn non_finite_numbers_are_absent() {
    assert_eq!(coerce_cell(&Cell::Number(f64::NAN.to_string())), None);
    assert_eq!(coerce_cell(&Cell::Number(f64::INFINITY.to_string())), None);
    assert_eq!(coerce_cell(&Cell::Number(f64::NEG_INFINITY.to_string())), None);
    assert_eq!(coerce_cell(&Cell::Text("NaN".to_string())), None);
    assert_eq!(coerce_cell(&Cell::Text("inf".to_string())), None);
}

#[test]
fn text_is_cleaned_before_parsing() {
    assert_eq!(clean_numeric_text(" 1,234.50 % "), "1234.50");
    assert_eq!(coerce_cell(&Cell::Text(" 1,234.50 % ".to_string())), dec(false, 123450, 2));
    assert_eq!(coerce_cell(&Cell::Text("Rs 100".to_string())), dec(false, 100, 0));
    assert_eq!(coerce_cell(&Cell::Text("\u{20b9} 1,200".to_string())), dec(false, 1200, 0));
    assert_eq!(coerce_cell(&Cell::Text("-0.75%".to_string())), dec(true, 75, 2));
}

#[test]
fn unparseable_text_is_absent() {
    assert_eq!(coerce_cell(&Cell::Text("N/A".to_string())), None);
    assert_eq!(coerce_cell(&Cell::Text("-".to_string())), None);
    assert_eq!(coerce_cell(&Cell::Text("".to_string())), None);
    assert_eq!(coerce_cell(&Cell::Text("1.2.3".to_string())), None);
    assert_eq!(coerce_cell(&Cell::Text("12a".to_string())), None);
}

#[test]
fn other_kinds_are_never_numbers() {
    assert_eq!(coerce_cell(&Cell::Bool(true)), None);
    assert_eq!(coerce_cell(&Cell::Error("#DIV/0!".to_string())), None);
    assert_eq!(coerce_cell(&Cell::Error("7".to_string())), None);
    assert_eq!(coerce_cell(&Cell::Empty), None);
}

#[test]
fn numeral_grammar() {
    assert_eq!(parse_decimal("+3"), dec(false, 3, 0));
    assert_eq!(parse_decimal(".5"), dec(false, 5, 1));
    assert_eq!(parse_decimal("5."), dec(false, 5, 0));
    assert_eq!(parse_decimal("007.250"), dec(false, 7250, 3));
    assert_eq!(parse_decimal("."), None);
    assert_eq!(parse_decimal("+"), None);
    assert_eq!(parse_decimal("1e5"), None);
    assert_eq!(parse_decimal(" 1"), None);
}

#[test]
fn numeral_at_the_128_bit_limit() {
    let max = u128::MAX.to_string();
    assert_eq!(parse_decimal(&max), dec(false, u128::MAX, 0));
    let over = format!("{}0", max);
    assert_eq!(parse_decimal(&over), None);
    let tiny = format!("0.{}1", "0".repeat(60));
    assert_eq!(parse_decimal(&tiny), dec(false, 1, 61));
}

#[test]
fn coercion_yields_only_finite_decimals() {
    for t in ["1e400", "Infinity", "-inf", "nan", "12.5", "1,000", "", "--"] {
        match coerce_cell(&Cell::Text(t.to_string())) {
            None => {}
            Some(d) => {
                let v: f64 = format!("{}{}e-{}", if d.negative { "-" } else { "" }, d.mantissa, d.scale)
                    .parse()
                    .unwrap();
                assert!(v.is_finite());
            }
        }
    }
}
