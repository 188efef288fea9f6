use car_stats::is_numeric;

/// `is_numeric` must agree with an actual 64-bit floating-point parse.
fn agrees_with_parse(s: &str) {
    assert_eq!(
        is_numeric(s),
        s.parse::<f64>().is_ok(),
        "disagreement on {:?}",
        s
    );
}

#[test]
fn accepts_plain_integers_and_decimals() {
    assert!(is_numeric("2020"));
    assert!(is_numeric("1.6"));
    assert!(is_numeric("50000"));
    assert!(is_numeric("500000"));
    assert!(is_numeric("0"));
    assert!(is_numeric("5."));
    assert!(is_numeric(".5"));
}

#[test]
fn accepts_signs_and_exponents() {
    assert!(is_numeric("-3.5"));
    assert!(is_numeric("+42"));
    assert!(is_numeric("1e5"));
    assert!(is_numeric("1E5"));
    assert!(is_numeric("-1.25e-3"));
    assert!(is_numeric("2e+10"));
}

#[test]
fn accepts_special_values_in_any_case() {
    assert!(is_numeric("inf"));
    assert!(is_numeric("Inf"));
    assert!(is_numeric("INF"));
    assert!(is_numeric("-inf"));
    assert!(is_numeric("infinity"));
    assert!(is_numeric("Infinity"));
    assert!(is_numeric("nan"));
    assert!(is_numeric("NaN"));
    assert!(is_numeric("+NAN"));
}

#[test]
fn rejects_text_and_malformed_numbers() {
    assert!(!is_numeric("diesel"));
    assert!(!is_numeric(""));
    assert!(!is_numeric("."));
    assert!(!is_numeric("+"));
    assert!(!is_numeric("+-1"));
    assert!(!is_numeric("1.2.3"));
    assert!(!is_numeric("1e"));
    assert!(!is_numeric("e5"));
    assert!(!is_numeric("1e5.0"));
    assert!(!is_numeric("1_000"));
    assert!(!is_numeric("0x10"));
    assert!(!is_numeric(" 1"));
    assert!(!is_numeric("1 "));
    assert!(!is_numeric("infinityy"));
    assert!(!is_numeric("in"));
    assert!(!is_numeric("nan0"));
}

#[test]
fn matches_the_standard_float_parse() {
    let cases = [
        "2020", "1.6", "50000", "500000", "0", "5.", ".5", ".", "", "+", "-", "+-1", "--1",
        "-3.5", "+42", "1e5", "1E5", "-1.25e-3", "2e+10", "1e", "1e+", "1e-", "e5", ".e5",
        "1.2.3", "1e5e2", "inf", "Inf", "INF", "-inf", "+inf", "infinity", "INFINITY", "Infinity",
        "nan", "NaN", "NAN", "+nan", "-NaN", "infinit", "infinityy", "nan0", "diesel", "Diesel",
        "1 ", " 1", "1 2", "1,2", "1_000", "0x10", "٣", "½", "1e999", "-1e999", "00123",
        "0.0", "-0", "+.5", "-.", "+.", "1.e5", ".5e1",
    ];
    for s in cases {
        agrees_with_parse(s);
    }
}
