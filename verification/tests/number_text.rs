use myhack::{exponent, group, precise_text, round_decimal};

#[test]
fn rounds_half_away_from_zero_on_decimal_digits() {
    assert_eq!(round_decimal("1.005", false, 2), "1.01");
    assert_eq!(round_decimal("1.005", true, 2), "-1.01");
    assert_eq!(round_decimal("0.001", true, 2), "0.00");
    assert_eq!(round_decimal("9.99", false, 1), "10.0");
    assert_eq!(round_decimal("1234", false, -2), "1200");
    assert_eq!(round_decimal("1250", false, -2), "1300");
    assert_eq!(round_decimal("1", false, 3), "1.000");
    assert_eq!(round_decimal("0.5", false, -1), "00");
    assert_eq!(round_decimal("0.00017142857", false, 7), "0.0001714");
}

#[test]
fn groups_by_thousands_only_for_grouped_expressions() {
    assert_eq!(group("1234567.891", "1,000+1"), "1,234,567.891");
    assert_eq!(group("-1000", "-1,000"), "-1,000");
    assert_eq!(group("999", "1,000"), "999");
    assert_eq!(group("1234567", "1000+1"), "1234567");
    assert_eq!(group("1e+21", "1,000"), "1e+21");
}

#[test]
fn groups_by_the_byte_length_of_the_integer_part() {
    assert_eq!(group("１２３４", "1,000"), "１２３,４");
    assert_eq!(group("ab12", "1,000"), "a,b12");
}

#[test]
fn reads_exponents_and_precise_text() {
    assert_eq!(exponent("1.25e-1"), Some(-1));
    assert_eq!(exponent("-3e21"), Some(21));
    assert_eq!(exponent("12"), None);
    assert_eq!(exponent("1e"), None);
    assert_eq!(exponent("1e99999999999"), None);
    assert_eq!(precise_text(true, false, "-0", "-0e0"), Some("0".to_string()));
    assert_eq!(precise_text(false, true, "", "1.5e21"), Some("1.5e+21".to_string()));
    assert_eq!(precise_text(false, true, "", "1e-7"), Some("1e-7".to_string()));
    assert_eq!(precise_text(false, false, "0.25", ""), Some("0.25".to_string()));
    assert_eq!(precise_text(false, true, "", "15"), None);
}
