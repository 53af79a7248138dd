use myhack::{calculate, code_block, unique_lines, Number};

/// Double-precision arithmetic, as the editor evaluates selections.
struct Double(f64);

impl Number for Double {
    fn parse_decimal(text: &str) -> Option<Self> {
        text.parse().ok().map(Double)
    }
    fn add(&self, other: &Self) -> Self {
        Double(self.0 + other.0)
    }
    fn sub(&self, other: &Self) -> Self {
        Double(self.0 - other.0)
    }
    fn mul(&self, other: &Self) -> Self {
        Double(self.0 * other.0)
    }
    fn div(&self, other: &Self) -> Self {
        Double(self.0 / other.0)
    }
    fn neg(&self) -> Self {
        Double(-self.0)
    }
    fn pow(&self, exponent: &Self) -> Self {
        Double(self.0.powf(exponent.0))
    }
    fn is_zero(&self) -> bool {
        self.0 == 0.0
    }
    fn is_finite(&self) -> bool {
        self.0.is_finite()
    }
    fn is_negative(&self) -> bool {
        self.0 < 0.0
    }
    fn needs_scientific(&self) -> bool {
        self.0.abs() >= 1e21 || self.0.abs() < 1e-6
    }
    fn to_decimal(&self) -> String {
        self.0.to_string()
    }
    fn to_scientific(&self) -> String {
        format!("{:e}", self.0)
    }
}

fn calc(input: &str) -> Option<(String, String)> {
    calculate::<Double>(input)
}

#[test]
fn rounding() {
    for (input, expected) in [
        ("1+2/3", "1.67"),
        ("1+2", "3.00"),
        ("1/8", "0.13"),
        ("201/200", "1.01"),
        ("-201/200", "-1.01"),
        ("1/1000", "0.00"),
        ("-1/1000", "0.00"),
        ("1,000+2/3", "1,000.67"),
        ("1.0+2/3", "1.67"),
        ("1.00+2/3", "1.667"),
        ("0.00120/7", "0.0001714"),
        ("1.20+2.345", "3.5450"),
        ("9.99+0.0099", "10.00"),
        ("1.20-1.20", "0.000"),
        ("1000+0.1", "1000.1"),
        ("1,000.0/3", "333.333"),
    ] {
        assert_eq!(calc(input).unwrap().0, expected, "{input}");
    }
    assert_eq!(calc("1+2/3").unwrap().1, "1.6666666666666665");
}

#[test]
fn arithmetic() {
    for (input, expected) in [
        ("81,629\t+512,476 +12,654,946 -3,182,432", "10,066,619"),
        ("1,000\n+250 -50", "1,200"),
        ("1000+250-50", "1200"),
        ("(1+2) x 3", "9"),
        ("2+3*4", "14"),
        ("7/2", "3.5"),
        ("2^3^2", "512"),
        ("2**5", "32"),
        ("-2^2", "-4"),
        ("2^-2", "0.25"),
        ("1,000.5*2", "2,001"),
        ("-0", "0"),
        ("-1,000+1", "-999"),
        (" \t(1+2)\n ", "3"),
    ] {
        assert_eq!(calc(input).unwrap().1, expected, "{input}");
    }
    for input in [
        "",
        " ",
        "1,00+2",
        "1+",
        "(1+2",
        "1/0",
        "1 2+3",
        "1,\t000+1",
        "1. 5+1",
        "2 * * 3",
        "2^99999",
        "process.exit()",
    ] {
        assert!(calc(input).is_none(), "{input}");
    }
    assert!(calc(&"(".repeat(4096)).is_none());
    assert!(calc(&"1".repeat(4097)).is_none());
}

#[test]
fn lines_and_fences() {
    for (input, expected) in [
        ("a\nb\na", "a\nb"),
        ("a\nb\na\n", "a\nb\n"),
        ("a\r\nb\r\na\r\n", "a\r\nb\r\n"),
        ("a\r\na", "a"),
        ("a\nA\n a\na", "a\nA\n a"),
        ("\n\na\n", "\na\n"),
        ("", ""),
    ] {
        assert_eq!(unique_lines(input), expected);
    }
    let text = "before\n```js\none\ntwo\n```\nbetween\n~~~\nthree\n~~~\nafter";
    for row in [1, 2, 3] {
        assert_eq!(code_block(text, row).as_deref(), Some("one\ntwo"));
    }
    for row in [0, 4, 5, 8, 9, 20] {
        assert!(code_block(text, row).is_none());
    }
    assert_eq!(code_block(text, 7).as_deref(), Some("three"));
    assert_eq!(code_block("```\n```", 0).as_deref(), Some(""));
    assert!(code_block("```\nunfinished", 1).is_none());
    assert!(code_block("```\nx\n~~~", 1).is_none());
    assert_eq!(
        code_block("````md\n```js\nx\n```\n~~~\n````", 2).as_deref(),
        Some("```js\nx\n```\n~~~")
    );
    assert_eq!(
        code_block("  ~~~sh\n  x\n  ~~~~  ", 1).as_deref(),
        Some("  x")
    );
}

#[test]
fn code_block_spans_opening_fence_to_before_closing_fence() {
    let text = "intro\n```sh\necho hi\necho there\n```\noutro";
    assert_eq!(code_block(text, 0), None);
    for row in 1..4 {
        assert_eq!(code_block(text, row), Some("echo hi\necho there".to_string()));
    }
    assert_eq!(code_block(text, 4), None);
    assert_eq!(code_block(text, 5), None);
}

#[test]
fn removing_repeated_lines_twice_is_removing_them_once() {
    for text in ["a\n\na", "a\nb\na\n", "a\r\nb\r\na\r\n", "x\r\nx", "", "\n\n", "a\r\n\r\n"] {
        let once = unique_lines(text);
        assert_eq!(unique_lines(&once), once);
    }
}

#[test]
fn blanks_around_an_expression_change_nothing() {
    for expression in ["1+2/3", "1,000.0/3", "-2^2", "(1+2) x 3", "1/0", "1+"] {
        for (before, after) in [(" ", ""), ("\t\n", " \u{feff}"), ("\u{feff}", "\n\n")] {
            let padded = format!("{before}{expression}{after}");
            assert_eq!(calc(&padded), calc(expression), "{padded:?}");
        }
    }
}

#[test]
fn parentheses_around_an_expression_change_nothing() {
    for expression in ["1+2/3", "1,000.0/3", "-2^2", "2^3^2", " 7 / 2 ", "(1+2) x 3", "1/0", "1.20-1.20"] {
        let enclosed = format!("({expression})");
        assert_eq!(calc(&enclosed), calc(expression), "{enclosed:?}");
    }
    let deep = format!("{}1{}", "(".repeat(62), ")".repeat(62));
    assert_eq!(calc(&format!("({deep})")), calc(&deep));
    assert_eq!(calc(&deep).unwrap().1, "1");
    let signs = format!("{}1", "-".repeat(120));
    assert_eq!(calc(&format!("({signs})")), calc(&signs));
    assert_eq!(calc(&signs).unwrap().1, "1");
}

#[test]
fn removing_commas_removes_them_from_the_result() {
    for expression in ["1,000+2/3", "81,629\t+512,476", "1,000.5*2", "-1,000+1", "1,000.0/3", "2+3"] {
        let bare = expression.replace(',', "");
        let (rounded, precise) = calc(expression).unwrap();
        assert_eq!(
            calc(&bare),
            Some((rounded.replace(',', ""), precise.replace(',', ""))),
            "{expression:?}"
        );
    }
}
