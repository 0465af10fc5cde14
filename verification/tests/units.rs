use eecalc::quantity::Quantity;
use eecalc::units::{format_eng, parse_value};

fn value_of(text: &str) -> Quantity {
    parse_value(text).expect(text)
}

fn assert_ok(token: &str, expected: &Quantity) {
    let got = value_of(token);
    assert!(got.same_value(expected), "{token}: got {got:?}");
}

fn assert_err(token: &str, contains: &str) {
    let err = parse_value(token).unwrap_err();
    let msg = err.to_string();
    assert!(msg.contains(contains), "{token}: expected {contains:?} in {msg:?}");
}

fn ratio(num: u64, den: u64) -> Quantity {
    Quantity::from_ratio(num, den)
}

#[test]
fn parses_prefixes_and_plain_decimals() {
    assert_ok("470", &ratio(470, 1));
    assert_ok("4.7k", &ratio(4700, 1));
    assert_ok("100n", &ratio(1, 10_000_000));
    assert_ok("2.2M", &ratio(2_200_000, 1));
    assert_ok("1p", &ratio(1, 1_000_000_000_000));
    assert_ok("1u", &ratio(1, 1_000_000));
    assert_ok("20m", &ratio(2, 100));
    assert_ok(".5", &ratio(1, 2));
    assert_ok("10.", &ratio(10, 1));
    assert_ok("-5", &ratio(5, 1).negate());
    assert_ok("+12", &ratio(12, 1));
    assert_ok("1k", &ratio(1000, 1));
}

#[test]
fn rejects_malformed_values() {
    assert_err("10x", "unknown SI prefix 'x'");
    assert_eq!(
        parse_value("10x").unwrap_err().to_string(),
        "invalid value '10x': unknown SI prefix 'x'"
    );
    assert_err("k", "not a number");
    assert_err("10kk", "unknown SI prefix 'kk'");
    assert_err("1e3", "unknown SI prefix 'e3'");
    assert_err("10µ", "unknown SI prefix");
    assert_err("", "not a number");
    assert_err("4.7.0k", "not a number");
    assert_err("inf", "not a number");
    assert_err("NaN", "not a number");
    assert_err("-k", "not a number");
}

#[test]
fn formats_readme_examples() {
    assert_eq!(format_eng(&ratio(12, 470), "A"), "25.53 mA");
    assert_eq!(format_eng(&ratio(2, 100).mul(&ratio(330, 1)), "V"), "6.6 V");
    assert_eq!(format_eng(&ratio(5 * 5, 100), "W"), "250 mW");
    assert_eq!(format_eng(&ratio(650, 1), "Ω"), "650 Ω");
    assert_eq!(format_eng(&ratio(0, 1), "V"), "0 V");
    assert_eq!(format_eng(&value_of("6.6").negate(), "V"), "-6.6 V");
    assert_eq!(format_eng(&ratio(1, 1_000_000), "s"), "1 us");
}
