use eecalc::calc::divider::divider;
use eecalc::calc::ohm::{ohm, OhmGiven, OhmResult};
use eecalc::calc::power::{power, PowerGiven};
use eecalc::calc::rc::rc;
use eecalc::calc::resistance::{parallel, series};
use eecalc::cli::parse;
use eecalc::error::EecalcError;
use eecalc::natural::Natural;
use eecalc::quantity::Quantity;
use eecalc::run;
use eecalc::units::{format_eng, parse_value, trim_trailing_zeros};

fn q(text: &str) -> Quantity {
    parse_value(text).unwrap()
}

fn ratio(num: u64, den: u64) -> Quantity {
    Quantity::from_ratio(num, den)
}

fn args(tokens: &[&str]) -> Vec<String> {
    tokens.iter().map(|s| (*s).to_string()).collect()
}

fn run_text(tokens: &[&str]) -> Result<String, EecalcError> {
    run(&args(tokens))
}

fn error_text(tokens: &[&str]) -> (i32, String) {
    let err = run_text(tokens).unwrap_err();
    (err.exit_code(), err.to_string())
}

#[test]
fn ohm_forms_give_each_other_back() {
    let voltage = q("12");
    let resistance = q("470");
    let OhmResult::Current(current) =
        ohm(OhmGiven::VoltageResistance { voltage: voltage.clone(), resistance: resistance.clone() }).unwrap()
    else {
        panic!("current expected");
    };
    let OhmResult::Voltage(back) =
        ohm(OhmGiven::CurrentResistance { current: current.clone(), resistance: resistance.clone() }).unwrap()
    else {
        panic!("voltage expected");
    };
    assert!(back.same_value(&voltage));
    let OhmResult::Resistance(r) = ohm(OhmGiven::VoltageCurrent { voltage, current }).unwrap() else {
        panic!("resistance expected");
    };
    assert!(r.same_value(&resistance));
}

#[test]
fn power_forms_agree() {
    let current = q("0.05");
    let resistance = q("100");
    let voltage = current.mul(&resistance);
    let p1 = power(PowerGiven::VoltageCurrent { voltage: voltage.clone(), current: current.clone() }).unwrap();
    let p2 = power(PowerGiven::CurrentResistance { current, resistance: resistance.clone() }).unwrap();
    let p3 = power(PowerGiven::VoltageResistance { voltage, resistance }).unwrap();
    assert!(p1.same_value(&p2));
    assert!(p2.same_value(&p3));
    assert!(p1.same_value(&q("250m")));
}

#[test]
fn time_constant_times_cutoff_is_one_over_two_pi() {
    let (tau, fc) = rc(q("4.7k"), q("100n")).unwrap();
    let product = tau.mul(&fc);
    assert!(product.same_value(&ratio(140_737_488_355_328, 884_279_719_003_555)));
}

#[test]
fn two_resistors_product_over_sum() {
    let r1 = q("1k");
    let r2 = q("2.2k");
    let expected = r1.mul(&r2).div(&r1.add(&r2));
    assert!(parallel(&[r1.clone(), r2.clone()]).unwrap().same_value(&expected));
    assert!(series(&[r1.clone(), r2.clone()]).unwrap().same_value(&r1.add(&r2)));
}

#[test]
fn divider_output_is_between_zero_and_input() {
    let vout = divider(q("12"), q("1"), q("1M")).unwrap();
    assert!(vout.same_value(&ratio(12_000_000, 1_000_001)));
    assert_eq!(format_eng(&vout, "V"), "12 V");
    let vout = divider(q("12"), q("1M"), q("1")).unwrap();
    assert_eq!(format_eng(&vout, "V"), "12 uV");
}

#[test]
fn negative_values_print_with_a_minus_sign() {
    assert_eq!(format_eng(&ratio(12, 470).negate(), "A"), "-25.53 mA");
    assert_eq!(format_eng(&ratio(0, 1).negate(), "A"), "0 A");
    assert_eq!(run_text(&["ohm", "-v", "-12", "-r", "470"]).unwrap(), "I = -25.53 mA");
}

#[test]
fn rounding_carries_into_the_next_prefix() {
    assert_eq!(format_eng(&q("999.96"), "V"), "1 kV");
    assert_eq!(format_eng(&q("99.996"), "V"), "100 V");
    assert_eq!(format_eng(&q("0.99996"), "V"), "1 V");
    assert_eq!(format_eng(&q("999999"), "V"), "1 MV");
    assert_eq!(format_eng(&q("999.96M"), "V"), "1000 MV");
    assert_eq!(format_eng(&q("12.345678M"), "Ω"), "12.35 MΩ");
    assert_eq!(format_eng(&q("1.0005"), "V"), "1.001 V");
}

#[test]
fn prefixes_stop_at_pico_and_mega() {
    assert_eq!(format_eng(&q("1.5k").mul(&q("1M")), "Ω"), "1500 MΩ");
    assert_eq!(format_eng(&q("1p").mul(&q("0.001")), "F"), "0.001 pF");
    assert_eq!(format_eng(&q("123.456p").mul(&q("0.0001")), "F"), "0.01235 pF");
    assert_eq!(format_eng(&q("1M").mul(&q("1M")).mul(&q("1M")), "Ω"), "1000000000000 MΩ");
}

#[test]
fn every_prefix_is_printed() {
    assert_eq!(format_eng(&q("1p"), "F"), "1 pF");
    assert_eq!(format_eng(&q("2n"), "F"), "2 nF");
    assert_eq!(format_eng(&q("3u"), "F"), "3 uF");
    assert_eq!(format_eng(&q("4m"), "A"), "4 mA");
    assert_eq!(format_eng(&q("5"), "A"), "5 A");
    assert_eq!(format_eng(&q("6k"), "Ω"), "6 kΩ");
    assert_eq!(format_eng(&q("7M"), "Ω"), "7 MΩ");
}

#[test]
fn exact_decimal_arithmetic() {
    assert_eq!(run_text(&["series", "0.1", "0.2"]).unwrap(), "R = 300 mΩ");
    assert_eq!(run_text(&["parallel", "3", "3", "3"]).unwrap(), "R = 1 Ω");
    assert_eq!(run_text(&["power", "-v", "3", "-i", "-2"]).unwrap(), "P = -6 W");
}

#[test]
fn trims_only_after_a_point() {
    assert_eq!(trim_trailing_zeros("12.500"), "12.5");
    assert_eq!(trim_trailing_zeros("12.000"), "12");
    assert_eq!(trim_trailing_zeros("1200"), "1200");
    assert_eq!(trim_trailing_zeros("0.0"), "0");
}

#[test]
fn large_numbers_are_exact() {
    let big = Natural::from_u64(u64::MAX);
    let square = big.mul(&big);
    let plus_one = square.add(&Natural::from_u64(1));
    let (diff, borrow) = plus_one.sub_borrow(&square);
    assert!(!borrow);
    assert!(diff.equals(&Natural::from_u64(1)));
    assert!(square.less_than(&plus_one));
    assert_eq!(square.sig_len(), 39);
    let seven_times = square.mul(&Natural::from_u64(7)).add(&Natural::from_u64(3));
    let (quotient, rest) = seven_times.div_rem_bounded(&square, 10);
    assert_eq!(quotient, 7);
    assert!(rest.equals(&Natural::from_u64(3)));
}

#[test]
fn each_usage_error_exits_with_two() {
    assert_eq!(error_text(&[]), (2, "missing command".to_string()));
    assert_eq!(error_text(&["nope"]), (2, "unknown command 'nope'".to_string()));
    assert_eq!(error_text(&["help", "ohm"]), (2, "unexpected argument 'ohm'".to_string()));
    assert_eq!(
        error_text(&["ohm", "-v", "1", "-v", "2"]),
        (2, "unexpected argument '-v'".to_string())
    );
    assert_eq!(
        error_text(&["rc", "-r", "1k", "--bogus", "1"]),
        (2, "unexpected argument '--bogus'".to_string())
    );
    assert_eq!(
        error_text(&["divider", "--vin", "--r1", "1"]),
        (2, "missing value for --vin".to_string())
    );
    assert_eq!(
        error_text(&["series", "1", "2x"]),
        (2, "invalid value '2x': unknown SI prefix 'x'".to_string())
    );
    assert_eq!(
        error_text(&["parallel", "1", "1..0"]),
        (2, "invalid value '1..0': not a number".to_string())
    );
    assert_eq!(
        error_text(&["power", "-v", "1", "-i", "1", "-r", "1"]),
        (2, "power requires exactly two of --voltage, --current, --resistance".to_string())
    );
    assert_eq!(error_text(&["parallel", "1"]), (2, "parallel requires at least two values".to_string()));
    assert_eq!(
        error_text(&["series", "1", "-r"]),
        (2, "unexpected argument '-r'".to_string())
    );
}

#[test]
fn each_calculation_error_exits_with_one() {
    assert_eq!(error_text(&["ohm", "-v", "5", "-i", "0"]), (1, "current must not be zero".to_string()));
    assert_eq!(
        error_text(&["rc", "-r", "1k", "-c", "-1u"]),
        (1, "capacitance must be greater than zero".to_string())
    );
    assert_eq!(
        error_text(&["divider", "--vin", "5", "--r1", "1k", "--r2", "-0"]),
        (1, "resistance must be greater than zero".to_string())
    );
    assert_eq!(
        error_text(&["parallel", "1k", "0"]),
        (1, "resistance must be greater than zero".to_string())
    );
}

#[test]
fn values_that_look_like_flags() {
    // "-5" is a negative number, "--" is no flag and no number.
    assert_eq!(run_text(&["ohm", "-i", "-5", "-r", "2"]).unwrap(), "V = -10 V");
    assert_eq!(
        error_text(&["ohm", "-i", "--", "-r", "2"]),
        (2, "invalid value '--': not a number".to_string())
    );
    assert_eq!(
        error_text(&["ohm", "-i", "-x", "-r", "2"]),
        (2, "missing value for -i".to_string())
    );
}

#[test]
fn command_help_wins_over_other_errors() {
    assert!(matches!(parse(&args(&["series", "bogus", "--help"])).unwrap(), eecalc::cli::Command::CommandHelp(_)));
    assert!(run_text(&["rc", "--help"]).unwrap().starts_with("Usage: eecalc rc"));
}

#[test]
fn long_and_odd_numbers() {
    let v = q("0000123.4500");
    assert!(v.same_value(&ratio(12345, 100)));
    assert_eq!(format_eng(&v, "V"), "123.5 V");
    let long = q("123456789012345678901234567890");
    assert_eq!(format_eng(&long, "Ω"), "123500000000000000000000 MΩ");
    assert!(q("-0").is_zero());
    assert!(q("+.5m").same_value(&ratio(1, 2000)));
}

#[test]
fn a_sign_in_front_negates_or_keeps_the_value() {
    assert!(q("-4.7k").same_value(&q("4.7k").negate()));
    assert!(q("+4.7k").same_value(&q("4.7k")));
    assert_eq!(
        parse_value("-4.7x").unwrap_err().to_string(),
        "invalid value '-4.7x': unknown SI prefix 'x'"
    );
}

#[test]
fn a_prefix_scales_the_plain_number() {
    let plain = q("4.7");
    assert!(q("4.7k").same_value(&plain.mul(&ratio(1_000, 1))));
    assert!(q("4.7M").same_value(&plain.mul(&ratio(1_000_000, 1))));
    assert!(q("4.7m").same_value(&plain.div(&ratio(1_000, 1))));
    assert!(q("4.7u").same_value(&plain.div(&ratio(1_000_000, 1))));
    assert!(q("4.7n").same_value(&plain.div(&ratio(1_000_000_000, 1))));
    assert!(q("4.7p").same_value(&plain.div(&ratio(1_000_000_000_000, 1))));
}
