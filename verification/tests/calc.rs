use eecalc::calc::divider::divider;
use eecalc::calc::ohm::{ohm, OhmGiven, OhmResult};
use eecalc::calc::power::{power, PowerGiven};
use eecalc::calc::rc::rc;
use eecalc::calc::resistance::{parallel, series};
use eecalc::error::EecalcError;
use eecalc::quantity::Quantity;
use eecalc::units::parse_value;

fn q(text: &str) -> Quantity {
    parse_value(text).unwrap()
}

fn ratio(num: u64, den: u64) -> Quantity {
    Quantity::from_ratio(num, den)
}

fn exactly(got: &Quantity, expected: &Quantity) -> bool {
    got.same_value(expected)
}

#[test]
fn divider_readme_example() {
    let vout = divider(q("5"), q("10000"), q("2200")).unwrap();
    assert!(exactly(&vout, &ratio(5 * 2_200, 12_200)));
}

#[test]
fn rejects_zero_r1() {
    assert_eq!(
        divider(q("5"), q("0"), q("1000")).unwrap_err(),
        EecalcError::NonPositiveValue { what: "resistance" }
    );
}

#[test]
fn current_from_voltage_and_resistance() {
    let result = ohm(OhmGiven::VoltageResistance { voltage: q("12"), resistance: q("470") }).unwrap();
    match result {
        OhmResult::Current(i) => assert!(exactly(&i, &ratio(12, 470))),
        other => panic!("unexpected {other:?}"),
    }
}

#[test]
fn voltage_from_current_and_resistance() {
    let result = ohm(OhmGiven::CurrentResistance { current: q("0.02"), resistance: q("330") }).unwrap();
    match result {
        OhmResult::Voltage(v) => assert!(exactly(&v, &q("6.6"))),
        other => panic!("unexpected {other:?}"),
    }
}

#[test]
fn resistance_from_voltage_and_current() {
    let result = ohm(OhmGiven::VoltageCurrent { voltage: q("5"), current: q("0.01") }).unwrap();
    match result {
        OhmResult::Resistance(r) => assert!(exactly(&r, &q("500"))),
        other => panic!("unexpected {other:?}"),
    }
}

#[test]
fn allows_negative_voltage() {
    let result = ohm(OhmGiven::VoltageResistance { voltage: q("-12"), resistance: q("470") }).unwrap();
    match result {
        OhmResult::Current(i) => assert!(exactly(&i, &ratio(12, 470).negate())),
        other => panic!("unexpected {other:?}"),
    }
}

#[test]
fn zero_voltage_yields_zero_current() {
    let result = ohm(OhmGiven::VoltageResistance { voltage: q("0"), resistance: q("100") }).unwrap();
    match result {
        OhmResult::Current(i) => assert!(exactly(&i, &q("0"))),
        other => panic!("unexpected {other:?}"),
    }
}

#[test]
fn zero_current_when_computing_resistance_is_division_by_zero() {
    let err = ohm(OhmGiven::VoltageCurrent { voltage: q("5"), current: q("0") }).unwrap_err();
    assert_eq!(err, EecalcError::DivisionByZero);
}

#[test]
fn rejects_non_positive_resistance() {
    let err = ohm(OhmGiven::VoltageResistance { voltage: q("12"), resistance: q("0") }).unwrap_err();
    assert_eq!(err, EecalcError::NonPositiveValue { what: "resistance" });
}

#[test]
fn from_voltage_and_resistance() {
    let p = power(PowerGiven::VoltageResistance { voltage: q("5"), resistance: q("100") }).unwrap();
    assert!(exactly(&p, &q("0.25")));
}

#[test]
fn from_voltage_and_current() {
    let p = power(PowerGiven::VoltageCurrent { voltage: q("5"), current: q("0.05") }).unwrap();
    assert!(exactly(&p, &q("0.25")));
}

#[test]
fn from_current_and_resistance() {
    let p = power(PowerGiven::CurrentResistance { current: q("0.05"), resistance: q("100") }).unwrap();
    assert!(exactly(&p, &q("0.25")));
}

#[test]
fn rejects_zero_resistance() {
    let err = power(PowerGiven::VoltageResistance { voltage: q("5"), resistance: q("0") }).unwrap_err();
    assert_eq!(err, EecalcError::NonPositiveValue { what: "resistance" });
}

#[test]
fn rc_readme_example() {
    let (tau, fc) = rc(q("10000"), q("0.000001")).unwrap();
    assert!(exactly(&tau, &q("0.01")));
    // 1 / (2 * PI * 10000 * 1e-6), with PI the double-precision value of π
    // (2 * PI == 884279719003555 / 140737488355328).
    assert!(exactly(&fc, &ratio(14_073_748_835_532_800, 884_279_719_003_555)));
    let expected = 1.0 / (2.0 * std::f64::consts::PI * 10_000.0 * 1e-6);
    let got = 14_073_748_835_532_800f64 / 884_279_719_003_555f64;
    assert!((got - expected).abs() <= 1e-9 * expected);
}

#[test]
fn rejects_zero_capacitance() {
    assert_eq!(
        rc(q("1000"), q("0")).unwrap_err(),
        EecalcError::NonPositiveValue { what: "capacitance" }
    );
}

#[test]
fn series_sum() {
    assert!(exactly(&series(&[q("100"), q("220"), q("330")]).unwrap(), &q("650")));
}

#[test]
fn parallel_two_equal() {
    assert!(exactly(&parallel(&[q("1000"), q("1000")]).unwrap(), &q("500")));
}

#[test]
fn parallel_readme() {
    let r = parallel(&[q("1000"), q("1000"), q("2200")]).unwrap();
    // 1 / (1/1000 + 1/1000 + 1/2200) == 2200000 / 5400
    assert!(exactly(&r, &ratio(2_200_000, 5_400)));
}

#[test]
fn rejects_zero() {
    assert_eq!(
        series(&[q("100"), q("0")]).unwrap_err(),
        EecalcError::NonPositiveValue { what: "resistance" }
    );
    assert_eq!(
        parallel(&[q("-10"), q("100")]).unwrap_err(),
        EecalcError::NonPositiveValue { what: "resistance" }
    );
}
