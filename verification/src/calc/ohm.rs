//! Ohm's law: `V = I * R`.
use vstd::prelude::*;

use crate::calc::require_positive;
use crate::error::{EecalcError, ErrorView};
use crate::quantity::{frac_div, frac_mul, is_positive, same_value, signed_num, Frac, Quantity};

verus! {

/// Valid Ohm's-law input: any two of voltage, current, resistance.
#[derive(Debug, Clone, PartialEq, Eq)]
pub enum OhmGiven {
    VoltageCurrent { voltage: Quantity, current: Quantity },
    VoltageResistance { voltage: Quantity, resistance: Quantity },
    CurrentResistance { current: Quantity, resistance: Quantity },
}

/// The quantity that was not supplied.
#[derive(Debug, Clone, PartialEq, Eq)]
pub enum OhmResult {
    Voltage(Quantity),
    Current(Quantity),
    Resistance(Quantity),
}

/// The two quantities supplied, as mathematical values.
pub enum OhmInput {
    VoltageCurrent { voltage: Frac, current: Frac },
    VoltageResistance { voltage: Frac, resistance: Frac },
    CurrentResistance { current: Frac, resistance: Frac },
}

impl View for OhmGiven {
    type V = OhmInput;

    open spec fn view(&self) -> OhmInput {
        match self {
            OhmGiven::VoltageCurrent { voltage, current } => OhmInput::VoltageCurrent {
                voltage: voltage@,
                current: current@,
            },
            OhmGiven::VoltageResistance { voltage, resistance } => OhmInput::VoltageResistance {
                voltage: voltage@,
                resistance: resistance@,
            },
            OhmGiven::CurrentResistance { current, resistance } => OhmInput::CurrentResistance {
                current: current@,
                resistance: resistance@,
            },
        }
    }
}

/// The quantity that was not supplied, as a mathematical value.
pub enum OhmValue {
    Voltage(Frac),
    Current(Frac),
    Resistance(Frac),
}

impl View for OhmResult {
    type V = OhmValue;

    open spec fn view(&self) -> OhmValue {
        match self {
            OhmResult::Voltage(v) => OhmValue::Voltage(v@),
            OhmResult::Current(i) => OhmValue::Current(i@),
            OhmResult::Resistance(r) => OhmValue::Resistance(r@),
        }
    }
}

/// What Ohm's law gives for the two quantities supplied: the third one, or why not.
pub open spec fn ohm_law(given: OhmInput) -> Result<OhmValue, ErrorView> {
    match given {
        OhmInput::VoltageResistance { voltage, resistance } => if is_positive(resistance) {
            Ok(OhmValue::Current(frac_div(voltage, resistance)))
        } else {
            Err(ErrorView::NonPositiveValue { what: "resistance"@ })
        },
        OhmInput::VoltageCurrent { voltage, current } => if current.num == 0 {
            Err(ErrorView::DivisionByZero)
        } else {
            Ok(OhmValue::Resistance(frac_div(voltage, current)))
        },
        OhmInput::CurrentResistance { current, resistance } => if is_positive(resistance) {
            Ok(OhmValue::Voltage(frac_mul(current, resistance)))
        } else {
            Err(ErrorView::NonPositiveValue { what: "resistance"@ })
        },
    }
}

/// Computes the missing Ohm's-law quantity: `V = I * R`, `I = V / R`, or `R = V / I`.
pub fn ohm(given: OhmGiven) -> (r: Result<OhmResult, EecalcError>)
    ensures
        match r {
            Ok(x) => ohm_law(given@) == Ok::<OhmValue, ErrorView>(x@),
            Err(e) => ohm_law(given@) == Err::<OhmValue, ErrorView>(e@),
        },
{
    match given {
        OhmGiven::VoltageResistance { voltage, resistance } => {
            require_positive(&resistance, "resistance")?;
            Ok(OhmResult::Current(voltage.div(&resistance)))
        },
        OhmGiven::VoltageCurrent { voltage, current } => {
            if current.is_zero() {
                return Err(EecalcError::DivisionByZero);
            }
            Ok(OhmResult::Resistance(voltage.div(&current)))
        },
        OhmGiven::CurrentResistance { current, resistance } => {
            require_positive(&resistance, "resistance")?;
            Ok(OhmResult::Voltage(current.mul(&resistance)))
        },
    }
}

/// The three forms of Ohm's law agree: the current found from a voltage and a resistance
/// gives that voltage back with the resistance, and the resistance back with the voltage
/// (when the voltage is not zero).
pub proof fn lemma_ohm_round_trip(voltage: Frac, resistance: Frac)
    requires
        voltage.den > 0,
        resistance.den > 0,
        is_positive(resistance),
    ensures
        ({
            let current = frac_div(voltage, resistance);
            &&& ohm_law(OhmInput::VoltageResistance { voltage, resistance }) == Ok::<
                OhmValue,
                ErrorView,
            >(OhmValue::Current(current))
            &&& ohm_law(OhmInput::CurrentResistance { current, resistance }) matches Ok(
                OhmValue::Voltage(v),
            ) && same_value(v, voltage)
            &&& voltage.num > 0 ==> (ohm_law(OhmInput::VoltageCurrent { voltage, current })
                matches Ok(OhmValue::Resistance(r)) && same_value(r, resistance))
        }),
{
    let current = frac_div(voltage, resistance);
    let v = frac_mul(current, resistance);
    let (a, b, c, d) = (voltage.num, voltage.den, resistance.num, resistance.den);
    assert(v.num == a * d * c);
    assert(v.den == b * c * d);
    assert(v.num * b == a * v.den) by (nonlinear_arith)
        requires
            v.num == a * d * c,
            v.den == b * c * d,
    ;
    assert(v.neg == voltage.neg);
    assert(signed_num(v) * b == signed_num(voltage) * v.den) by (nonlinear_arith)
        requires
            v.num * b == a * v.den,
            v.neg == voltage.neg,
            signed_num(v) == (if v.neg { -(v.num as int) } else { v.num as int }),
            signed_num(voltage) == (if voltage.neg { -(a as int) } else { a as int }),
    ;
    assert(same_value(v, voltage));
    if voltage.num > 0 {
        assert(current.num == a * d);
        assert(a * d > 0) by (nonlinear_arith)
            requires
                a > 0,
                d > 0,
        ;
        let r = frac_div(voltage, current);
        assert(r.num == a * (b * c));
        assert(r.den == b * (a * d));
        assert(r.num * d == c * r.den) by (nonlinear_arith)
            requires
                r.num == a * (b * c),
                r.den == b * (a * d),
        ;
        assert(r.neg == resistance.neg);
        assert(signed_num(r) * d == signed_num(resistance) * r.den) by (nonlinear_arith)
            requires
                r.num * d == c * r.den,
                r.neg == resistance.neg,
                signed_num(r) == (if r.neg { -(r.num as int) } else { r.num as int }),
                signed_num(resistance) == (if resistance.neg { -(c as int) } else { c as int }),
        ;
        assert(same_value(r, resistance));
    }
}

} // verus!
