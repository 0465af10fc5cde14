//! Electrical power: `P = V * I`.
use vstd::prelude::*;

use crate::calc::require_positive;
use crate::error::{EecalcError, ErrorView};
use crate::quantity::{frac_div, frac_mul, is_positive, same_value, Frac, Quantity};

verus! {

/// Valid power input: any two of voltage, current, resistance.
#[derive(Debug, Clone, PartialEq, Eq)]
pub enum PowerGiven {
    VoltageCurrent { voltage: Quantity, current: Quantity },
    VoltageResistance { voltage: Quantity, resistance: Quantity },
    CurrentResistance { current: Quantity, resistance: Quantity },
}

/// The two quantities supplied, as mathematical values.
pub enum PowerInput {
    VoltageCurrent { voltage: Frac, current: Frac },
    VoltageResistance { voltage: Frac, resistance: Frac },
    CurrentResistance { current: Frac, resistance: Frac },
}

impl View for PowerGiven {
    type V = PowerInput;

    open spec fn view(&self) -> PowerInput {
        match self {
            PowerGiven::VoltageCurrent { voltage, current } => PowerInput::VoltageCurrent {
                voltage: voltage@,
                current: current@,
            },
            PowerGiven::VoltageResistance { voltage, resistance } => PowerInput::VoltageResistance {
                voltage: voltage@,
                resistance: resistance@,
            },
            PowerGiven::CurrentResistance { current, resistance } => PowerInput::CurrentResistance {
                current: current@,
                resistance: resistance@,
            },
        }
    }
}

/// The power for the two quantities supplied, or why it cannot be had.
pub open spec fn power_law(given: PowerInput) -> Result<Frac, ErrorView> {
    match given {
        PowerInput::VoltageCurrent { voltage, current } => Ok(frac_mul(voltage, current)),
        PowerInput::VoltageResistance { voltage, resistance } => if is_positive(resistance) {
            Ok(frac_div(frac_mul(voltage, voltage), resistance))
        } else {
            Err(ErrorView::NonPositiveValue { what: "resistance"@ })
        },
        PowerInput::CurrentResistance { current, resistance } => if is_positive(resistance) {
            Ok(frac_mul(frac_mul(current, current), resistance))
        } else {
            Err(ErrorView::NonPositiveValue { what: "resistance"@ })
        },
    }
}

/// Computes power: `P = V * I`, `P = I² * R`, or `P = V² / R`.
pub fn power(given: PowerGiven) -> (r: Result<Quantity, EecalcError>)
    ensures
        match r {
            Ok(p) => power_law(given@) == Ok::<Frac, ErrorView>(p@),
            Err(e) => power_law(given@) == Err::<Frac, ErrorView>(e@),
        },
{
    match given {
        PowerGiven::VoltageCurrent { voltage, current } => Ok(voltage.mul(&current)),
        PowerGiven::VoltageResistance { voltage, resistance } => {
            require_positive(&resistance, "resistance")?;
            Ok(voltage.mul(&voltage).div(&resistance))
        },
        PowerGiven::CurrentResistance { current, resistance } => {
            require_positive(&resistance, "resistance")?;
            Ok(current.mul(&current).mul(&resistance))
        },
    }
}

/// The three power formulas agree: for a current through a resistance and the voltage
/// across it (`V = I * R`), `V * I`, `I² * R` and `V² / R` are the same power.
pub proof fn lemma_power_forms_agree(current: Frac, resistance: Frac)
    requires
        current.den > 0,
        resistance.den > 0,
        is_positive(resistance),
    ensures
        ({
            let voltage = frac_mul(current, resistance);
            &&& power_law(PowerInput::VoltageCurrent { voltage, current }) matches Ok(p1)
            &&& power_law(PowerInput::CurrentResistance { current, resistance }) matches Ok(p2)
            &&& power_law(PowerInput::VoltageResistance { voltage, resistance }) matches Ok(p3)
            &&& same_value(p1, p2)
            &&& same_value(p2, p3)
        }),
{
    let voltage = frac_mul(current, resistance);
    let (a, b, c, d) = (current.num, current.den, resistance.num, resistance.den);
    let p1 = frac_mul(voltage, current);
    let p2 = frac_mul(frac_mul(current, current), resistance);
    let p3 = frac_div(frac_mul(voltage, voltage), resistance);
    assert(!p1.neg && !p2.neg && !p3.neg);
    let (n1, d1) = (a * c * a, b * d * b);
    let (n2, d2) = (a * a * c, b * b * d);
    let (n3, d3) = (a * c * (a * c) * d, b * d * (b * d) * c);
    assert(p1.num == n1 && p1.den == d1);
    assert(p2.num == n2 && p2.den == d2);
    assert(p3.num == n3 && p3.den == d3);
    assert(n1 * d2 == n2 * d1) by (nonlinear_arith)
        requires
            n1 == a * c * a,
            d1 == b * d * b,
            n2 == a * a * c,
            d2 == b * b * d,
    ;
    assert(n2 * d3 == n3 * d2) by (nonlinear_arith)
        requires
            n2 == a * a * c,
            d2 == b * b * d,
            n3 == a * c * (a * c) * d,
            d3 == b * d * (b * d) * c,
    ;
}

} // verus!
