//! The first-order RC circuit.
use vstd::prelude::*;

use crate::calc::require_positive;
use crate::error::EecalcError;
use crate::quantity::{frac_div, frac_mul, frac_of, is_positive, same_value, Frac, Quantity};

verus! {

/// Twice the double-precision value of π, `2 * 3.141592653589793115997963...`, exactly.
pub open spec fn two_pi() -> Frac {
    Frac { neg: false, num: 884279719003555, den: 140737488355328 }
}

/// The time constant `R * C`.
pub open spec fn time_constant(r: Frac, c: Frac) -> Frac {
    frac_mul(r, c)
}

/// The cutoff frequency `1 / (2π * R * C)`.
pub open spec fn cutoff_frequency(r: Frac, c: Frac) -> Frac {
    frac_div(frac_of(1), frac_mul(frac_mul(two_pi(), r), c))
}

/// RC time constant and first-order cutoff: `tau = R * C`, `fc = 1 / (2π R C)`.
pub fn rc(resistance: Quantity, capacitance: Quantity) -> (r: Result<(Quantity, Quantity), EecalcError>)
    ensures
        r is Ok <==> is_positive(resistance@) && is_positive(capacitance@),
        r matches Ok((tau, fc)) ==> tau@ == time_constant(resistance@, capacitance@) && fc@
            == cutoff_frequency(resistance@, capacitance@),
        r matches Err(e) ==> e == (if is_positive(resistance@) {
            EecalcError::NonPositiveValue { what: "capacitance" }
        } else {
            EecalcError::NonPositiveValue { what: "resistance" }
        }),
{
    require_positive(&resistance, "resistance")?;
    require_positive(&capacitance, "capacitance")?;
    let tau = resistance.mul(&capacitance);
    let two_pi = Quantity::from_ratio(884279719003555, 140737488355328);
    let denominator = two_pi.mul(&resistance).mul(&capacitance);
    proof {
        let a = 884279719003555nat * resistance@.num;
        assert(a > 0) by (nonlinear_arith)
            requires
                resistance@.num > 0,
                a == 884279719003555nat * resistance@.num,
        ;
        assert(a * capacitance@.num > 0) by (nonlinear_arith)
            requires
                a > 0,
                capacitance@.num > 0,
        ;
    }
    let fc = Quantity::from_ratio(1, 1).div(&denominator);
    Ok((tau, fc))
}

/// The time constant and the cutoff frequency of one circuit multiply to `1 / (2π)`.
pub proof fn lemma_time_constant_times_cutoff(resistance: Frac, capacitance: Frac)
    requires
        resistance.den > 0,
        capacitance.den > 0,
        is_positive(resistance),
        is_positive(capacitance),
    ensures
        same_value(
            frac_mul(
                time_constant(resistance, capacitance),
                cutoff_frequency(resistance, capacitance),
            ),
            frac_div(frac_of(1), two_pi()),
        ),
{
    let (a, b, c, d) = (resistance.num, resistance.den, capacitance.num, capacitance.den);
    let (m, n) = (884279719003555nat, 140737488355328nat);
    let x = frac_mul(time_constant(resistance, capacitance), cutoff_frequency(resistance, capacitance));
    assert(x.num == a * c * (1 * (n * b * d)));
    assert(x.den == b * d * (1 * (m * a * c)));
    assert(a * c * (1 * (n * b * d)) * (1 * m) == 1 * n * (b * d * (1 * (m * a * c)))) by (nonlinear_arith);
}

/// The time constant is the product of the resistance and the capacitance as numbers, and
/// the cutoff frequency is the inverse of `2π R C`: `fc * (2π * R * C) = 1`.
pub proof fn lemma_rc_values(resistance: Frac, capacitance: Frac)
    requires
        resistance.den > 0,
        capacitance.den > 0,
        is_positive(resistance),
        is_positive(capacitance),
    ensures
        same_value(time_constant(resistance, capacitance), frac_mul(resistance, capacitance)),
        same_value(
            frac_mul(
                cutoff_frequency(resistance, capacitance),
                frac_mul(frac_mul(two_pi(), resistance), capacitance),
            ),
            frac_of(1),
        ),
{
    let (a, b, c, d) = (resistance.num, resistance.den, capacitance.num, capacitance.den);
    let (m, n) = (884279719003555nat, 140737488355328nat);
    let tau = time_constant(resistance, capacitance);
    let rc = frac_mul(resistance, capacitance);
    assert(tau.num == a * c && tau.den == b * d && !tau.neg);
    assert(rc.num == a * c && rc.den == b * d && !rc.neg);
    let x = frac_mul(frac_mul(two_pi(), resistance), capacitance);
    assert(x.num == m * a * c && x.den == n * b * d && !x.neg);
    let fc = cutoff_frequency(resistance, capacitance);
    assert(fc.num == 1 * x.den && fc.den == 1 * x.num && !fc.neg);
    let y = frac_mul(fc, x);
    assert(y.num == fc.num * x.num && y.den == fc.den * x.den && !y.neg);
    assert(y.num * 1 == 1 * y.den) by (nonlinear_arith)
        requires
            y.num == fc.num * x.num,
            y.den == fc.den * x.den,
            fc.num == 1 * x.den,
            fc.den == 1 * x.num,
    ;
}

/// The time constant and the cutoff frequency depend on the values of the resistance and
/// the capacitance alone: fractions that write the same numbers give the same results.
pub proof fn lemma_rc_depends_on_values(r1: Frac, c1: Frac, r2: Frac, c2: Frac)
    requires
        r1.den > 0,
        c1.den > 0,
        r2.den > 0,
        c2.den > 0,
        is_positive(r1),
        is_positive(c1),
        is_positive(r2),
        is_positive(c2),
        same_value(r1, r2),
        same_value(c1, c2),
    ensures
        same_value(time_constant(r1, c1), time_constant(r2, c2)),
        same_value(cutoff_frequency(r1, c1), cutoff_frequency(r2, c2)),
{
    let (a1, b1, p1, q1) = (r1.num, r1.den, c1.num, c1.den);
    let (a2, b2, p2, q2) = (r2.num, r2.den, c2.num, c2.den);
    let (m, n) = (884279719003555nat, 140737488355328nat);
    assert(a1 * b2 == a2 * b1);
    assert(p1 * q2 == p2 * q1);
    let t1 = time_constant(r1, c1);
    let t2 = time_constant(r2, c2);
    assert(t1.num == a1 * p1 && t1.den == b1 * q1 && !t1.neg);
    assert(t2.num == a2 * p2 && t2.den == b2 * q2 && !t2.neg);
    assert(a1 * p1 * (b2 * q2) == a2 * p2 * (b1 * q1)) by (nonlinear_arith)
        requires
            a1 * b2 == a2 * b1,
            p1 * q2 == p2 * q1,
    ;
    let f1 = cutoff_frequency(r1, c1);
    let f2 = cutoff_frequency(r2, c2);
    assert(f1.num == 1 * (n * b1 * q1) && f1.den == 1 * (m * a1 * p1) && !f1.neg);
    assert(f2.num == 1 * (n * b2 * q2) && f2.den == 1 * (m * a2 * p2) && !f2.neg);
    assert(b1 * q1 * (a2 * p2) == b2 * q2 * (a1 * p1)) by (nonlinear_arith)
        requires
            a1 * b2 == a2 * b1,
            p1 * q2 == p2 * q1,
    ;
    lemma_regroup(n as int, m as int, b1 as int, q1 as int, a2 as int, p2 as int);
    lemma_regroup(n as int, m as int, b2 as int, q2 as int, a1 as int, p1 as int);
}

proof fn lemma_regroup(n: int, m: int, x: int, y: int, z: int, w: int)
    by (nonlinear_arith)
    ensures
        n * x * y * (m * z * w) == (n * m) * ((x * y) * (z * w)),
{
}

} // verus!
