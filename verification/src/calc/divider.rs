//! The two-resistor voltage divider.
use vstd::prelude::*;

use crate::calc::require_positive;
use crate::error::EecalcError;
use crate::quantity::{frac_add, frac_div, frac_mul, is_positive, same_value, signed_num, Frac, Quantity};

verus! {

/// The output of a divider: `Vin * R2 / (R1 + R2)`.
pub open spec fn divider_output(vin: Frac, r1: Frac, r2: Frac) -> Frac {
    frac_div(frac_mul(vin, r2), frac_add(r1, r2))
}

/// Two-resistor divider: `Vout = Vin * R2 / (R1 + R2)`.
pub fn divider(vin: Quantity, r1: Quantity, r2: Quantity) -> (r: Result<Quantity, EecalcError>)
    ensures
        r is Ok <==> is_positive(r1@) && is_positive(r2@),
        r matches Ok(v) ==> v@ == divider_output(vin@, r1@, r2@),
        r matches Err(e) ==> e == (EecalcError::NonPositiveValue { what: "resistance" }),
{
    require_positive(&r1, "resistance")?;
    require_positive(&r2, "resistance")?;
    let total = r1.add(&r2);
    Ok(vin.mul(&r2).div(&total))
}

/// A divider's output lies between zero and its input: `0 <= Vout <= Vin` for `Vin >= 0`.
pub proof fn lemma_divider_output_between(vin: Frac, r1: Frac, r2: Frac)
    requires
        vin.den > 0,
        r1.den > 0,
        r2.den > 0,
        !vin.neg,
        is_positive(r1),
        is_positive(r2),
    ensures
        !divider_output(vin, r1, r2).neg,
        divider_output(vin, r1, r2).den > 0,
        divider_output(vin, r1, r2).num * vin.den <= vin.num * divider_output(vin, r1, r2).den,
{
    let (a, b) = (vin.num, vin.den);
    let (c, d, e, f) = (r1.num, r1.den, r2.num, r2.den);
    let v = divider_output(vin, r1, r2);
    assert(v.num == a * e * (d * f));
    assert(v.den == b * f * (c * f + e * d));
    assert(v.den > 0) by (nonlinear_arith)
        requires
            v.den == b * f * (c * f + e * d),
            b > 0,
            c > 0,
            d > 0,
            f > 0,
    ;
    assert(v.num * b <= a * v.den) by (nonlinear_arith)
        requires
            v.num == a * e * (d * f),
            v.den == b * f * (c * f + e * d),
    ;
}

/// A divider's output balances its input over the string: `Vout * (R1 + R2) = Vin * R2`
/// as numbers, whatever fractions write the three values. So the output is the input
/// scaled by `R2 / (R1 + R2)`, and fixed by the values of its inputs alone.
pub proof fn lemma_divider_balance(vin: Frac, r1: Frac, r2: Frac)
    requires
        vin.den > 0,
        r1.den > 0,
        r2.den > 0,
        is_positive(r1),
        is_positive(r2),
    ensures
        same_value(frac_mul(divider_output(vin, r1, r2), frac_add(r1, r2)), frac_mul(vin, r2)),
{
    let (a, b) = (vin.num, vin.den);
    let (c, d, e, f) = (r1.num, r1.den, r2.num, r2.den);
    let total = frac_add(r1, r2);
    assert(total.num == c * f + e * d && total.den == d * f);
    let v = divider_output(vin, r1, r2);
    assert(v.num == a * e * (d * f) && v.den == b * f * (c * f + e * d) && v.neg == vin.neg);
    let left = frac_mul(v, total);
    let right = frac_mul(vin, r2);
    assert(left.num == a * e * (d * f) * (c * f + e * d));
    assert(left.den == b * f * (c * f + e * d) * (d * f));
    assert(right.num == a * e && right.den == b * f);
    assert(left.neg == right.neg);
    assert(left.num * right.den == right.num * left.den) by (nonlinear_arith)
        requires
            left.num == a * e * (d * f) * (c * f + e * d),
            left.den == b * f * (c * f + e * d) * (d * f),
            right.num == a * e,
            right.den == b * f,
    ;
    if left.neg {
        assert(signed_num(left) * right.den == -(left.num * right.den)) by (nonlinear_arith)
            requires
                signed_num(left) == -(left.num as int),
        ;
        assert(signed_num(right) * left.den == -(right.num * left.den)) by (nonlinear_arith)
            requires
                signed_num(right) == -(right.num as int),
        ;
    }
}

} // verus!
