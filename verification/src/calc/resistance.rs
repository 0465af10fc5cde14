//! Equivalent resistance of resistors in series and in parallel.
use vstd::prelude::*;

use crate::calc::require_positive;
use crate::error::EecalcError;
use crate::quantity::{frac_add, frac_div, frac_mul, frac_of, is_positive, same_value, Frac, Quantity};

verus! {

/// The values of a list of quantities.
pub open spec fn values_of(qs: Seq<Quantity>) -> Seq<Frac> {
    qs.map_values(|q: Quantity| q@)
}

pub open spec fn all_positive(rs: Seq<Frac>) -> bool {
    forall|i: int| 0 <= i < rs.len() ==> #[trigger] is_positive(rs[i])
}

/// `R1 + R2 + ... + Rn`, added from the left, starting from zero.
pub open spec fn series_sum(rs: Seq<Frac>) -> Frac
    decreases rs.len(),
{
    if rs.len() == 0 {
        frac_of(0)
    } else {
        frac_add(series_sum(rs.drop_last()), rs.last())
    }
}

/// `1/R1 + 1/R2 + ... + 1/Rn`, added from the left, starting from zero.
pub open spec fn reciprocal_sum(rs: Seq<Frac>) -> Frac
    decreases rs.len(),
{
    if rs.len() == 0 {
        frac_of(0)
    } else {
        frac_add(reciprocal_sum(rs.drop_last()), frac_div(frac_of(1), rs.last()))
    }
}

/// `1 / (1/R1 + ... + 1/Rn)`.
pub open spec fn parallel_value(rs: Seq<Frac>) -> Frac {
    frac_div(frac_of(1), reciprocal_sum(rs))
}

/// Equivalent resistance of series resistors: `R = Σ Rn`.
pub fn series(resistances: &[Quantity]) -> (r: Result<Quantity, EecalcError>)
    ensures
        r is Ok <==> all_positive(values_of(resistances@)),
        r matches Ok(v) ==> v@ == series_sum(values_of(resistances@)),
        r matches Err(e) ==> e == (EecalcError::NonPositiveValue { what: "resistance" }),
{
    let ghost rs = values_of(resistances@);
    let mut sum = Quantity::from_ratio(0, 1);
    let mut i: usize = 0;
    assert(rs.take(0) =~= Seq::<Frac>::empty());
    while i < resistances.len()
        invariant
            rs == values_of(resistances@),
            i <= resistances@.len(),
            all_positive(rs.take(i as int)),
            sum@ == series_sum(rs.take(i as int)),
            !sum@.neg,
        decreases resistances@.len() - i,
    {
        let r = &resistances[i];
        if let Err(e) = require_positive(r, "resistance") {
            proof {
                assert(!is_positive(rs[i as int]));
            }
            return Err(e);
        }
        sum = sum.add(r);
        proof {
            assert(rs.take(i + 1).drop_last() =~= rs.take(i as int));
            assert forall|j: int| 0 <= j < i + 1 implies #[trigger] is_positive(rs.take(i + 1)[j]) by {
                if j < i {
                    assert(rs.take(i + 1)[j] == rs.take(i as int)[j]);
                }
            }
        }
        i += 1;
    }
    assert(rs.take(resistances@.len() as int) =~= rs);
    Ok(sum)
}

proof fn lemma_reciprocal_sum_positive(rs: Seq<Frac>)
    requires
        rs.len() > 0,
        all_positive(rs),
        forall|i: int| 0 <= i < rs.len() ==> #[trigger] rs[i].den > 0,
    ensures
        reciprocal_sum(rs).num > 0,
        reciprocal_sum(rs).den > 0,
    decreases rs.len(),
{
    let last = rs.last();
    assert(is_positive(rs[rs.len() - 1]));
    let inv = frac_div(frac_of(1), last);
    assert(inv.num == last.den);
    assert(inv.den == last.num);
    let prev = reciprocal_sum(rs.drop_last());
    if rs.len() > 1 {
        assert forall|i: int| 0 <= i < rs.drop_last().len() implies #[trigger] is_positive(
            rs.drop_last()[i],
        ) by {
            assert(rs.drop_last()[i] == rs[i]);
        }
        assert forall|i: int| 0 <= i < rs.drop_last().len() implies #[trigger] rs.drop_last()[i].den
            > 0 by {
            assert(rs.drop_last()[i] == rs[i]);
        }
        lemma_reciprocal_sum_positive(rs.drop_last());
    } else {
        assert(prev == frac_of(0));
    }
    assert(prev.num * inv.den + inv.num * prev.den > 0) by (nonlinear_arith)
        requires
            inv.num > 0,
            prev.den > 0,
    ;
    assert(prev.den * inv.den > 0) by (nonlinear_arith)
        requires
            inv.den > 0,
            prev.den > 0,
    ;
}

/// Equivalent resistance of parallel resistors: `R = 1 / Σ(1 / Rn)`.
pub fn parallel(resistances: &[Quantity]) -> (r: Result<Quantity, EecalcError>)
    requires
        resistances@.len() > 0,
    ensures
        r is Ok <==> all_positive(values_of(resistances@)),
        r matches Ok(v) ==> v@ == parallel_value(values_of(resistances@)),
        r matches Err(e) ==> e == (EecalcError::NonPositiveValue { what: "resistance" }),
{
    let ghost rs = values_of(resistances@);
    let one = Quantity::from_ratio(1, 1);
    let mut recip = Quantity::from_ratio(0, 1);
    let mut i: usize = 0;
    assert(rs.take(0) =~= Seq::<Frac>::empty());
    while i < resistances.len()
        invariant
            rs == values_of(resistances@),
            one@ == frac_of(1),
            i <= resistances@.len(),
            all_positive(rs.take(i as int)),
            forall|j: int| 0 <= j < i ==> #[trigger] rs[j].den > 0,
            recip@ == reciprocal_sum(rs.take(i as int)),
            !recip@.neg,
        decreases resistances@.len() - i,
    {
        let r = &resistances[i];
        if let Err(e) = require_positive(r, "resistance") {
            proof {
                assert(!is_positive(rs[i as int]));
            }
            return Err(e);
        }
        let inverse = one.div(r);
        recip = recip.add(&inverse);
        proof {
            assert(rs.take(i + 1).drop_last() =~= rs.take(i as int));
            assert forall|j: int| 0 <= j < i + 1 implies #[trigger] is_positive(rs.take(i + 1)[j]) by {
                if j < i {
                    assert(rs.take(i + 1)[j] == rs.take(i as int)[j]);
                }
            }
        }
        i += 1;
    }
    assert(rs.take(resistances@.len() as int) =~= rs);
    proof {
        lemma_reciprocal_sum_positive(rs);
    }
    Ok(one.div(&recip))
}

/// A series string adds up its resistors one by one: a single resistor is its own series
/// value, and appending a resistor `r` to a string `rs` adds `r` to the series value of `rs`.
/// Together these make the series value the sum of every resistor of the list.
pub proof fn lemma_series_appends(rs: Seq<Frac>, r: Frac)
    requires
        all_positive(rs),
        forall|i: int| 0 <= i < rs.len() ==> #[trigger] rs[i].den > 0,
        is_positive(r),
        r.den > 0,
    ensures
        same_value(series_sum(seq![r]), r),
        same_value(series_sum(rs.push(r)), frac_add(series_sum(rs), r)),
{
    assert(seq![r].drop_last() =~= Seq::<Frac>::empty());
    assert(series_sum(Seq::<Frac>::empty()) == frac_of(0));
    let one = series_sum(seq![r]);
    assert(one.num == 0 * r.den + r.num * 1 && one.den == 1 * r.den);
    assert(one.num == r.num && one.den == r.den);
    assert(rs.push(r).drop_last() =~= rs);
    assert(rs.push(r).last() == r);
    assert(series_sum(rs.push(r)) == frac_add(series_sum(rs), r));
}

/// A parallel bank adds up the conductances of its resistors: a single resistor is its own
/// parallel value, and appending a resistor `r` to a bank `rs` adds `1 / r` to the
/// conductance `1 / R` of `rs`. Together these make `1 / R` the sum of `1 / Rn` over every
/// resistor of the list.
pub proof fn lemma_parallel_appends(rs: Seq<Frac>, r: Frac)
    requires
        rs.len() > 0,
        all_positive(rs),
        forall|i: int| 0 <= i < rs.len() ==> #[trigger] rs[i].den > 0,
        is_positive(r),
        r.den > 0,
    ensures
        same_value(parallel_value(seq![r]), r),
        same_value(
            frac_div(frac_of(1), parallel_value(rs.push(r))),
            frac_add(frac_div(frac_of(1), parallel_value(rs)), frac_div(frac_of(1), r)),
        ),
{
    assert(seq![r].drop_last() =~= Seq::<Frac>::empty());
    assert(reciprocal_sum(Seq::<Frac>::empty()) == frac_of(0));
    let inv = frac_div(frac_of(1), r);
    assert(inv.num == r.den && inv.den == r.num && !inv.neg);
    let u = reciprocal_sum(seq![r]);
    assert(u == frac_add(frac_of(0), inv));
    assert(u.num == 0 * inv.den + inv.num * 1 && u.den == 1 * inv.den);
    assert(u.num == r.den && u.den == r.num && !u.neg);
    let p = parallel_value(seq![r]);
    assert(p.num == 1 * u.den && p.den == 1 * u.num && !p.neg);
    lemma_reciprocal_sum_positive(rs);
    let s = reciprocal_sum(rs);
    assert(!s.neg);
    let q = parallel_value(rs);
    assert(q.num == 1 * s.den && q.den == 1 * s.num && !q.neg);
    let back = frac_div(frac_of(1), q);
    assert(back.num == 1 * q.den && back.den == 1 * q.num);
    assert(back == s);
    assert(rs.push(r).drop_last() =~= rs);
    assert(rs.push(r).last() == r);
    let s2 = reciprocal_sum(rs.push(r));
    assert(s2 == frac_add(s, inv));
    let q2 = parallel_value(rs.push(r));
    assert(q2.num == 1 * s2.den && q2.den == 1 * s2.num && !q2.neg);
    let back2 = frac_div(frac_of(1), q2);
    assert(back2.num == 1 * q2.den && back2.den == 1 * q2.num);
    assert(back2 == s2);
}

/// Two resistors: in series their resistances add; in parallel the result is their
/// product over their sum.
pub proof fn lemma_two_resistors(r1: Frac, r2: Frac)
    requires
        r1.den > 0,
        r2.den > 0,
        is_positive(r1),
        is_positive(r2),
    ensures
        same_value(series_sum(seq![r1, r2]), frac_add(r1, r2)),
        same_value(parallel_value(seq![r1, r2]), frac_div(frac_mul(r1, r2), frac_add(r1, r2))),
{
    let rs = seq![r1, r2];
    assert(rs.drop_last() =~= seq![r1]);
    assert(seq![r1].drop_last() =~= Seq::<Frac>::empty());
    let (a, b, c, d) = (r1.num, r1.den, r2.num, r2.den);
    let s1 = frac_add(frac_of(0), r1);
    assert(s1.num == 0 * b + a * 1 && s1.den == 1 * b);
    assert(series_sum(Seq::<Frac>::empty()) == frac_of(0));
    assert(series_sum(seq![r1]) == s1);
    let s = frac_add(s1, r2);
    assert(series_sum(rs) == s);
    assert(s.num == s1.num * d + c * s1.den && s.den == s1.den * d);
    let t = frac_add(r1, r2);
    assert(s1.num == a && s1.den == b);
    assert(t.num == a * d + c * b && t.den == b * d);
    assert(s.num * t.den == t.num * s.den) by (nonlinear_arith)
        requires
            s.num == a * d + c * b,
            s.den == b * d,
            t.num == a * d + c * b,
            t.den == b * d,
    ;
    let i1 = frac_div(frac_of(1), r1);
    let i2 = frac_div(frac_of(1), r2);
    assert(i1.num == 1 * b && i1.den == 1 * a);
    assert(i2.num == 1 * d && i2.den == 1 * c);
    let u1 = frac_add(frac_of(0), i1);
    assert(u1.num == 0 * a + b * 1 && u1.den == 1 * a);
    assert(reciprocal_sum(Seq::<Frac>::empty()) == frac_of(0));
    assert(reciprocal_sum(seq![r1]) == u1);
    let u = frac_add(u1, i2);
    assert(reciprocal_sum(rs) == u);
    assert(u.num == b * c + d * a && u.den == a * c);
    let par = frac_div(frac_of(1), u);
    assert(par.num == 1 * (a * c) && par.den == 1 * (b * c + d * a));
    let pq = frac_div(frac_mul(r1, r2), t);
    assert(pq.num == a * c * (b * d) && pq.den == b * d * (a * d + c * b));
    assert(par.num * pq.den == pq.num * par.den) by (nonlinear_arith)
        requires
            par.num == a * c,
            par.den == b * c + d * a,
            pq.num == a * c * (b * d),
            pq.den == b * d * (a * d + c * b),
    ;
}

} // verus!
