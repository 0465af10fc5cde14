//! Reading values with SI prefixes and writing results in engineering notation.
use vstd::prelude::*;

use crate::error::{EecalcError, ErrorView};
use crate::natural::{pow10, Natural};
use crate::quantity::{same_value, Frac, Quantity};
use crate::text::{chars_of, digit_char, digit_text};

verus! {

pub open spec fn is_digit(c: char) -> bool {
    '0' <= c && c <= '9'
}

pub open spec fn is_number_char(c: char) -> bool {
    is_digit(c) || c == '.'
}

pub open spec fn digit_of(c: char) -> nat {
    (c as int - '0' as int) as nat
}

/// The length of the leading sign, if any.
pub open spec fn sign_len(t: Seq<char>) -> int {
    if t.len() > 0 && (t[0] == '+' || t[0] == '-') {
        1
    } else {
        0
    }
}

/// Where the run of digits and points that starts at `i` ends.
pub open spec fn run_end(t: Seq<char>, i: int) -> int
    decreases t.len() - i,
{
    if 0 <= i < t.len() && is_number_char(t[i]) {
        run_end(t, i + 1)
    } else {
        i
    }
}

/// Where the decimal number at the front of `t` ends.
pub open spec fn mantissa_end(t: Seq<char>) -> int {
    run_end(t, sign_len(t))
}

/// The digits and points after the sign.
pub open spec fn mantissa(t: Seq<char>) -> Seq<char> {
    t.subrange(sign_len(t), mantissa_end(t))
}

/// What follows the decimal number.
pub open spec fn suffix(t: Seq<char>) -> Seq<char> {
    t.subrange(mantissa_end(t), t.len() as int)
}

pub open spec fn count_points(s: Seq<char>) -> nat
    decreases s.len(),
{
    if s.len() == 0 {
        0
    } else {
        count_points(s.drop_last()) + if s.last() == '.' {
            1nat
        } else {
            0nat
        }
    }
}

/// The integer written by the digits of `s`, its point left out.
pub open spec fn digits_integer(s: Seq<char>) -> nat
    decreases s.len(),
{
    if s.len() == 0 {
        0
    } else if s.last() == '.' {
        digits_integer(s.drop_last())
    } else {
        digits_integer(s.drop_last()) * 10 + digit_of(s.last())
    }
}

/// The count of digits after the point of `s`.
pub open spec fn fraction_len(s: Seq<char>) -> nat
    decreases s.len(),
{
    if s.len() == 0 || s.last() == '.' {
        0
    } else if count_points(s.drop_last()) > 0 {
        fraction_len(s.drop_last()) + 1
    } else {
        0
    }
}

/// The power of ten that an SI prefix stands for.
pub open spec fn prefix_exponent(s: Seq<char>) -> Option<int> {
    if s.len() == 0 {
        Some(0)
    } else if s.len() == 1 && s[0] == 'p' {
        Some(-12)
    } else if s.len() == 1 && s[0] == 'n' {
        Some(-9)
    } else if s.len() == 1 && s[0] == 'u' {
        Some(-6)
    } else if s.len() == 1 && s[0] == 'm' {
        Some(-3)
    } else if s.len() == 1 && s[0] == 'k' {
        Some(3)
    } else if s.len() == 1 && s[0] == 'M' {
        Some(6)
    } else {
        None
    }
}

/// Whether `t` holds no decimal number that could be read.
pub open spec fn not_a_number(t: Seq<char>) -> bool {
    let m = mantissa(t);
    t.len() == 0 || count_points(m) > 1 || m.len() == 0 || m == seq!['.']
}

/// The exact value written as `t`: the decimal number times its prefix's power of ten.
pub open spec fn written_value(t: Seq<char>, e: int) -> Frac {
    let m = mantissa(t);
    Frac {
        neg: t.len() > 0 && t[0] == '-',
        num: digits_integer(m) * pow10(if e > 0 {
            e as nat
        } else {
            0
        }),
        den: pow10(fraction_len(m)) * pow10(if e < 0 {
            (-e) as nat
        } else {
            0
        }),
    }
}

/// What reading `t` gives: its exact value, or the reason it is not a value.
pub open spec fn read_value(t: Seq<char>) -> Result<Frac, Seq<char>> {
    if not_a_number(t) {
        Err("not a number"@)
    } else {
        match prefix_exponent(suffix(t)) {
            None => Err("unknown SI prefix '"@ + suffix(t) + "'"@),
            Some(e) => Ok(written_value(t, e)),
        }
    }
}

/// What `parse_value` gives for `t`: its exact value, or the error that reports it.
pub open spec fn value_outcome(t: Seq<char>) -> Result<Frac, ErrorView> {
    match read_value(t) {
        Ok(f) => Ok(f),
        Err(message) => Err(ErrorView::InvalidNumber { value: t, message }),
    }
}

proof fn lemma_run_end_step(t: Seq<char>, i: int)
    requires
        0 <= i < t.len(),
        is_number_char(t[i]),
    ensures
        run_end(t, i) == run_end(t, i + 1),
{
}

proof fn lemma_run_end_bounds(t: Seq<char>, i: int)
    requires
        0 <= i <= t.len(),
    ensures
        i <= run_end(t, i) <= t.len(),
    decreases t.len() - i,
{
    if i < t.len() && is_number_char(t[i]) {
        lemma_run_end_bounds(t, i + 1);
    }
}

proof fn lemma_count_points_prefix(s: Seq<char>, k: int)
    requires
        0 <= k <= s.len(),
    ensures
        count_points(s.take(k)) <= count_points(s),
    decreases s.len(),
{
    if k < s.len() {
        assert(s.drop_last().take(k) =~= s.take(k));
        lemma_count_points_prefix(s.drop_last(), k);
    } else {
        assert(s.take(k) =~= s);
    }
}

fn invalid(value: &str, message: &str) -> (r: EecalcError)
    ensures
        r@ == (ErrorView::InvalidNumber { value: value@, message: message@ }),
{
    EecalcError::InvalidNumber { value: value.to_owned(), message: message.to_owned() }
}

/// Parses a decimal number with an optional SI prefix from `p n u m k M`.
pub fn parse_value(token: &str) -> (r: Result<Quantity, EecalcError>)
    ensures
        match r {
            Ok(q) => value_outcome(token@) == Ok::<Frac, ErrorView>(q@),
            Err(e) => value_outcome(token@) == Err::<Frac, ErrorView>(e@),
        },
{
    let t = chars_of(token);
    let n = t.len();
    if n == 0 {
        return Err(invalid(token, "not a number"));
    }
    let start: usize = if t[0] == '+' || t[0] == '-' {
        1
    } else {
        0
    };
    let ghost ts = t@;
    let mut i: usize = start;
    let mut seen_dot = false;
    let mut digits = Natural::zero();
    let mut frac: usize = 0;
    let ten = Natural::from_u64(10);
    proof {
        lemma_run_end_bounds(ts, start as int);
        assert(ts.subrange(start as int, start as int) =~= Seq::<char>::empty());
    }
    while i < n && (('0' <= t[i] && t[i] <= '9') || t[i] == '.')
        invariant
            ts == t@,
            ts == token@,
            n == ts.len(),
            start == sign_len(ts),
            start <= i <= n,
            ten@ == 10,
            run_end(ts, i as int) == mantissa_end(ts),
            count_points(ts.subrange(start as int, i as int)) <= 1,
            seen_dot == (count_points(ts.subrange(start as int, i as int)) == 1),
            digits@ == digits_integer(ts.subrange(start as int, i as int)),
            frac == fraction_len(ts.subrange(start as int, i as int)),
            frac <= i,
        decreases n - i,
    {
        let c = t[i];
        let ghost before = ts.subrange(start as int, i as int);
        let ghost after = ts.subrange(start as int, i + 1);
        assert(after.drop_last() =~= before);
        proof {
            lemma_run_end_step(ts, i as int);
        }
        if c == '.' {
            if seen_dot {
                proof {
                    lemma_run_end_bounds(ts, i + 1);
                    assert(after.last() == '.');
                    assert(count_points(after) == 2);
                    let m = mantissa(ts);
                    assert(m.take(i + 1 - start) =~= after);
                    lemma_count_points_prefix(m, i + 1 - start);
                }
                return Err(invalid(token, "not a number"));
            }
            seen_dot = true;
        } else {
            let d = Natural::from_u64((c as u64) - ('0' as u64));
            digits = digits.mul(&ten).add(&d);
            if seen_dot {
                frac = frac + 1;
            }
        }
        i += 1;
    }
    let end = i;
    proof {
        if end < n {
            assert(!is_number_char(ts[end as int]));
        }
        assert(run_end(ts, end as int) == end);
        assert(mantissa(ts) =~= ts.subrange(start as int, end as int));
    }
    if end == start || (end == start + 1 && t[start] == '.') {
        proof {
            if end == start + 1 {
                assert(mantissa(ts) =~= seq!['.']);
            }
        }
        return Err(invalid(token, "not a number"));
    }
    let slen = n - end;
    proof {
        assert(suffix(ts).len() == slen);
        assert(forall|j: int| 0 <= j < slen ==> suffix(ts)[j] == ts[end + j]);
    }
    let (up, down): (usize, usize) = if slen == 0 {
        (0, 0)
    } else if slen == 1 && t[end] == 'p' {
        (0, 12)
    } else if slen == 1 && t[end] == 'n' {
        (0, 9)
    } else if slen == 1 && t[end] == 'u' {
        (0, 6)
    } else if slen == 1 && t[end] == 'm' {
        (0, 3)
    } else if slen == 1 && t[end] == 'k' {
        (3, 0)
    } else if slen == 1 && t[end] == 'M' {
        (6, 0)
    } else {
        let rest = token.substring_char(end, n);
        let mut message = String::from_str("unknown SI prefix '");
        message.append(rest);
        message.append("'");
        proof {
            reveal_strlit("unknown SI prefix '");
            reveal_strlit("'");
            assert(rest@ =~= suffix(ts));
        }
        return Err(invalid(token, message.as_str()));
    };
    let num = digits.times_pow10(up);
    let den = Natural::from_u64(1).times_pow10(frac).mul(&Natural::from_u64(1).times_pow10(down));
    proof {
        crate::natural::lemma_pow10_positive(frac as nat);
        crate::natural::lemma_pow10_positive(down as nat);
        assert(pow10(frac as nat) * pow10(down as nat) > 0) by (nonlinear_arith)
            requires
                pow10(frac as nat) >= 1,
                pow10(down as nat) >= 1,
        ;
    }
    Ok(Quantity::from_parts(t[0] == '-', num, den))
}

proof fn lemma_run_end_shift(c: char, t: Seq<char>, i: int)
    requires
        0 <= i <= t.len(),
    ensures
        run_end(seq![c] + t, i + 1) == run_end(t, i) + 1,
    decreases t.len() - i,
{
    let u = seq![c] + t;
    if i < t.len() {
        assert(u[i + 1] == t[i]);
        if is_number_char(t[i]) {
            lemma_run_end_shift(c, t, i + 1);
        }
    }
}

/// A leading sign does not change how a value is read: `-` negates it, `+` leaves it.
pub proof fn lemma_leading_sign(c: char, t: Seq<char>)
    requires
        c == '-' || c == '+',
        sign_len(t) == 0,
    ensures
        read_value(seq![c] + t) == match read_value(t) {
            Ok(f) => Ok(Frac { neg: c == '-', ..f }),
            Err(message) => Err(message),
        },
{
    let u = seq![c] + t;
    assert(sign_len(u) == 1);
    lemma_run_end_shift(c, t, 0);
    assert(mantissa_end(u) == mantissa_end(t) + 1);
    lemma_run_end_bounds(t, 0);
    assert(mantissa(u) =~= mantissa(t));
    assert(suffix(u) =~= suffix(t));
    if t.len() == 0 {
        assert(mantissa(t).len() == 0);
    }
}

proof fn lemma_run_end_extend(t: Seq<char>, s: Seq<char>, i: int)
    requires
        0 <= i <= t.len(),
        run_end(t, i) == t.len(),
        s.len() > 0,
        !is_number_char(s[0]),
    ensures
        run_end(t + s, i) == t.len(),
    decreases t.len() - i,
{
    let u = t + s;
    if i < t.len() {
        assert(u[i] == t[i]);
        if is_number_char(t[i]) {
            lemma_run_end_extend(t, s, i + 1);
        }
    } else {
        assert(u[i] == s[0]);
    }
}

/// An SI prefix after a bare number multiplies it by its power of ten: the number's
/// numerator by `10^e` for `k` and `M`, its denominator by `10^-e` for `p n u m`.
pub proof fn lemma_prefix_scales(t: Seq<char>, p: char)
    requires
        !not_a_number(t),
        suffix(t).len() == 0,
        prefix_exponent(seq![p]) is Some,
    ensures
        ({
            let e = prefix_exponent(seq![p])->0;
            let plain = written_value(t, 0);
            &&& read_value(t) == Ok::<Frac, Seq<char>>(plain)
            &&& read_value(t + seq![p]) == Ok::<Frac, Seq<char>>(
                Frac {
                    neg: plain.neg,
                    num: plain.num * pow10(
                        if e > 0 {
                            e as nat
                        } else {
                            0
                        },
                    ),
                    den: plain.den * pow10(
                        if e < 0 {
                            (-e) as nat
                        } else {
                            0
                        },
                    ),
                },
            )
        }),
{
    let u = t + seq![p];
    let e = prefix_exponent(seq![p])->0;
    lemma_run_end_bounds(t, sign_len(t));
    assert(mantissa_end(t) == t.len());
    assert(t.len() > 0);
    assert(u[0] == t[0]);
    assert(sign_len(u) == sign_len(t));
    lemma_run_end_extend(t, seq![p], sign_len(t));
    assert(mantissa_end(u) == t.len());
    assert(mantissa(u) =~= mantissa(t));
    assert(suffix(u) =~= seq![p]);
    assert(suffix(t) =~= Seq::<char>::empty());
    lemma_small_powers();
    let m = mantissa(t);
    let d = digits_integer(m);
    let f = pow10(fraction_len(m));
    assert(d * pow10(0) == d) by (nonlinear_arith)
        requires
            pow10(0) == 1,
    ;
    assert(f * pow10(0) == f) by (nonlinear_arith)
        requires
            pow10(0) == 1,
    ;
}

/// Whether `p / q` is at least ten to the power `t`.
pub open spec fn at_least_pow10(p: nat, q: nat, t: int) -> bool {
    if t >= 0 {
        p >= q * pow10(t as nat)
    } else {
        p * pow10((-t) as nat) >= q
    }
}

/// Whether `t` is the decimal order of magnitude of `p / q`: `10^t <= p / q < 10^(t+1)`.
pub open spec fn is_magnitude(p: nat, q: nat, t: int) -> bool {
    at_least_pow10(p, q, t) && !at_least_pow10(p, q, t + 1)
}

/// The decimal order of magnitude of `p / q`, that is the floor of its logarithm to base ten.
pub open spec fn magnitude(p: nat, q: nat) -> int {
    choose|t: int| is_magnitude(p, q, t)
}

/// `p / q` scaled so that its order of magnitude is three: the numerator.
pub open spec fn scaled_num(p: nat, t: int) -> nat {
    if t <= 3 {
        p * pow10((3 - t) as nat)
    } else {
        p
    }
}

/// `p / q` scaled so that its order of magnitude is three: the denominator.
pub open spec fn scaled_den(q: nat, t: int) -> nat {
    if t <= 3 {
        q
    } else {
        q * pow10((t - 3) as nat)
    }
}

/// `p / q` of magnitude `t` rounded, half away from zero, to an integer of four digits.
pub open spec fn rounded_four(p: nat, q: nat, t: int) -> nat {
    (2 * scaled_num(p, t) + scaled_den(q, t)) / (2 * scaled_den(q, t))
}

proof fn lemma_at_least_step(p: nat, q: nat, t: int)
    requires
        at_least_pow10(p, q, t + 1),
    ensures
        at_least_pow10(p, q, t),
{
    if t >= 0 {
        let a = pow10(t as nat);
        assert(pow10((t + 1) as nat) == 10 * a);
        assert(q * (10 * a) >= q * a) by (nonlinear_arith);
    } else if t == -1 {
        assert(pow10(0) == 1);
        assert(pow10(1) == 10 * pow10(0));
        assert(q * pow10(0) == q) by (nonlinear_arith)
            requires
                pow10(0) == 1,
        ;
        assert(p >= q);
        assert(p * pow10(1) == p * 10);
    } else {
        let a = pow10((-t - 1) as nat);
        assert(pow10((-t) as nat) == 10 * a);
        assert(p * (10 * a) >= p * a) by (nonlinear_arith);
    }
}

proof fn lemma_at_least_antitone(p: nat, q: nat, a: int, b: int)
    requires
        a <= b,
        at_least_pow10(p, q, b),
    ensures
        at_least_pow10(p, q, a),
    decreases b - a,
{
    if a < b {
        lemma_at_least_step(p, q, b - 1);
        lemma_at_least_antitone(p, q, a, b - 1);
    }
}

/// A number has one order of magnitude only.
pub proof fn lemma_magnitude_unique(p: nat, q: nat, t1: int, t2: int)
    requires
        is_magnitude(p, q, t1),
        is_magnitude(p, q, t2),
    ensures
        t1 == t2,
{
    if t1 < t2 {
        lemma_at_least_antitone(p, q, t1 + 1, t2);
    } else if t2 < t1 {
        lemma_at_least_antitone(p, q, t2 + 1, t1);
    }
}

pub proof fn lemma_magnitude_is(p: nat, q: nat, t: int)
    requires
        is_magnitude(p, q, t),
    ensures
        magnitude(p, q) == t,
{
    lemma_magnitude_unique(p, q, magnitude(p, q), t);
}

/// The order of magnitude of `p / q`, found from the digit counts of `p` and `q`.
fn order_of_magnitude(p: &Natural, q: &Natural) -> (t: i128)
    requires
        p@ > 0,
        q@ > 0,
    ensures
        is_magnitude(p@, q@, t as int),
        t == magnitude(p@, q@),
        -(usize::MAX as int) <= t <= usize::MAX as int,
{
    let lp = p.sig_len();
    let lq = q.sig_len();
    let tc: i128 = lp as i128 - lq as i128;
    let reached: bool = if tc >= 0 {
        !p.less_than(&q.times_pow10(tc as usize))
    } else {
        !p.times_pow10((lq - lp) as usize).less_than(q)
    };
    proof {
        lemma_magnitude_near(p@, q@, lp as nat, lq as nat);
        if tc < 0 {
            assert((lq - lp) as nat == (-tc) as nat);
        }
        assert(reached == at_least_pow10(p@, q@, tc as int));
    }
    let t = if reached {
        tc
    } else {
        tc - 1
    };
    proof {
        lemma_magnitude_is(p@, q@, t as int);
    }
    t
}

proof fn lemma_small_powers()
    ensures
        pow10(0) == 1,
        pow10(1) == 10,
        pow10(2) == 100,
        pow10(3) == 1000,
        pow10(4) == 10000,
        pow10(5) == 100000,
{
    assert(pow10(0) == 1);
    assert(pow10(1) == 10);
    assert(pow10(2) == 100);
    assert(pow10(3) == 1000);
    assert(pow10(4) == 10000);
    assert(pow10(5) == 100000);
}

/// Scaled to magnitude three, a number of magnitude `t` lies in `[1000, 10000)`.
proof fn lemma_scaled_bounds(p: nat, q: nat, t: int)
    requires
        q > 0,
        is_magnitude(p, q, t),
    ensures
        scaled_den(q, t) > 0,
        1000 * scaled_den(q, t) <= scaled_num(p, t) < 10000 * scaled_den(q, t),
{
    lemma_small_powers();
    let pn = scaled_num(p, t);
    let qd = scaled_den(q, t);
    if 0 <= t <= 3 {
        let a = pow10(t as nat);
        let b = pow10((3 - t) as nat);
        crate::natural::lemma_pow10_adds(t as nat, (3 - t) as nat);
        crate::natural::lemma_pow10_adds((t + 1) as nat, (3 - t) as nat);
        assert(t + 1 + (3 - t) == 4);
        let a1 = pow10((t + 1) as nat);
        assert(a * b == 1000);
        assert(a1 * b == 10000);
        assert(pn == p * b);
        assert(p * b >= q * a * b && p * b < q * a1 * b) by (nonlinear_arith)
            requires
                p >= q * a,
                p < q * a1,
                b >= 1,
        ;
        assert(q * a * b == q * (a * b)) by (nonlinear_arith);
        assert(q * a1 * b == q * (a1 * b)) by (nonlinear_arith);
        assert(1000 * qd <= pn < 10000 * qd);
    } else if t < 0 {
        let k = (-t) as nat;
        let c = pow10(k);
        crate::natural::lemma_pow10_adds(k, 3);
        assert((3 - t) as nat == k + 3);
        assert(pn == p * (c * 1000));
        assert(p * c >= q);
        assert(p * (c * 1000) == (p * c) * 1000) by (nonlinear_arith);
        if t + 1 < 0 {
            let k1 = (-(t + 1)) as nat;
            crate::natural::lemma_pow10_adds(k1, 4);
            assert(k1 + 4 == k + 3);
            let c1 = pow10(k1);
            assert(p * c1 < q);
            assert(p * (c1 * 10000) == (p * c1) * 10000) by (nonlinear_arith);
            assert(c1 * 10000 == c * 1000);
            assert(1000 * qd <= pn < 10000 * qd);
        } else {
            assert(t == -1);
            assert(q * pow10(0) == q) by (nonlinear_arith)
                requires
                    pow10(0) == 1,
            ;
            assert(p < q);
            assert(c == 10);
            assert(1000 * q <= p * (c * 1000) < 10000 * q) by (nonlinear_arith)
                requires
                    c == 10,
                    p * c >= q,
                    p < q,
            ;
            assert(1000 * qd <= pn < 10000 * qd);
        }
    } else {
        let k = (t - 3) as nat;
        let c = pow10(k);
        crate::natural::lemma_pow10_adds(k, 3);
        crate::natural::lemma_pow10_adds(k, 4);
        assert(k + 3 == t);
        assert(k + 4 == t + 1);
        assert(qd == q * c);
        assert(q * (c * 1000) == (q * c) * 1000) by (nonlinear_arith);
        assert(q * (c * 10000) == (q * c) * 10000) by (nonlinear_arith);
        assert(1000 * qd <= pn < 10000 * qd);
    }
    if t <= 3 {
        assert(qd == q);
    } else {
        crate::natural::lemma_pow10_positive((t - 3) as nat);
        assert(q * pow10((t - 3) as nat) > 0) by (nonlinear_arith)
            requires
                q > 0,
                pow10((t - 3) as nat) > 0,
        ;
    }
}

/// `p / q`, of magnitude `t`, rounded half away from zero to four significant digits.
fn round_sig(p: &Natural, q: &Natural, t: i128) -> (r: u64)
    requires
        q@ > 0,
        is_magnitude(p@, q@, t as int),
        -(usize::MAX as int) <= t <= usize::MAX as int,
    ensures
        r == rounded_four(p@, q@, t as int),
        1000 <= r <= 10000,
{
    let scaled_p: Natural;
    let scaled_q: Natural;
    if t <= 0 {
        scaled_p = p.times_pow10((-t) as usize).times_pow10(3);
        scaled_q = q.clone();
        proof {
            crate::natural::lemma_pow10_adds((-t) as nat, 3);
            assert((3 - t) as nat == (-t) as nat + 3);
            assert(p@ * pow10((-t) as nat) * pow10(3) == p@ * (pow10((-t) as nat) * pow10(3)))
                by (nonlinear_arith);
        }
    } else if t <= 3 {
        scaled_p = p.times_pow10((3 - t) as usize);
        scaled_q = q.clone();
    } else {
        scaled_p = p.clone();
        scaled_q = q.times_pow10((t - 3) as usize);
    }
    let ghost pn = scaled_num(p@, t as int);
    let ghost qd = scaled_den(q@, t as int);
    assert(scaled_p@ == pn);
    assert(scaled_q@ == qd);
    proof {
        lemma_scaled_bounds(p@, q@, t as int);
    }
    let twice_p = scaled_p.add(&scaled_p);
    let numerator = twice_p.add(&scaled_q);
    let denominator = scaled_q.add(&scaled_q);
    proof {
        assert(2 * pn + qd < 2 * qd * 10001) by (nonlinear_arith)
            requires
                pn < 10000 * qd,
                qd > 0,
        ;
    }
    let (n, rest) = numerator.div_rem_bounded(&denominator, 10001);
    proof {
        vstd::arithmetic::div_mod::lemma_fundamental_div_mod_converse(
            (2 * pn + qd) as int,
            (2 * qd) as int,
            n as int,
            rest@ as int,
        );
        assert(n >= 1000) by (nonlinear_arith)
            requires
                2 * pn + qd == n * (2 * qd) + rest@,
                rest@ < 2 * qd,
                1000 * qd <= pn,
                qd > 0,
        ;
    }
    n
}

/// The decimal digits of `n`, without leading zeros.
pub open spec fn nat_text(n: nat) -> Seq<char>
    decreases n,
{
    if n < 10 {
        seq![digit_char(n)]
    } else {
        nat_text(n / 10) + seq![digit_char(n % 10)]
    }
}

/// The lowest `w` decimal digits of `n`, with leading zeros.
pub open spec fn padded_text(n: nat, w: nat) -> Seq<char>
    decreases w,
{
    if w == 0 {
        Seq::empty()
    } else {
        padded_text(n / 10, (w - 1) as nat) + seq![digit_char(n % 10)]
    }
}

pub open spec fn zeros(k: nat) -> Seq<char> {
    Seq::new(k, |i: int| '0')
}

/// `n / 10^d` written with exactly `d` decimals.
pub open spec fn fixed_text(n: nat, d: nat) -> Seq<char> {
    if d == 0 {
        nat_text(n)
    } else {
        nat_text(n / pow10(d)) + seq!['.'] + padded_text(n % pow10(d), d)
    }
}

/// `s` without the copies of `c` at its end.
pub open spec fn strip_end(s: Seq<char>, c: char) -> Seq<char>
    decreases s.len(),
{
    if s.len() > 0 && s.last() == c {
        strip_end(s.drop_last(), c)
    } else {
        s
    }
}

/// A decimal text without the zeros after its point, nor a bare point.
pub open spec fn trimmed(s: Seq<char>) -> Seq<char> {
    if s.contains('.') {
        strip_end(strip_end(s, '0'), '.')
    } else {
        s
    }
}

/// The text of `n * 10^-d`, with `d` decimals when `d` is positive, then trimmed.
pub open spec fn mantissa_text(n: nat, d: int) -> Seq<char> {
    if d > 0 {
        trimmed(fixed_text(n, d as nat))
    } else {
        trimmed(fixed_text(n * pow10((-d) as nat), 0))
    }
}

/// The multiple of three at or below `t`, kept within the prefixes from pico to mega.
pub open spec fn eng_exponent(t: int) -> int {
    let e = 3 * (t / 3);
    if e < -12 {
        -12
    } else if e > 6 {
        6
    } else {
        e
    }
}

/// The SI prefix of the power of ten `e`.
pub open spec fn prefix_text(e: int) -> Seq<char> {
    if e == -12 {
        seq!['p']
    } else if e == -9 {
        seq!['n']
    } else if e == -6 {
        seq!['u']
    } else if e == -3 {
        seq!['m']
    } else if e == 3 {
        seq!['k']
    } else if e == 6 {
        seq!['M']
    } else {
        Seq::empty()
    }
}

/// A number in engineering notation: four significant figures, trailing zeros trimmed,
/// a prefix from `p n u m (none) k M`, then the unit.
pub open spec fn eng_text(x: Frac, unit: Seq<char>) -> Seq<char> {
    if x.num == 0 {
        seq!['0', ' '] + unit
    } else {
        let t0 = magnitude(x.num, x.den);
        let n0 = rounded_four(x.num, x.den, t0);
        let n = if n0 >= 10000 {
            n0 / 10
        } else {
            n0
        };
        let t = if n0 >= 10000 {
            t0 + 1
        } else {
            t0
        };
        let e = eng_exponent(t);
        (if x.neg {
            seq!['-']
        } else {
            Seq::empty()
        }) + mantissa_text(n, 3 - (t - e)) + seq![' '] + prefix_text(e) + unit
    }
}

proof fn lemma_zeros_push(k: nat)
    ensures
        zeros(k + 1) == zeros(k) + seq!['0'],
{
    assert(zeros(k + 1) =~= zeros(k) + seq!['0']);
}

proof fn lemma_nat_text_shift(n: nat, k: nat)
    requires
        n >= 1,
    ensures
        nat_text(n * pow10(k)) == nat_text(n) + zeros(k),
    decreases k,
{
    if k == 0 {
        assert(pow10(0) == 1);
        assert(n * pow10(0) == n) by (nonlinear_arith)
            requires
                pow10(0) == 1,
        ;
        assert(nat_text(n) + zeros(0) =~= nat_text(n));
    } else {
        let k1 = (k - 1) as nat;
        lemma_nat_text_shift(n, k1);
        let m = n * pow10(k1);
        crate::natural::lemma_pow10_positive(k1);
        assert(m >= 1) by (nonlinear_arith)
            requires
                n >= 1,
                pow10(k1) >= 1,
                m == n * pow10(k1),
        ;
        assert(n * pow10(k) == m * 10) by (nonlinear_arith)
            requires
                pow10(k) == 10 * pow10(k1),
                m == n * pow10(k1),
        ;
        assert((m * 10) / 10 == m);
        assert((m * 10) % 10 == 0);
        assert(nat_text(m * 10) == nat_text(m) + seq![digit_char(0)]);
        lemma_zeros_push(k1);
        assert(nat_text(n) + zeros(k1) + seq!['0'] =~= nat_text(n) + zeros(k));
    }
}

proof fn lemma_padded_zero(w: nat)
    ensures
        padded_text(0, w) == zeros(w),
    decreases w,
{
    if w > 0 {
        lemma_padded_zero((w - 1) as nat);
        lemma_zeros_push((w - 1) as nat);
    } else {
        assert(padded_text(0, 0) =~= zeros(0));
    }
}

proof fn lemma_padded_wide(n: nat, w: nat, k: nat)
    requires
        n < pow10(k),
        w >= k,
    ensures
        padded_text(n, w) == zeros((w - k) as nat) + padded_text(n, k),
    decreases k,
{
    if k == 0 {
        assert(n == 0);
        lemma_padded_zero(w);
        assert(zeros(w) + padded_text(0, 0) =~= zeros(w));
    } else {
        let k1 = (k - 1) as nat;
        let w1 = (w - 1) as nat;
        assert(n / 10 < pow10(k1)) by (nonlinear_arith)
            requires
                n < pow10(k),
                pow10(k) == 10 * pow10(k1),
        ;
        lemma_padded_wide(n / 10, w1, k1);
        assert(w1 - k1 == w - k);
        assert(zeros((w - k) as nat) + padded_text(n / 10, k1) + seq![digit_char(n % 10)]
            =~= zeros((w - k) as nat) + (padded_text(n / 10, k1) + seq![digit_char(n % 10)]));
    }
}

/// Appends the decimal digits of `n`.
fn write_nat(out: &mut String, n: u64)
    ensures
        final(out)@ == old(out)@ + nat_text(n as nat),
    decreases n,
{
    if n >= 10 {
        write_nat(out, n / 10);
    }
    out.append(digit_text((n % 10) as u8));
    proof {
        if n >= 10 {
            assert(old(out)@ + nat_text((n / 10) as nat) + seq![digit_char((n % 10) as nat)]
                =~= old(out)@ + nat_text(n as nat));
        } else {
            assert(n % 10 == n);
        }
    }
}

/// Appends the lowest `w` decimal digits of `n`, with leading zeros.
fn write_padded(out: &mut String, n: u64, w: usize)
    ensures
        final(out)@ == old(out)@ + padded_text(n as nat, w as nat),
    decreases w,
{
    if w > 0 {
        write_padded(out, n / 10, w - 1);
        out.append(digit_text((n % 10) as u8));
        proof {
            assert(old(out)@ + padded_text((n / 10) as nat, (w - 1) as nat) + seq![digit_char(
                (n % 10) as nat,
            )] =~= old(out)@ + padded_text(n as nat, w as nat));
        }
    } else {
        assert(old(out)@ + padded_text(n as nat, 0) =~= old(out)@);
    }
}

/// Appends `k` zeros.
fn write_zeros(out: &mut String, k: usize)
    ensures
        final(out)@ == old(out)@ + zeros(k as nat),
{
    let ghost start = out@;
    let mut i: usize = 0;
    proof {
        reveal_strlit("0");
    }
    assert(start + zeros(0) =~= start);
    while i < k
        invariant
            i <= k,
            out@ == start + zeros(i as nat),
        decreases k - i,
    {
        out.append("0");
        proof {
            reveal_strlit("0");
            lemma_zeros_push(i as nat);
            assert(start + zeros(i as nat) + "0"@ =~= start + zeros((i + 1) as nat));
        }
        i += 1;
    }
}

/// Removes the zeros after the point of a decimal text, then a bare point.
pub fn trim_trailing_zeros(s: &str) -> (r: String)
    ensures
        r@ == trimmed(s@),
{
    let cs = chars_of(s);
    let n = cs.len();
    let mut has_point = false;
    let mut i: usize = 0;
    while i < n
        invariant
            cs@ == s@,
            n == cs@.len(),
            i <= n,
            has_point <==> exists|j: int| 0 <= j < i && cs@[j] == '.',
        decreases n - i,
    {
        if cs[i] == '.' {
            has_point = true;
        }
        i += 1;
    }
    if !has_point {
        proof {
            assert(!s@.contains('.'));
        }
        return s.to_owned();
    }
    proof {
        let j = choose|j: int| 0 <= j < n && cs@[j] == '.';
        assert(s@.contains('.'));
    }
    let ghost full = cs@;
    let mut k: usize = n;
    assert(full.take(n as int) =~= full);
    while k > 0 && cs[k - 1] == '0'
        invariant
            cs@ == full,
            k <= n == full.len(),
            strip_end(full.take(k as int), '0') == strip_end(full, '0'),
        decreases k,
    {
        assert(full.take(k as int).drop_last() =~= full.take(k - 1));
        k -= 1;
    }
    let ghost no_zeros = full.take(k as int);
    assert(strip_end(no_zeros, '0') == no_zeros);
    let mut j: usize = k;
    assert(no_zeros.take(k as int) =~= no_zeros);
    while j > 0 && cs[j - 1] == '.'
        invariant
            cs@ == full,
            j <= k <= n == full.len(),
            no_zeros == full.take(k as int),
            strip_end(no_zeros.take(j as int), '.') == strip_end(no_zeros, '.'),
        decreases j,
    {
        assert(no_zeros.take(j as int).drop_last() =~= no_zeros.take(j - 1));
        j -= 1;
    }
    assert(strip_end(no_zeros.take(j as int), '.') == no_zeros.take(j as int));
    let kept = s.substring_char(0, j);
    assert(kept@ =~= no_zeros.take(j as int));
    kept.to_owned()
}

/// The SI prefix for the power of ten `e`.
fn prefix_str(e: i128) -> (r: &'static str)
    ensures
        r@ == prefix_text(e as int),
{
    proof {
        reveal_strlit("p");
        reveal_strlit("n");
        reveal_strlit("u");
        reveal_strlit("m");
        reveal_strlit("k");
        reveal_strlit("M");
        reveal_strlit("");
    }
    if e == -12 {
        "p"
    } else if e == -9 {
        "n"
    } else if e == -6 {
        "u"
    } else if e == -3 {
        "m"
    } else if e == 3 {
        "k"
    } else if e == 6 {
        "M"
    } else {
        ""
    }
}

/// The engineering exponent for a number of magnitude `t`.
fn eng_exponent_of(t: i128) -> (e: i128)
    ensures
        e == eng_exponent(t as int),
        -12 <= e <= 6,
{
    proof {
        vstd::arithmetic::div_mod::lemma_fundamental_div_mod(t as int, 3);
        vstd::arithmetic::div_mod::lemma_mod_bound(t as int, 3);
    }
    if t >= 6 {
        6
    } else if t < -12 {
        -12
    } else {
        let shifted: u64 = (t + 12) as u64;
        let third: u64 = shifted / 3;
        proof {
            let r = (shifted % 3) as int;
            assert(shifted == 3 * third + r);
            vstd::arithmetic::div_mod::lemma_fundamental_div_mod_converse(
                t as int,
                3,
                third - 4,
                r,
            );
        }
        (third * 3) as i128 - 12
    }
}

/// The text of the mantissa `n * 10^-d`, trimmed.
fn format_mantissa(n: u64, d: i128) -> (r: String)
    requires
        1000 <= n <= 9999,
        -(usize::MAX as int) <= d <= usize::MAX as int,
    ensures
        r@ == mantissa_text(n as nat, d as int),
{
    let mut raw = String::new();
    proof {
        reveal_strlit(".");
        lemma_small_powers();
    }
    if d > 0 {
        if d <= 4 {
            let pw: u64 = if d == 1 {
                10
            } else if d == 2 {
                100
            } else if d == 3 {
                1000
            } else {
                10000
            };
            assert(pw == pow10(d as nat));
            write_nat(&mut raw, n / pw);
            raw.append(".");
            write_padded(&mut raw, n % pw, d as usize);
            assert(raw@ =~= fixed_text(n as nat, d as nat));
        } else {
            write_nat(&mut raw, 0);
            raw.append(".");
            write_zeros(&mut raw, (d - 5) as usize);
            write_padded(&mut raw, n, 5);
            proof {
                let k = d as nat;
                crate::natural::lemma_pow10_monotone(5, k);
                vstd::arithmetic::div_mod::lemma_fundamental_div_mod_converse(
                    n as int,
                    pow10(k) as int,
                    0,
                    n as int,
                );
                lemma_padded_wide(n as nat, k, 5);
                assert(raw@ =~= fixed_text(n as nat, k));
            }
        }
    } else {
        write_nat(&mut raw, n);
        write_zeros(&mut raw, (-d) as usize);
        proof {
            lemma_nat_text_shift(n as nat, (-d) as nat);
            assert(raw@ =~= fixed_text(n as nat * pow10((-d) as nat), 0));
        }
    }
    assert(d > 0 ==> raw@ == fixed_text(n as nat, d as nat));
    assert(d <= 0 ==> raw@ == fixed_text(n as nat * pow10((-d) as nat), 0));
    trim_trailing_zeros(raw.as_str())
}

/// Formats `value` in engineering notation with four significant figures.
pub fn format_eng(value: &Quantity, unit: &str) -> (r: String)
    ensures
        r@ == eng_text(value@, unit@),
{
    let mut out = String::new();
    if value.is_zero() {
        proof {
            reveal_strlit("0 ");
        }
        out.append("0 ");
        out.append(unit);
        return out;
    }
    let p = value.numerator();
    let q = value.denominator();
    let t0 = order_of_magnitude(p, q);
    let n0 = round_sig(p, q, t0);
    let (n, t): (u64, i128) = if n0 >= 10000 {
        (n0 / 10, t0 + 1)
    } else {
        (n0, t0)
    };
    let e = eng_exponent_of(t);
    proof {
        reveal_strlit("-");
        reveal_strlit(" ");
    }
    if value.is_negative() {
        out.append("-");
    }
    let m = format_mantissa(n, 3 - (t - e));
    out.append(m.as_str());
    out.append(" ");
    out.append(prefix_str(e));
    out.append(unit);
    proof {
        let sign: Seq<char> = if value@.neg {
            seq!['-']
        } else {
            Seq::empty()
        };
        assert(out@ =~= sign + mantissa_text(n as nat, 3 - (t - e)) + seq![' '] + prefix_text(
            e as int,
        ) + unit@);
    }
    out
}

/// The four digits that engineering notation shows are the value rounded to nearest:
/// scaled to magnitude three, `p / q` lies within half a unit of them.
pub proof fn lemma_rounded_to_nearest(p: nat, q: nat)
    requires
        p > 0,
        q > 0,
    ensures
        ({
            let t = magnitude(p, q);
            let n = rounded_four(p, q, t);
            let sp = scaled_num(p, t);
            let sq = scaled_den(q, t);
            &&& 1000 <= n <= 10000
            &&& 2 * n * sq <= 2 * sp + sq
            &&& 2 * sp + sq < 2 * n * sq + 2 * sq
        }),
{
    lemma_magnitude_exists(p, q);
    let t = magnitude(p, q);
    lemma_scaled_bounds(p, q, t);
    let sp = scaled_num(p, t);
    let sq = scaled_den(q, t);
    let n = rounded_four(p, q, t);
    let a = 2 * sp + sq;
    let b = 2 * sq;
    vstd::arithmetic::div_mod::lemma_fundamental_div_mod(a as int, b as int);
    vstd::arithmetic::div_mod::lemma_mod_bound(a as int, b as int);
    assert(n == a / b);
    assert(2 * n * sq == n * b) by (nonlinear_arith)
        requires
            b == 2 * sq,
    ;
    assert(1000 <= n <= 10000) by (nonlinear_arith)
        requires
            a == b * n + a % b,
            0 <= a % b < b,
            b == 2 * sq,
            a == 2 * sp + sq,
            1000 * sq <= sp < 10000 * sq,
            sq > 0,
    ;
}

/// Every positive fraction has an order of magnitude.
pub proof fn lemma_magnitude_exists(p: nat, q: nat)
    requires
        p > 0,
        q > 0,
    ensures
        is_magnitude(p, q, magnitude(p, q)),
{
    let t = magnitude_witness(p, q);
    assert(is_magnitude(p, q, t));
}

/// The order of magnitude of `p / q`, found as the code finds it.
proof fn magnitude_witness(p: nat, q: nat) -> (t: int)
    requires
        p > 0,
        q > 0,
    ensures
        is_magnitude(p, q, t),
{
    let lp = digit_count(p);
    let lq = digit_count(q);
    lemma_digit_count(p);
    lemma_digit_count(q);
    let tc = lp - lq;
    lemma_magnitude_near(p, q, lp, lq);
    if at_least_pow10(p, q, tc) {
        tc
    } else {
        tc - 1
    }
}

/// The count of decimal digits of `n`.
pub open spec fn digit_count(n: nat) -> nat
    decreases n,
{
    if n < 10 {
        1
    } else {
        1 + digit_count(n / 10)
    }
}

proof fn lemma_digit_count(n: nat)
    requires
        n > 0,
    ensures
        digit_count(n) >= 1,
        pow10((digit_count(n) - 1) as nat) <= n < pow10(digit_count(n)),
    decreases n,
{
    lemma_small_powers();
    if n >= 10 {
        let m = n / 10;
        lemma_digit_count(m);
        let k = digit_count(m);
        assert(digit_count(n) == k + 1);
        assert(pow10(k) == 10 * pow10((k - 1) as nat));
        assert(pow10((k + 1) as nat) == 10 * pow10(k));
        assert(10 * pow10((k - 1) as nat) <= n < 10 * pow10(k)) by (nonlinear_arith)
            requires
                pow10((k - 1) as nat) <= m < pow10(k),
                m == n / 10,
                n >= 10,
        ;
    }
}

/// From the digit counts `lp` and `lq` of `p` and `q`, the magnitude of `p / q` is
/// `lp - lq` or one less.
proof fn lemma_magnitude_near(p: nat, q: nat, lp: nat, lq: nat)
    requires
        lp >= 1,
        lq >= 1,
        pow10((lp - 1) as nat) <= p < pow10(lp),
        pow10((lq - 1) as nat) <= q < pow10(lq),
    ensures
        !at_least_pow10(p, q, lp - lq + 1),
        at_least_pow10(p, q, lp - lq - 1),
{
    let tc = lp - lq;
    let a = (lp - 1) as nat;
    let b = (lq - 1) as nat;
    crate::natural::lemma_pow10_adds(a, 1);
    crate::natural::lemma_pow10_adds(b, 1);
    assert(pow10(lp) == pow10(a) * pow10(1));
    assert(pow10(1) == 10 * pow10(0));
    if tc + 1 >= 0 {
        let k = (tc + 1) as nat;
        crate::natural::lemma_pow10_adds(b, k);
        assert(q * pow10(k) >= pow10(b) * pow10(k)) by (nonlinear_arith)
            requires
                q >= pow10(b),
        ;
    } else {
        let k = (-(tc + 1)) as nat;
        crate::natural::lemma_pow10_adds(lp, k);
        crate::natural::lemma_pow10_positive(k);
        assert(p * pow10(k) < pow10(lp) * pow10(k)) by (nonlinear_arith)
            requires
                p < pow10(lp),
                pow10(k) > 0,
        ;
    }
    if tc - 1 >= 0 {
        let k = (tc - 1) as nat;
        crate::natural::lemma_pow10_adds(lq, k);
        crate::natural::lemma_pow10_positive(k);
        assert(q * pow10(k) < pow10(lq) * pow10(k)) by (nonlinear_arith)
            requires
                q < pow10(lq),
                pow10(k) > 0,
        ;
    } else {
        let k = (-(tc - 1)) as nat;
        crate::natural::lemma_pow10_adds(a, k);
        assert(p * pow10(k) >= pow10(a) * pow10(k)) by (nonlinear_arith)
            requires
                p >= pow10(a),
        ;
    }
}

/// A negative number is written as its magnitude with a minus sign in front; zero never has one.
pub proof fn lemma_eng_text_sign(x: Frac, unit: Seq<char>)
    ensures
        x.num > 0 ==> eng_text(x, unit) == (if x.neg {
            seq!['-']
        } else {
            Seq::empty()
        }) + eng_text(Frac { neg: false, ..x }, unit),
        x.num == 0 ==> eng_text(x, unit) == seq!['0', ' '] + unit,
{
    if x.num > 0 && x.neg {
        let y = Frac { neg: false, ..x };
        assert(eng_text(x, unit) =~= seq!['-'] + eng_text(y, unit));
    } else if x.num > 0 {
        assert(eng_text(x, unit) =~= Seq::<char>::empty() + eng_text(x, unit));
        assert(Frac { neg: false, ..x } == x);
    }
}

/// The prefix is a multiple of three between pico and mega, chosen so that the mantissa
/// has one to three digits before its point whenever such a prefix exists.
pub proof fn lemma_eng_exponent_range(t: int)
    ensures
        eng_exponent(t) % 3 == 0,
        -12 <= eng_exponent(t) <= 6,
        -12 <= t < 9 ==> 0 <= t - eng_exponent(t) <= 2,
        t < -12 ==> eng_exponent(t) == -12,
        t >= 9 ==> eng_exponent(t) == 6,
        prefix_text(eng_exponent(t)).len() <= 1,
{
    vstd::arithmetic::div_mod::lemma_fundamental_div_mod(t, 3);
    vstd::arithmetic::div_mod::lemma_mod_bound(t, 3);
    let e = eng_exponent(t);
    if -12 <= 3 * (t / 3) <= 6 {
        assert(e == 3 * (t / 3));
        vstd::arithmetic::div_mod::lemma_mod_multiples_basic(t / 3, 3);
        assert((t / 3) * 3 == 3 * (t / 3));
    }
}

/// Every character of `t` is a decimal digit.
spec fn plain_digits(t: Seq<char>) -> bool {
    forall|i: int| 0 <= i < t.len() ==> #[trigger] is_digit(t[i])
}

proof fn lemma_digit_char(d: nat)
    requires
        d < 10,
    ensures
        is_digit(digit_char(d)),
        digit_of(digit_char(d)) == d,
{
}

/// Digits written after a text shift its integer left and lengthen its fraction.
proof fn lemma_append_digits(s: Seq<char>, t: Seq<char>)
    requires
        plain_digits(t),
    ensures
        digits_integer(s + t) == digits_integer(s) * pow10(t.len()) + digits_integer(t),
        count_points(s + t) == count_points(s),
        fraction_len(s + t) == (if count_points(s) > 0 {
            fraction_len(s) + t.len()
        } else {
            0
        }),
    decreases t.len(),
{
    if t.len() == 0 {
        assert(s + t =~= s);
        assert(digits_integer(s) * pow10(0) == digits_integer(s)) by (nonlinear_arith)
            requires
                pow10(0) == 1,
        ;
    } else {
        let t1 = t.drop_last();
        let x = t.last();
        assert(is_digit(t[t.len() - 1]));
        assert forall|i: int| 0 <= i < t1.len() implies #[trigger] is_digit(t1[i]) by {
            assert(t1[i] == t[i]);
        }
        lemma_append_digits(s, t1);
        assert((s + t).drop_last() =~= s + t1);
        assert((s + t).last() == x);
        let a = digits_integer(s);
        let p = pow10(t1.len());
        let b = digits_integer(t1);
        assert(digits_integer(s + t) == (a * p + b) * 10 + digit_of(x));
        assert(digits_integer(t) == b * 10 + digit_of(x));
        assert(pow10(t.len()) == 10 * p);
        assert((a * p + b) * 10 + digit_of(x) == a * (10 * p) + (b * 10 + digit_of(x)))
            by (nonlinear_arith);
    }
}

/// A text of digits alone has no point and no fraction.
proof fn lemma_plain_digits(t: Seq<char>)
    requires
        plain_digits(t),
    ensures
        count_points(t) == 0,
        fraction_len(t) == 0,
{
    lemma_append_digits(Seq::empty(), t);
    assert(Seq::<char>::empty() + t =~= t);
}

/// `nat_text(n)` is a nonempty run of digits that reads as `n`.
proof fn lemma_nat_text_reads(n: nat)
    ensures
        plain_digits(nat_text(n)),
        nat_text(n).len() > 0,
        digits_integer(nat_text(n)) == n,
    decreases n,
{
    if n < 10 {
        lemma_digit_char(n);
        let t = nat_text(n);
        assert(t.drop_last() =~= Seq::<char>::empty());
        assert(t.last() == digit_char(n));
        assert(digits_integer(Seq::<char>::empty()) == 0);
    } else {
        lemma_nat_text_reads(n / 10);
        let a = nat_text(n / 10);
        let c = seq![digit_char(n % 10)];
        lemma_digit_char(n % 10);
        assert(c.drop_last() =~= Seq::<char>::empty());
        assert(c.last() == digit_char(n % 10));
        assert(digits_integer(Seq::<char>::empty()) == 0);
        assert(digits_integer(c) == n % 10);
        assert forall|i: int| 0 <= i < (a + c).len() implies #[trigger] is_digit((a + c)[i]) by {
            if i < a.len() {
                assert((a + c)[i] == a[i]);
            } else {
                assert((a + c)[i] == c[0]);
            }
        }
        lemma_append_digits(a, c);
        lemma_small_powers();
    }
}

/// `padded_text(n, w)` is `w` digits that read as `n % 10^w`.
proof fn lemma_padded_reads(n: nat, w: nat)
    ensures
        plain_digits(padded_text(n, w)),
        padded_text(n, w).len() == w,
        digits_integer(padded_text(n, w)) == n % pow10(w),
    decreases w,
{
    if w == 0 {
        assert(pow10(0) == 1);
    } else {
        let w1 = (w - 1) as nat;
        lemma_padded_reads(n / 10, w1);
        let a = padded_text(n / 10, w1);
        let c = seq![digit_char(n % 10)];
        lemma_digit_char(n % 10);
        assert(c.drop_last() =~= Seq::<char>::empty());
        assert(c.last() == digit_char(n % 10));
        assert(digits_integer(Seq::<char>::empty()) == 0);
        assert(digits_integer(c) == n % 10);
        assert forall|i: int| 0 <= i < (a + c).len() implies #[trigger] is_digit((a + c)[i]) by {
            if i < a.len() {
                assert((a + c)[i] == a[i]);
            } else {
                assert((a + c)[i] == c[0]);
            }
        }
        lemma_append_digits(a, c);
        lemma_small_powers();
        crate::natural::lemma_pow10_positive(w1);
        vstd::arithmetic::div_mod::lemma_breakdown(n as int, 10, pow10(w1) as int);
        assert(pow10(w) == 10 * pow10(w1));
    }
}

/// Every character of `t` is a digit or a point.
spec fn number_chars(t: Seq<char>) -> bool {
    forall|i: int| 0 <= i < t.len() ==> #[trigger] is_number_char(t[i])
}

/// `fixed_text(n, d)` with `d > 0` reads as `n` with `d` digits after its one point.
proof fn lemma_fixed_reads(n: nat, d: nat)
    requires
        d > 0,
    ensures
        digits_integer(fixed_text(n, d)) == n,
        fraction_len(fixed_text(n, d)) == d,
        count_points(fixed_text(n, d)) == 1,
        number_chars(fixed_text(n, d)),
        fixed_text(n, d).contains('.'),
        nat_text(n / pow10(d)).len() > 0,
        fixed_text(n, d).take(nat_text(n / pow10(d)).len() as int) == nat_text(n / pow10(d)),
{
    crate::natural::lemma_pow10_positive(d);
    let big = pow10(d);
    let q = n / big;
    let r = n % big;
    let head = nat_text(q);
    let a = head + seq!['.'];
    let tail = padded_text(r, d);
    let s = fixed_text(n, d);
    assert(s == a + tail);
    lemma_nat_text_reads(q);
    lemma_plain_digits(head);
    lemma_padded_reads(r, d);
    assert(a.drop_last() =~= head);
    assert(a.last() == '.');
    assert(digits_integer(a) == q);
    assert(count_points(a) == 1);
    assert(fraction_len(a) == 0);
    lemma_append_digits(a, tail);
    vstd::arithmetic::div_mod::lemma_mod_twice(n as int, big as int);
    vstd::arithmetic::div_mod::lemma_fundamental_div_mod(n as int, big as int);
    assert(q * big + r == n) by (nonlinear_arith)
        requires
            n == big * q + r,
    ;
    assert forall|i: int| 0 <= i < s.len() implies #[trigger] is_number_char(s[i]) by {
        if i < head.len() {
            assert(s[i] == head[i]);
        } else if i == head.len() {
            assert(s[i] == '.');
        } else {
            assert(s[i] == tail[i - head.len() - 1]);
        }
    }
    assert(s[head.len() as int] == '.');
    assert(s.take(head.len() as int) =~= head);
}

/// `strip_end(s, c)` keeps a front part of `s`.
proof fn lemma_strip_prefix(s: Seq<char>, c: char)
    ensures
        strip_end(s, c).len() <= s.len(),
        strip_end(s, c) == s.take(strip_end(s, c).len() as int),
    decreases s.len(),
{
    if s.len() > 0 && s.last() == c {
        lemma_strip_prefix(s.drop_last(), c);
        let r = strip_end(s.drop_last(), c);
        assert(r =~= s.take(r.len() as int));
    } else {
        assert(s =~= s.take(s.len() as int));
    }
}

/// Zeros stripped after the point divide the integer and shorten the fraction alike.
proof fn lemma_strip_zeros(s: Seq<char>) -> (k: nat)
    requires
        count_points(s) > 0,
    ensures
        digits_integer(s) == digits_integer(strip_end(s, '0')) * pow10(k),
        fraction_len(s) == fraction_len(strip_end(s, '0')) + k,
        count_points(strip_end(s, '0')) == count_points(s),
    decreases s.len(),
{
    if s.len() > 0 && s.last() == '0' {
        let s1 = s.drop_last();
        assert(count_points(s1) == count_points(s));
        let k1 = lemma_strip_zeros(s1);
        let r = strip_end(s1, '0');
        assert(strip_end(s, '0') == r);
        assert(digit_of('0') == 0);
        assert(digits_integer(s) == digits_integer(s1) * 10);
        assert(fraction_len(s) == fraction_len(s1) + 1);
        assert(pow10(k1 + 1) == 10 * pow10(k1));
        assert(digits_integer(r) * pow10(k1) * 10 == digits_integer(r) * (10 * pow10(k1)))
            by (nonlinear_arith);
        k1 + 1
    } else {
        assert(digits_integer(s) * pow10(0) == digits_integer(s)) by (nonlinear_arith)
            requires
                pow10(0) == 1,
        ;
        0
    }
}

/// A single point stripped from the end changes neither the integer nor the fraction.
proof fn lemma_strip_point(s: Seq<char>)
    requires
        count_points(s) == 1,
    ensures
        digits_integer(strip_end(s, '.')) == digits_integer(s),
        fraction_len(strip_end(s, '.')) == fraction_len(s),
        count_points(strip_end(s, '.')) <= 1,
        strip_end(s, '.').len() + 1 >= s.len(),
        strip_end(s, '.') == s || count_points(strip_end(s, '.')) == 0,
{
    if s.len() > 0 && s.last() == '.' {
        let s1 = s.drop_last();
        assert(count_points(s1) == 0);
        if s1.len() > 0 && s1.last() == '.' {
            assert(count_points(s1) >= 1);
        }
        assert(strip_end(s1, '.') == s1);
        assert(strip_end(s, '.') == s1);
        if s1.len() > 0 {
            assert(count_points(s1.drop_last()) == 0);
        }
    }
}

/// Where the run of number characters starts at `i` and fills the text, it ends at its end.
proof fn lemma_run_end_all(t: Seq<char>, i: int)
    requires
        0 <= i <= t.len(),
        number_chars(t),
    ensures
        run_end(t, i) == t.len(),
    decreases t.len() - i,
{
    if i < t.len() {
        assert(is_number_char(t[i]));
        lemma_run_end_all(t, i + 1);
    }
}

/// A text of digits and at most one point, starting with a digit, reads as its decimal number.
proof fn lemma_decimal_reads(m: Seq<char>)
    requires
        m.len() > 0,
        is_digit(m[0]),
        number_chars(m),
        count_points(m) <= 1,
    ensures
        read_value(m) == Ok::<Frac, Seq<char>>(
            Frac { neg: false, num: digits_integer(m), den: pow10(fraction_len(m)) },
        ),
{
    assert(sign_len(m) == 0);
    lemma_run_end_all(m, 0);
    assert(mantissa(m) =~= m);
    assert(suffix(m) =~= Seq::<char>::empty());
    assert(m != seq!['.']) by {
        if m == seq!['.'] {
            assert(m[0] == '.');
        }
    }
    lemma_small_powers();
    let d = digits_integer(m);
    let f = pow10(fraction_len(m));
    assert(d * pow10(0) == d) by (nonlinear_arith)
        requires
            pow10(0) == 1,
    ;
    assert(f * pow10(0) == f) by (nonlinear_arith)
        requires
            pow10(0) == 1,
    ;
}

/// `strip_end(s, c)` does not end with `c`.
proof fn lemma_strip_end_last(s: Seq<char>, c: char)
    ensures
        strip_end(s, c).len() == 0 || strip_end(s, c).last() != c,
    decreases s.len(),
{
    if s.len() > 0 && s.last() == c {
        lemma_strip_end_last(s.drop_last(), c);
    }
}

/// The digits of a positive number do not start with zero.
proof fn lemma_nat_text_lead(n: nat)
    ensures
        n > 0 ==> nat_text(n)[0] != '0',
        n == 0 ==> nat_text(n) == seq!['0'],
    decreases n,
{
    if n >= 10 {
        lemma_nat_text_lead(n / 10);
        lemma_nat_text_reads(n / 10);
        assert(nat_text(n)[0] == nat_text(n / 10)[0]);
    } else {
        assert(digit_char(n) == '0' ==> n == 0);
    }
}


/// Reading back a printed mantissa gives the number it stands for: for every `n` and `d`,
/// the text written for `n * 10^-d` is a decimal number in its shortest form (digits and at
/// most one point, starting with a digit, no leading zero before another digit, no zero and
/// no point closing a fraction), and reading it as values are read gives exactly `n / 10^d`.
pub proof fn lemma_mantissa_reads_back(n: nat, d: int)
    ensures
        mantissa_text(n, d).len() > 0,
        is_digit(mantissa_text(n, d)[0]),
        forall|i: int|
            0 <= i < mantissa_text(n, d).len() ==> #[trigger] is_number_char(
                mantissa_text(n, d)[i],
            ),
        count_points(mantissa_text(n, d)) <= 1,
        count_points(mantissa_text(n, d)) == 1 ==> mantissa_text(n, d).last() != '0'
            && mantissa_text(n, d).last() != '.',
        mantissa_text(n, d)[0] == '0' ==> mantissa_text(n, d).len() == 1 || mantissa_text(
            n,
            d,
        )[1] == '.',
        read_value(mantissa_text(n, d)) matches Ok(v) && same_value(
            v,
            Frac {
                neg: false,
                num: n * pow10(
                    if d < 0 {
                        (-d) as nat
                    } else {
                        0
                    },
                ),
                den: pow10(
                    if d > 0 {
                        d as nat
                    } else {
                        0
                    },
                ),
            },
        ),
{
    let m = mantissa_text(n, d);
    if d > 0 {
        let dn = d as nat;
        let s = fixed_text(n, dn);
        lemma_fixed_reads(n, dn);
        let head = nat_text(n / pow10(dn));
        lemma_nat_text_reads(n / pow10(dn));
        let r = strip_end(s, '0');
        let k = lemma_strip_zeros(s);
        lemma_strip_prefix(s, '0');
        if r.len() <= head.len() {
            assert forall|i: int| 0 <= i < r.len() implies #[trigger] is_digit(r[i]) by {
                assert(r[i] == s.take(head.len() as int)[i]);
                assert(r[i] == head[i]);
            }
            lemma_plain_digits(r);
        }
        assert(m == strip_end(r, '.'));
        lemma_strip_point(r);
        lemma_strip_prefix(r, '.');
        assert forall|i: int| 0 <= i < m.len() implies #[trigger] is_number_char(m[i]) by {
            assert(m[i] == r[i]);
            assert(r[i] == s[i]);
        }
        assert(m[0] == s[0]);
        assert(s[0] == head[0]);
        lemma_strip_end_last(s, '0');
        lemma_strip_end_last(r, '.');
        lemma_nat_text_lead(n / pow10(dn));
        if m[0] == '0' && m.len() > 1 {
            assert(head == seq!['0']);
            assert(m[1] == s[1]);
            assert(s[1] == '.');
        }
        lemma_decimal_reads(m);
        let fl = fraction_len(m);
        crate::natural::lemma_pow10_adds(fl, k);
        lemma_small_powers();
        assert(digits_integer(m) * pow10(dn) == n * pow10(0) * pow10(fl)) by (nonlinear_arith)
            requires
                n == digits_integer(m) * pow10(k),
                pow10(dn) == pow10(fl) * pow10(k),
                pow10(0) == 1,
        ;
    } else {
        let big = n * pow10((-d) as nat);
        let s = fixed_text(big, 0);
        lemma_nat_text_reads(big);
        assert(!s.contains('.')) by {
            if s.contains('.') {
                let i = choose|i: int| 0 <= i < s.len() && s[i] == '.';
                assert(is_digit(s[i]));
            }
        }
        assert(m == s);
        lemma_nat_text_lead(big);
        lemma_plain_digits(s);
        assert(number_chars(m));
        lemma_decimal_reads(m);
    }
}

/// The part of `i` above zero.
pub open spec fn pos_part(i: int) -> nat {
    if i > 0 {
        i as nat
    } else {
        0
    }
}

/// `x` rounded to four significant figures: `±rounded_four(|x|) * 10^(magnitude - 3)`.
pub open spec fn rounded_value(x: Frac) -> Frac {
    let t = magnitude(x.num, x.den);
    Frac {
        neg: x.neg,
        num: rounded_four(x.num, x.den, t) * pow10(pos_part(t - 3)),
        den: pow10(pos_part(3 - t)),
    }
}

proof fn lemma_pow10_three(a: nat, b: nat, c: nat)
    ensures
        pow10(a) * pow10(b) * pow10(c) == pow10(a + b + c),
{
    crate::natural::lemma_pow10_adds(a, b);
    crate::natural::lemma_pow10_adds(a + b, c);
}

/// The prefix printed for a multiple of three between pico and mega reads back as that power.
proof fn lemma_prefix_text_reads(e: int)
    requires
        e % 3 == 0,
        -12 <= e <= 6,
    ensures
        e == 0 ==> prefix_text(e) == Seq::<char>::empty(),
        e != 0 ==> prefix_text(e).len() == 1 && prefix_exponent(prefix_text(e)) == Some(e),
{
    assert(e == -12 || e == -9 || e == -6 || e == -3 || e == 0 || e == 3 || e == 6);
}

/// Reading back what is printed gives the rounded value: for every `x`, the printed text is
/// a number `w`, a space, a prefix `p` of at most one letter and the unit, and `w` read with
/// its prefix is `x` rounded to four significant figures, sign included.
pub proof fn lemma_eng_text_reads_back(x: Frac, unit: Seq<char>)
    requires
        x.den > 0,
    ensures
        exists|w: Seq<char>, p: Seq<char>|
            #![trigger read_value(w + p)]
            eng_text(x, unit) == w + seq![' '] + p + unit && p.len() <= 1 && (read_value(w + p) matches Ok(
                v,
            ) && same_value(v, rounded_value(x))),
{
    if x.num == 0 {
        let w = seq!['0'];
        let p = Seq::<char>::empty();
        assert(eng_text(x, unit) =~= w + seq![' '] + p + unit);
        assert(w + p =~= w);
        assert(is_digit(w[0]));
        assert(w.drop_last() =~= Seq::<char>::empty());
        assert(digits_integer(Seq::<char>::empty()) == 0);
        assert(digits_integer(w) == 0);
        lemma_digit_char(0);
        lemma_plain_digits(w);
        lemma_decimal_reads(w);
        lemma_small_powers();
        let t = magnitude(x.num, x.den);
        let sq = scaled_den(x.den, t);
        crate::natural::lemma_pow10_positive(pos_part(t - 3));
        assert(sq > 0) by (nonlinear_arith)
            requires
                sq == (if t <= 3 {
                    x.den
                } else {
                    x.den * pow10((t - 3) as nat)
                }),
                x.den > 0,
                pow10((t - 3) as nat) >= 1 || t <= 3,
        ;
        assert(scaled_num(0, t) == 0);
        vstd::arithmetic::div_mod::lemma_basic_div(sq as int, 2 * sq as int);
        assert(rounded_four(x.num, x.den, t) == 0);
        let r = rounded_value(x);
        assert(r.num == 0);
        assert(same_value(Frac { neg: false, num: 0, den: pow10(0) }, r));
        assert(eng_text(x, unit) == w + seq![' '] + p + unit && p.len() <= 1 && (read_value(w + p) matches Ok(
            v,
        ) && same_value(v, rounded_value(x))));
    } else {
        let (w, p) = lemma_eng_text_parts(x, unit);
        assert(eng_text(x, unit) == w + seq![' '] + p + unit && p.len() <= 1 && (read_value(w + p) matches Ok(
            v,
        ) && same_value(v, rounded_value(x))));
    }
}

/// The prefix is the one that leaves one to three digits before the point: for every
/// nonzero `x`, the number printed before the space, read without its prefix, is at least 1
/// unless the prefix is pico (for values below its range), and below 1000 unless the prefix
/// is mega (for values above its range).
pub proof fn lemma_eng_text_prefix_fits(x: Frac, unit: Seq<char>)
    requires
        x.num > 0,
        x.den > 0,
    ensures
        exists|w: Seq<char>, p: Seq<char>|
            #![trigger read_value(w), prefix_exponent(p)]
            eng_text(x, unit) == w + seq![' '] + p + unit && prefix_exponent(p) is Some && (read_value(
                w,
            ) matches Ok(v) && (p != seq!['p'] ==> at_least_pow10(v.num, v.den, 0)) && (p
                != seq!['M'] ==> !at_least_pow10(v.num, v.den, 3))),
{
    let (w, p) = lemma_eng_text_parts(x, unit);
    assert(eng_text(x, unit) == w + seq![' '] + p + unit && prefix_exponent(p) is Some && (read_value(
        w,
    ) matches Ok(v) && (p != seq!['p'] ==> at_least_pow10(v.num, v.den, 0)) && (p != seq!['M']
        ==> !at_least_pow10(v.num, v.den, 3))));
}

/// The printed text of a nonzero `x` cut at its space: the number and the prefix.
proof fn lemma_eng_text_parts(x: Frac, unit: Seq<char>) -> (parts: (Seq<char>, Seq<char>))
    requires
        x.num > 0,
        x.den > 0,
    ensures
        eng_text(x, unit) == parts.0 + seq![' '] + parts.1 + unit,
        parts.1.len() <= 1,
        prefix_exponent(parts.1) is Some,
        read_value(parts.0 + parts.1) matches Ok(v) && same_value(v, rounded_value(x)),
        read_value(parts.0) matches Ok(v) && (parts.1 != seq!['p'] ==> at_least_pow10(
            v.num,
            v.den,
            0,
        )) && (parts.1 != seq!['M'] ==> !at_least_pow10(v.num, v.den, 3)),
{
    let (num, den) = (x.num, x.den);
    lemma_rounded_to_nearest(num, den);
    let t0 = magnitude(num, den);
    let n0 = rounded_four(num, den, t0);
    let n = if n0 >= 10000 {
        n0 / 10
    } else {
        n0
    };
    let t = if n0 >= 10000 {
        t0 + 1
    } else {
        t0
    };
    let e = eng_exponent(t);
    let d = 3 - (t - e);
    let m = mantissa_text(n, d);
    let sign: Seq<char> = if x.neg {
        seq!['-']
    } else {
        Seq::empty()
    };
    let p = prefix_text(e);
    let w = sign + m;
    assert(eng_text(x, unit) == w + seq![' '] + p + unit);
    lemma_eng_exponent_range(t);
    lemma_prefix_text_reads(e);
    lemma_mantissa_reads_back(n, d);
    lemma_run_end_all(m, 0);
    assert(sign_len(m) == 0);
    assert(mantissa(m) =~= m);
    assert(suffix(m) =~= Seq::<char>::empty());
    lemma_small_powers();
    let plain = written_value(m, 0);
    assert(read_value(m) == Ok::<Frac, Seq<char>>(plain));
    let mp = m + p;
    let f = Frac {
        neg: false,
        num: plain.num * pow10(pos_part(e)),
        den: plain.den * pow10(pos_part(-e)),
    };
    if e == 0 {
        assert(mp =~= m);
        assert(f == plain);
    } else {
        assert(seq![p[0]] =~= p);
        lemma_prefix_scales(m, p[0]);
    }
    assert(read_value(mp) == Ok::<Frac, Seq<char>>(f));
    assert(mp[0] == m[0]);
    let g = Frac { neg: x.neg, ..f };
    if x.neg {
        assert(w + p =~= seq!['-'] + mp);
        lemma_leading_sign('-', mp);
    } else {
        assert(w + p =~= mp);
    }
    assert(read_value(w + p) == Ok::<Frac, Seq<char>>(g));
    // The exponents: the mantissa stands for `n * 10^-d`, the prefix for `10^e`, and
    // `e - d = t - 3`, the order of the rounded value.
    let (a, b) = (plain.num, plain.den);
    let (pd, qd) = (pow10(pos_part(d)), pow10(pos_part(-d)));
    let (pe, qe) = (pow10(pos_part(e)), pow10(pos_part(-e)));
    let (pt, qt) = (pow10(pos_part(t0 - 3)), pow10(pos_part(3 - t0)));
    crate::natural::lemma_pow10_positive(pos_part(d));
    assert(a * pd == n * qd * b) by (nonlinear_arith)
        requires
            a * pd == n * qd * (b * 1),
    ;
    // The number alone: one to three digits before its point, but at the ends of the prefixes.
    let g0 = Frac { neg: x.neg, ..plain };
    if x.neg {
        assert(w =~= seq!['-'] + m);
        lemma_leading_sign('-', m);
    } else {
        assert(w =~= m);
    }
    assert(read_value(w) == Ok::<Frac, Seq<char>>(g0));
    assert(1000 <= n < 10000);
    crate::natural::lemma_pow10_positive(pos_part(-d));
    crate::natural::lemma_pow10_positive(fraction_len(mantissa(m)));
    assert(b > 0) by (nonlinear_arith)
        requires
            b == pow10(fraction_len(mantissa(m))) * pow10(0),
            pow10(fraction_len(mantissa(m))) >= 1,
            pow10(0) == 1,
    ;
    lemma_number_fits(a, b, n, t, e);
    assert(prefix_text(-12) == seq!['p']);
    assert(prefix_text(6) == seq!['M']);
    lemma_pow10_three(pos_part(-d), pos_part(e), pos_part(3 - t0));
    lemma_pow10_three(pos_part(t0 - 3), pos_part(-e), pos_part(d));
    if n0 >= 10000 {
        assert(n0 == 10000 && n == 1000);
        crate::natural::lemma_pow10_adds(3, pos_part(-d) + pos_part(e) + pos_part(3 - t0));
        crate::natural::lemma_pow10_adds(4, pos_part(t0 - 3) + pos_part(-e) + pos_part(d));
        assert(3 + pos_part(-d) + pos_part(e) + pos_part(3 - t0) == 4 + pos_part(t0 - 3)
            + pos_part(-e) + pos_part(d));
        assert(n * qd * pe * qt == n0 * pt * qe * pd) by (nonlinear_arith)
            requires
                n == pow10(3),
                n0 == pow10(4),
                qd * pe * qt == pow10(pos_part(-d) + pos_part(e) + pos_part(3 - t0)),
                pt * qe * pd == pow10(pos_part(t0 - 3) + pos_part(-e) + pos_part(d)),
                pow10(3) * pow10(pos_part(-d) + pos_part(e) + pos_part(3 - t0)) == pow10(4)
                    * pow10(pos_part(t0 - 3) + pos_part(-e) + pos_part(d)),
        ;
    } else {
        assert(pos_part(-d) + pos_part(e) + pos_part(3 - t0) == pos_part(t0 - 3) + pos_part(-e)
            + pos_part(d));
        assert(n * qd * pe * qt == n0 * pt * qe * pd) by (nonlinear_arith)
            requires
                n == n0,
                qd * pe * qt == pt * qe * pd,
        ;
    }
    assert(a * pe * qt * pd == n0 * pt * (b * qe) * pd) by (nonlinear_arith)
        requires
            a * pd == n * qd * b,
            n * qd * pe * qt == n0 * pt * qe * pd,
    ;
    assert(a * pe * qt == n0 * pt * (b * qe)) by (nonlinear_arith)
        requires
            a * pe * qt * pd == n0 * pt * (b * qe) * pd,
            pd > 0,
    ;
    let r = rounded_value(x);
    assert(g.num * r.den == r.num * g.den);
    if x.neg {
        assert(same_value(g, r)) by (nonlinear_arith)
            requires
                g.num * r.den == r.num * g.den,
                g.neg,
                r.neg,
        ;
    }
    (w, p)
}

/// A mantissa of four digits `n`, shown as `n * 10^(t - e - 3)` under the prefix `10^e`,
/// is at least 1 unless the prefix is pico, and below 1000 unless it is mega.
proof fn lemma_number_fits(a: nat, b: nat, n: nat, t: int, e: int)
    requires
        e == eng_exponent(t),
        a * pow10(pos_part(3 - (t - e))) == n * pow10(pos_part(-(3 - (t - e)))) * b,
        1000 <= n < 10000,
        b > 0,
    ensures
        e != -12 ==> a >= b * pow10(0),
        e != 6 ==> a < b * pow10(3),
{
    let d = 3 - (t - e);
    let pd = pow10(pos_part(d));
    let qd = pow10(pos_part(-d));
    lemma_eng_exponent_range(t);
    lemma_small_powers();
    crate::natural::lemma_pow10_positive(pos_part(d));
    crate::natural::lemma_pow10_positive(pos_part(-d));
    if e != -12 {
        assert(t >= -12);
        if d >= 1 {
            assert(d == 1 || d == 2 || d == 3);
            assert(pd <= 1000 && qd == 1);
        } else {
            assert(pd == 1);
        }
        assert(n * qd >= pd) by (nonlinear_arith)
            requires
                n >= 1000,
                qd >= 1,
                pd <= 1000,
        ;
        assert(a >= b * pow10(0)) by (nonlinear_arith)
            requires
                a * pd == n * qd * b,
                n * qd >= pd,
                pd > 0,
                pow10(0) == 1,
        ;
    }
    if e != 6 {
        assert(t < 9);
        assert(d >= 1);
        assert(qd == 1);
        crate::natural::lemma_pow10_monotone(1, pos_part(d));
        assert(pd >= 10);
        assert(n * qd == n) by (nonlinear_arith)
            requires
                qd == 1,
        ;
        assert(n * qd < 1000 * pd);
        assert(a < b * pow10(3)) by (nonlinear_arith)
            requires
                a * pd == n * qd * b,
                n * qd < 1000 * pd,
                pd > 0,
                b > 0,
                pow10(3) == 1000,
        ;
    }
}

} // verus!
