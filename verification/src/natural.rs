//! Arbitrary-size natural numbers held as little-endian decimal digits.
use vstd::prelude::*;

verus! {

/// Ten to the power `k`.
pub open spec fn pow10(k: nat) -> nat
    decreases k,
{
    if k == 0 {
        1
    } else {
        10 * pow10((k - 1) as nat)
    }
}

/// The value of a little-endian sequence of decimal digits.
pub open spec fn digits_value(s: Seq<u8>) -> nat
    decreases s.len(),
{
    if s.len() == 0 {
        0
    } else {
        digits_value(s.drop_last()) + (s.last() as nat) * pow10((s.len() - 1) as nat)
    }
}

/// The digit at position `i`, reading positions past the end as zero.
pub open spec fn digit_at(s: Seq<u8>, i: int) -> nat {
    if 0 <= i < s.len() {
        s[i] as nat
    } else {
        0
    }
}

/// The value of the lowest `i` digit positions of `s`.
pub open spec fn low_value(s: Seq<u8>, i: nat) -> nat
    decreases i,
{
    if i == 0 {
        0
    } else {
        low_value(s, (i - 1) as nat) + digit_at(s, i - 1) * pow10((i - 1) as nat)
    }
}

pub open spec fn all_digits(s: Seq<u8>) -> bool {
    forall|i: int| 0 <= i < s.len() ==> #[trigger] s[i] < 10
}

pub proof fn lemma_pow10_positive(k: nat)
    ensures
        pow10(k) >= 1,
    decreases k,
{
    if k > 0 {
        lemma_pow10_positive((k - 1) as nat);
    }
}

pub proof fn lemma_pow10_adds(a: nat, b: nat)
    ensures
        pow10(a + b) == pow10(a) * pow10(b),
    decreases b,
{
    if b > 0 {
        lemma_pow10_adds(a, (b - 1) as nat);
        assert(pow10(a + b) == 10 * pow10((a + b - 1) as nat));
        assert(pow10(a + b) == pow10(a) * pow10(b)) by (nonlinear_arith)
            requires
                pow10(a + b) == 10 * pow10((a + b - 1) as nat),
                pow10((a + b - 1) as nat) == pow10(a) * pow10((b - 1) as nat),
                pow10(b) == 10 * pow10((b - 1) as nat),
        ;
    } else {
        assert(a + b == a);
        assert(pow10(b) == 1);
    }
}

pub proof fn lemma_pow10_monotone(a: nat, b: nat)
    requires
        a <= b,
    ensures
        pow10(a) <= pow10(b),
    decreases b,
{
    if a < b {
        lemma_pow10_monotone(a, (b - 1) as nat);
        lemma_pow10_positive((b - 1) as nat);
    }
}

/// The digits past the end of `s` add nothing.
pub proof fn lemma_low_value_full(s: Seq<u8>, i: nat)
    requires
        i >= s.len(),
    ensures
        low_value(s, i) == digits_value(s),
    decreases i,
{
    if i > s.len() {
        lemma_low_value_full(s, (i - 1) as nat);
        assert(digit_at(s, i - 1) == 0);
        assert(low_value(s, i) == low_value(s, (i - 1) as nat) + 0 * pow10((i - 1) as nat));
    } else {
        lemma_low_value_prefix(s, i);
        assert(s.take(i as int) =~= s);
    }
}

pub proof fn lemma_low_value_prefix(s: Seq<u8>, i: nat)
    requires
        i <= s.len(),
    ensures
        low_value(s, i) == digits_value(s.take(i as int)),
    decreases i,
{
    if i > 0 {
        lemma_low_value_prefix(s, (i - 1) as nat);
        assert(s.take(i as int).drop_last() =~= s.take(i - 1));
    }
}

/// A value written with `n` digits is below ten to the `n`.
pub proof fn lemma_low_value_bound(s: Seq<u8>, i: nat)
    requires
        all_digits(s),
    ensures
        low_value(s, i) < pow10(i),
    decreases i,
{
    if i > 0 {
        lemma_low_value_bound(s, (i - 1) as nat);
        let p = pow10((i - 1) as nat);
        let d = digit_at(s, i - 1);
        assert(d <= 9);
        assert(low_value(s, (i - 1) as nat) + d * p < 10 * p) by (nonlinear_arith)
            requires
                low_value(s, (i - 1) as nat) < p,
                d <= 9,
        ;
    }
}

pub proof fn lemma_digits_value_bound(s: Seq<u8>)
    requires
        all_digits(s),
    ensures
        digits_value(s) < pow10(s.len()),
{
    lemma_low_value_bound(s, s.len());
    lemma_low_value_full(s, s.len());
}

/// A natural number of any size.
#[derive(Debug, PartialEq, Eq)]
pub struct Natural {
    digits: Vec<u8>,
}

impl Natural {
    #[verifier::type_invariant]
    spec fn inv(self) -> bool {
        all_digits(self.digits@)
    }

    pub closed spec fn value(self) -> nat {
        digits_value(self.digits@)
    }

    /// The number zero.
    pub fn zero() -> (r: Natural)
        ensures
            r@ == 0,
    {
        Natural { digits: Vec::new() }
    }

    /// The natural number `n`.
    pub fn from_u64(n: u64) -> (r: Natural)
        ensures
            r@ == n,
    {
        let mut digits: Vec<u8> = Vec::new();
        let mut rest: u64 = n;
        let ghost mut place: nat = 1;
        while rest > 0
            invariant
                all_digits(digits@),
                place == pow10(digits@.len()),
                n == digits_value(digits@) + rest * place,
            decreases rest,
        {
            let d: u8 = (rest % 10) as u8;
            let ghost old_digits = digits@;
            digits.push(d);
            assert(digits@.drop_last() =~= old_digits);
            proof {
                let q = rest / 10;
                assert(rest == 10 * q + d) by (nonlinear_arith)
                    requires
                        q == rest / 10,
                        d == rest % 10,
                ;
                assert(rest * place == d * place + q * (10 * place)) by (nonlinear_arith)
                    requires
                        rest == 10 * q + d,
                ;
                place = 10 * place;
            }
            rest = rest / 10;
        }
        Natural { digits }
    }

    /// The sum of two numbers.
    pub fn add(&self, other: &Natural) -> (r: Natural)
        ensures
            r@ == self@ + other@,
    {
        proof {
            use_type_invariant(self);
            use_type_invariant(other);
        }
        let a = &self.digits;
        let b = &other.digits;
        let n: usize = if a.len() >= b.len() { a.len() } else { b.len() };
        let mut digits: Vec<u8> = Vec::new();
        let mut carry: u8 = 0;
        let mut i: usize = 0;
        while i < n
            invariant
                n == (if a@.len() >= b@.len() { a@.len() } else { b@.len() }),
                i <= n,
                digits@.len() == i,
                all_digits(digits@),
                all_digits(a@),
                all_digits(b@),
                carry <= 1,
                digits_value(digits@) + carry * pow10(i as nat) == low_value(a@, i as nat)
                    + low_value(b@, i as nat),
            decreases n - i,
        {
            let da: u8 = if i < a.len() { a[i] } else { 0 };
            let db: u8 = if i < b.len() { b[i] } else { 0 };
            let sum: u8 = da + db + carry;
            let d: u8 = sum % 10;
            let ghost old_digits = digits@;
            digits.push(d);
            assert(digits@.drop_last() =~= old_digits);
            proof {
                let p = pow10(i as nat);
                let c2 = sum / 10;
                assert(da as nat == digit_at(a@, i as int));
                assert(db as nat == digit_at(b@, i as int));
                assert(d * p + c2 * (10 * p) == da * p + db * p + carry * p) by (nonlinear_arith)
                    requires
                        sum == da + db + carry,
                        d == sum % 10,
                        c2 == sum / 10,
                ;
                assert(low_value(a@, (i + 1) as nat) == low_value(a@, i as nat) + da * p);
                assert(low_value(b@, (i + 1) as nat) == low_value(b@, i as nat) + db * p);
                assert(pow10((i + 1) as nat) == 10 * p);
                assert(digits_value(digits@) == digits_value(old_digits) + d * p);
            }
            carry = sum / 10;
            i += 1;
        }
        if carry > 0 {
            let ghost old_digits = digits@;
            digits.push(carry);
            assert(digits@.drop_last() =~= old_digits);
        }
        proof {
            lemma_low_value_full(a@, n as nat);
            lemma_low_value_full(b@, n as nat);
        }
        Natural { digits }
    }

    /// Whether `other` exceeds `self`, and if not, their difference.
    pub fn sub_borrow(&self, other: &Natural) -> (r: (Natural, bool))
        ensures
            r.1 == (self@ < other@),
            !r.1 ==> r.0@ == self@ - other@,
    {
        proof {
            use_type_invariant(self);
            use_type_invariant(other);
        }
        let a = &self.digits;
        let b = &other.digits;
        let n: usize = if a.len() >= b.len() { a.len() } else { b.len() };
        let mut digits: Vec<u8> = Vec::new();
        let mut borrow: u8 = 0;
        let mut i: usize = 0;
        while i < n
            invariant
                n == (if a@.len() >= b@.len() { a@.len() } else { b@.len() }),
                i <= n,
                digits@.len() == i,
                all_digits(digits@),
                all_digits(a@),
                all_digits(b@),
                borrow <= 1,
                digits_value(digits@) == low_value(a@, i as nat) + borrow * pow10(i as nat)
                    - low_value(b@, i as nat),
            decreases n - i,
        {
            let da: u8 = if i < a.len() { a[i] } else { 0 };
            let db: u8 = if i < b.len() { b[i] } else { 0 };
            let d: u8;
            let nb: u8;
            if da >= db + borrow {
                d = da - db - borrow;
                nb = 0;
            } else {
                d = da + 10 - db - borrow;
                nb = 1;
            }
            let ghost old_digits = digits@;
            digits.push(d);
            assert(digits@.drop_last() =~= old_digits);
            proof {
                let p = pow10(i as nat);
                assert(da as nat == digit_at(a@, i as int));
                assert(db as nat == digit_at(b@, i as int));
                assert(d * p == da * p + nb * (10 * p) - db * p - borrow * p) by (nonlinear_arith)
                    requires
                        d == da + nb * 10 - db - borrow,
                ;
                assert(low_value(a@, (i + 1) as nat) == low_value(a@, i as nat) + da * p);
                assert(low_value(b@, (i + 1) as nat) == low_value(b@, i as nat) + db * p);
                assert(pow10((i + 1) as nat) == 10 * p);
                assert(digits_value(digits@) == digits_value(old_digits) + d * p);
            }
            borrow = nb;
            i += 1;
        }
        proof {
            lemma_low_value_full(a@, n as nat);
            lemma_low_value_full(b@, n as nat);
            lemma_digits_value_bound(digits@);
        }
        (Natural { digits }, borrow == 1)
    }

    /// The product with a single decimal digit.
    fn mul_digit(&self, m: u8) -> (r: Natural)
        requires
            m < 10,
        ensures
            r@ == self@ * m,
    {
        proof {
            use_type_invariant(self);
        }
        let a = &self.digits;
        let n = a.len();
        let mut digits: Vec<u8> = Vec::new();
        let mut carry: u8 = 0;
        let mut i: usize = 0;
        assert(low_value(a@, 0) == 0);
        assert(low_value(a@, 0) * m == 0) by (nonlinear_arith)
            requires
                low_value(a@, 0) == 0,
        ;
        assert(digits_value(digits@) + carry * pow10(0) == 0);
        while i < n
            invariant
                n == a@.len(),
                i <= n,
                m < 10,
                digits@.len() == i,
                all_digits(digits@),
                all_digits(a@),
                carry < 10,
                digits_value(digits@) + carry * pow10(i as nat) == low_value(a@, i as nat) * m,
            decreases n - i,
        {
            let da: u8 = a[i];
            assert(da * m <= 81) by (nonlinear_arith)
                requires
                    da < 10,
                    m < 10,
            ;
            let prod: u8 = da * m + carry;
            let d: u8 = prod % 10;
            let ghost old_digits = digits@;
            digits.push(d);
            assert(digits@.drop_last() =~= old_digits);
            proof {
                let p = pow10(i as nat);
                let c2 = prod / 10;
                let lv = low_value(a@, i as nat);
                assert(d * p + c2 * (10 * p) == da * m * p + carry * p) by (nonlinear_arith)
                    requires
                        prod == da * m + carry,
                        d == prod % 10,
                        c2 == prod / 10,
                ;
                assert(low_value(a@, (i + 1) as nat) == lv + da * p);
                assert((lv + da * p) * m == lv * m + da * m * p) by (nonlinear_arith);
                assert(pow10((i + 1) as nat) == 10 * p);
                assert(digits_value(digits@) == digits_value(old_digits) + d * p);
                assert(c2 < 10);
            }
            carry = prod / 10;
            i += 1;
        }
        if carry > 0 {
            let ghost old_digits = digits@;
            digits.push(carry);
            assert(digits@.drop_last() =~= old_digits);
        }
        proof {
            lemma_low_value_full(a@, n as nat);
        }
        Natural { digits }
    }

    /// The number multiplied by ten to the power `k`.
    pub fn times_pow10(&self, k: usize) -> (r: Natural)
        ensures
            r@ == self@ * pow10(k as nat),
    {
        proof {
            use_type_invariant(self);
        }
        let a = &self.digits;
        let n = a.len();
        let mut digits: Vec<u8> = Vec::new();
        let mut j: usize = 0;
        while j < k
            invariant
                j <= k,
                digits@.len() == j,
                all_digits(digits@),
                digits_value(digits@) == 0,
            decreases k - j,
        {
            let ghost old_digits = digits@;
            digits.push(0);
            assert(digits@.drop_last() =~= old_digits);
            assert(digits_value(digits@) == digits_value(old_digits) + 0 * pow10(j as nat));
            j += 1;
        }
        let mut i: usize = 0;
        while i < n
            invariant
                n == a@.len(),
                i <= n,
                digits@.len() == k + i,
                all_digits(digits@),
                all_digits(a@),
                digits_value(digits@) == low_value(a@, i as nat) * pow10(k as nat),
            decreases n - i,
        {
            let ghost old_digits = digits@;
            digits.push(a[i]);
            assert(digits@.drop_last() =~= old_digits);
            proof {
                let p = pow10(i as nat);
                let pk = pow10(k as nat);
                let lv = low_value(a@, i as nat);
                let da = a@[i as int] as nat;
                lemma_pow10_adds(k as nat, i as nat);
                assert(digits_value(digits@) == digits_value(old_digits) + da * pow10((k + i) as nat));
                assert(low_value(a@, (i + 1) as nat) == lv + da * p);
                assert(lv * pk + da * (pk * p) == (lv + da * p) * pk) by (nonlinear_arith);
            }
            i += 1;
        }
        proof {
            lemma_low_value_full(a@, n as nat);
        }
        Natural { digits }
    }

    /// The product of two numbers.
    pub fn mul(&self, other: &Natural) -> (r: Natural)
        ensures
            r@ == self@ * other@,
    {
        proof {
            use_type_invariant(other);
        }
        let b = &other.digits;
        let n = b.len();
        let mut acc = Natural::zero();
        let mut j: usize = 0;
        assert(low_value(b@, 0) == 0);
        assert(self@ * low_value(b@, 0) == 0) by (nonlinear_arith)
            requires
                low_value(b@, 0) == 0,
        ;
        while j < n
            invariant
                n == b@.len(),
                j <= n,
                all_digits(b@),
                acc@ == self@ * low_value(b@, j as nat),
            decreases n - j,
        {
            let term = self.mul_digit(b[j]).times_pow10(j);
            acc = acc.add(&term);
            proof {
                let p = pow10(j as nat);
                let lv = low_value(b@, j as nat);
                let db = b@[j as int] as nat;
                assert(low_value(b@, (j + 1) as nat) == lv + db * p);
                assert(self@ * lv + self@ * db * p == self@ * (lv + db * p)) by (nonlinear_arith);
            }
            j += 1;
        }
        proof {
            lemma_low_value_full(b@, n as nat);
        }
        acc
    }

    /// The count of significant digits; zero for the number zero.
    pub fn sig_len(&self) -> (r: usize)
        ensures
            self@ == 0 ==> r == 0,
            self@ > 0 ==> r >= 1 && pow10((r - 1) as nat) <= self@ && self@ < pow10(r as nat),
    {
        proof {
            use_type_invariant(self);
        }
        let a = &self.digits;
        let mut k: usize = a.len();
        proof {
            lemma_low_value_full(a@, k as nat);
        }
        while k > 0 && a[k - 1] == 0
            invariant
                k <= a@.len(),
                all_digits(a@),
                low_value(a@, k as nat) == digits_value(a@),
            decreases k,
        {
            assert(low_value(a@, k as nat) == low_value(a@, (k - 1) as nat) + 0 * pow10(
                (k - 1) as nat,
            ));
            k -= 1;
        }
        proof {
            lemma_low_value_bound(a@, k as nat);
            if k > 0 {
                let p = pow10((k - 1) as nat);
                let d = a@[k - 1] as nat;
                assert(d >= 1);
                assert(d * p >= p) by (nonlinear_arith)
                    requires
                        d >= 1,
                ;
                assert(low_value(a@, k as nat) == low_value(a@, (k - 1) as nat) + d * p);
            }
        }
        k
    }

    /// The quotient and remainder of a division whose quotient is known to be below `limit`.
    pub fn div_rem_bounded(&self, divisor: &Natural, limit: u64) -> (r: (u64, Natural))
        requires
            divisor@ > 0,
            self@ < divisor@ * limit,
        ensures
            self@ == r.0 * divisor@ + r.1@,
            r.1@ < divisor@,
            r.0 < limit,
    {
        let mut rem = self.clone();
        let mut q: u64 = 0;
        loop
            invariant
                divisor@ > 0,
                self@ < divisor@ * limit,
                self@ == q * divisor@ + rem@,
            decreases rem@,
        {
            proof {
                assert(q < limit) by (nonlinear_arith)
                    requires
                        divisor@ > 0,
                        q * divisor@ + rem@ < divisor@ * limit,
                ;
            }
            let (diff, borrow) = rem.sub_borrow(divisor);
            if borrow {
                return (q, rem);
            }
            rem = diff;
            q = q + 1;
            proof {
                assert((q - 1) * divisor@ + divisor@ == q * divisor@) by (nonlinear_arith);
            }
        }
    }

    /// Whether `self` is below `other`.
    pub fn less_than(&self, other: &Natural) -> (r: bool)
        ensures
            r == (self@ < other@),
    {
        self.sub_borrow(other).1
    }

    /// Whether the two numbers are equal.
    pub fn equals(&self, other: &Natural) -> (r: bool)
        ensures
            r == (self@ == other@),
    {
        !self.less_than(other) && !other.less_than(self)
    }

    /// Whether the number is zero.
    pub fn is_zero(&self) -> (r: bool)
        ensures
            r == (self@ == 0),
    {
        proof {
            use_type_invariant(self);
        }
        let n = self.digits.len();
        let mut i: usize = 0;
        while i < n
            invariant
                n == self.digits@.len(),
                i <= n,
                all_digits(self.digits@),
                low_value(self.digits@, i as nat) == 0,
            decreases n - i,
        {
            if self.digits[i] != 0 {
                proof {
                    lemma_low_value_full(self.digits@, n as nat);
                    lemma_low_value_monotone(self.digits@, (i + 1) as nat, n as nat);
                    lemma_pow10_positive(i as nat);
                    assert(self.digits@[i as int] as nat * pow10(i as nat) >= 1) by (nonlinear_arith)
                        requires
                            self.digits@[i as int] >= 1,
                            pow10(i as nat) >= 1,
                    ;
                }
                return false;
            }
            i += 1;
        }
        proof {
            lemma_low_value_full(self.digits@, n as nat);
        }
        true
    }
}

pub proof fn lemma_low_value_monotone(s: Seq<u8>, i: nat, j: nat)
    requires
        i <= j,
    ensures
        low_value(s, i) <= low_value(s, j),
    decreases j,
{
    if i < j {
        lemma_low_value_monotone(s, i, (j - 1) as nat);
    }
}

impl Clone for Natural {
    fn clone(&self) -> (r: Natural)
        ensures
            r@ == self@,
    {
        proof {
            use_type_invariant(self);
        }
        let digits = self.digits.clone();
        assert(digits@ =~= self.digits@);
        Natural { digits }
    }
}

impl View for Natural {
    type V = nat;

    open spec fn view(&self) -> nat {
        self.value()
    }
}

} // verus!
