//! Exact fractions: positions within a cycle, gains, durations.

use vstd::prelude::*;

use crate::bignat::{Nat, Signed};

verus! {

/// A fraction of two integers, held exactly.
#[derive(Debug)]
pub struct Ratio {
    num: Signed,
    den: Nat,
}

impl View for Ratio {
    type V = real;

    closed spec fn view(&self) -> real {
        self.num@ as real / self.den@ as real
    }
}

proof fn lemma_mul_cast(a: int, b: int)
    ensures
        (a * b) as real == a as real * b as real,
{
    assert((a * b) as real == a as real * b as real) by (nonlinear_arith);
}

pub proof fn lemma_div(a: real, b: real)
    requires
        b > 0real,
    ensures
        (a / b) * b == a,
{
    assert((a / b) * b == a) by (nonlinear_arith)
        requires
            b > 0real,
    ;
}

/// `x * b` determines `x`.
proof fn lemma_cancel(x: real, y: real, b: real)
    requires
        b > 0real,
        x * b == y * b,
    ensures
        x == y,
{
    assert((x - y) * b == 0real) by (nonlinear_arith)
        requires
            x * b == y * b,
    ;
    assert(x == y) by (nonlinear_arith)
        requires
            (x - y) * b == 0real,
            b > 0real,
    ;
}

proof fn lemma_positive_product(b: real, d: real)
    requires
        b > 0real,
        d > 0real,
    ensures
        b * d > 0real,
{
    assert(b * d > 0real) by (nonlinear_arith)
        requires
            b > 0real,
            d > 0real,
    ;
}

proof fn lemma_negated(a: real, b: real)
    requires
        b > 0real,
    ensures
        (-a) / b == -(a / b),
{
    let x = a / b;
    lemma_div(a, b);
    lemma_div(-a, b);
    assert((-x) * b == -(x * b)) by (nonlinear_arith);
    lemma_cancel((-a) / b, -x, b);
}

proof fn lemma_sum(a: real, b: real, c: real, d: real)
    requires
        b > 0real,
        d > 0real,
    ensures
        (a * d + c * b) / (b * d) == a / b + c / d,
{
    let x = a / b;
    let y = c / d;
    lemma_div(a, b);
    lemma_div(c, d);
    lemma_positive_product(b, d);
    lemma_div(a * d + c * b, b * d);
    assert((x * b) * d + (y * d) * b == (x + y) * (b * d)) by (nonlinear_arith);
    lemma_cancel((a * d + c * b) / (b * d), x + y, b * d);
}

proof fn lemma_sum_common(a: real, c: real, b: real)
    requires
        b > 0real,
    ensures
        (a + c) / b == a / b + c / b,
{
    let x = a / b;
    let y = c / b;
    lemma_div(a, b);
    lemma_div(c, b);
    lemma_div(a + c, b);
    assert(x * b + y * b == (x + y) * b) by (nonlinear_arith);
    lemma_cancel((a + c) / b, x + y, b);
}

proof fn lemma_product(a: real, b: real, c: real, d: real)
    requires
        b > 0real,
        d > 0real,
    ensures
        (a * c) / (b * d) == (a / b) * (c / d),
{
    let x = a / b;
    let y = c / d;
    lemma_div(a, b);
    lemma_div(c, d);
    lemma_positive_product(b, d);
    lemma_div(a * c, b * d);
    assert((x * b) * (y * d) == (x * y) * (b * d)) by (nonlinear_arith);
    lemma_cancel((a * c) / (b * d), x * y, b * d);
}

proof fn lemma_quotient(a: real, b: real, c: real, d: real)
    requires
        b > 0real,
        d > 0real,
        c > 0real,
    ensures
        (a * d) / (b * c) == (a / b) / (c / d),
{
    let x = a / b;
    let y = c / d;
    lemma_div(a, b);
    lemma_div(c, d);
    lemma_positive_product(b, c);
    lemma_positive_product(b, d);
    assert(y > 0real) by (nonlinear_arith)
        requires
            y * d > 0real,
            d > 0real,
    ;
    lemma_div(x, y);
    let q = x / y;
    lemma_div(a * d, b * c);
    assert((x * b) * d == q * (b * (y * d))) by (nonlinear_arith)
        requires
            x == q * y,
    ;
    lemma_cancel((a * d) / (b * c), q, b * c);
}

proof fn lemma_order(a: real, b: real, c: real, d: real)
    requires
        b > 0real,
        d > 0real,
    ensures
        (a / b <= c / d) == (a * d <= c * b),
{
    let x = a / b;
    let y = c / d;
    lemma_div(a, b);
    lemma_div(c, d);
    lemma_positive_product(b, d);
    let p = b * d;
    assert((x * b) * d == x * p) by (nonlinear_arith)
        requires
            p == b * d,
    ;
    assert((y * d) * b == y * p) by (nonlinear_arith)
        requires
            p == b * d,
    ;
    if x <= y {
        assert(x * p <= y * p) by (nonlinear_arith)
            requires
                x <= y,
                p > 0real,
        ;
    } else {
        assert(x * p > y * p) by (nonlinear_arith)
            requires
                x > y,
                p > 0real,
        ;
    }
}

proof fn lemma_between(a: real, b: real, q: real, k: real, n: real)
    requires
        q > 0real,
        n > 0real,
    ensures
        (a * (n - k) + b * k) / (q * n) == a / q + (b / q - a / q) * (k / n),
{
    let x = a / q;
    let y = b / q;
    let z = k / n;
    lemma_div(a, q);
    lemma_div(b, q);
    lemma_div(k, n);
    lemma_positive_product(q, n);
    let t = x + (y - x) * z;
    lemma_div(a * (n - k) + b * k, q * n);
    let p = q * n;
    let xz = x * z;
    let yz = y * z;
    assert((x * q) * (n - k) == (x * q) * n - (x * q) * k) by (nonlinear_arith);
    assert((x * q) * n == x * p) by (nonlinear_arith)
        requires
            p == q * n,
    ;
    assert((x * q) * (z * n) == (x * z) * (q * n)) by (nonlinear_arith);
    assert((y * q) * (z * n) == (y * z) * (q * n)) by (nonlinear_arith);
    assert((y - x) * z == y * z - x * z) by (nonlinear_arith);
    assert((x - xz + yz) * p == x * p - xz * p + yz * p) by (nonlinear_arith);
    lemma_cancel((a * (n - k) + b * k) / (q * n), t, q * n);
}

/// `round(x)`, halves away from zero for `x >= 0`, held between 0 and `cap`.
pub open spec fn rounded(x: real, cap: nat) -> nat {
    let r = (x + 1real / 2real).floor();
    if r <= 0 {
        0
    } else if r >= cap {
        cap
    } else {
        r as nat
    }
}

impl Ratio {
    #[verifier::type_invariant]
    spec fn inv(self) -> bool {
        self.den@ > 0
    }

    /// `num / den`.
    pub fn new(num: Signed, den: Nat) -> (r: Ratio)
        requires
            den@ > 0,
        ensures
            r@ == num@ as real / den@ as real,
    {
        Ratio { num, den }
    }

    pub fn from_u64(n: u64) -> (r: Ratio)
        ensures
            r@ == n as real,
    {
        proof {
            lemma_div(n as real, 1real);
        }
        Ratio { num: Signed::from_nat(Nat::from_u64(n)), den: Nat::from_u64(1) }
    }

    /// `n / d`.
    pub fn fraction(n: u64, d: u64) -> (r: Ratio)
        requires
            d > 0,
        ensures
            r@ == n as real / d as real,
    {
        Ratio { num: Signed::from_nat(Nat::from_u64(n)), den: Nat::from_u64(d) }
    }

    pub fn zero() -> (r: Ratio)
        ensures
            r@ == 0real,
    {
        Ratio::from_u64(0)
    }

    pub fn one() -> (r: Ratio)
        ensures
            r@ == 1real,
    {
        Ratio::from_u64(1)
    }

    /// The numerator, sign included.
    pub closed spec fn top(self) -> int {
        self.num@
    }

    /// The denominator.
    pub closed spec fn bottom(self) -> nat {
        self.den@
    }

    /// The numerator, sign included.
    pub fn numerator(&self) -> (r: &Signed)
        ensures
            r@ == self.top(),
            self@ == r@ as real / self.bottom() as real,
    {
        &self.num
    }

    /// The denominator, which is positive.
    pub fn denominator(&self) -> (r: &Nat)
        ensures
            r@ == self.bottom(),
            r@ > 0,
            self@ == self.top() as real / r@ as real,
    {
        proof {
            use_type_invariant(self);
        }
        &self.den
    }

    pub fn duplicate(&self) -> (r: Ratio)
        ensures
            r@ == self@,
    {
        proof {
            use_type_invariant(self);
        }
        Ratio { num: self.num.duplicate(), den: self.den.duplicate() }
    }

    pub fn negated(&self) -> (r: Ratio)
        ensures
            r@ == -self@,
    {
        proof {
            use_type_invariant(self);
            let a = self.num@ as real;
            let b = self.den@ as real;
            lemma_negated(a, b);
        }
        Ratio { num: self.num.negated(), den: self.den.duplicate() }
    }

    pub fn plus(&self, other: &Ratio) -> (r: Ratio)
        ensures
            r@ == self@ + other@,
    {
        proof {
            use_type_invariant(self);
            use_type_invariant(other);
        }
        let ghost a = self.num@ as real;
        let ghost b = self.den@ as real;
        let ghost c = other.num@ as real;
        let ghost d = other.den@ as real;
        if self.den.equals(&other.den) {
            proof {
                lemma_sum_common(a, c, b);
            }
            Ratio { num: self.num.plus(&other.num), den: self.den.duplicate() }
        } else {
            let den = self.den.times(&other.den);
            proof {
                lemma_mul_cast(self.num@, other.den@ as int);
                lemma_mul_cast(other.num@, self.den@ as int);
                lemma_mul_cast(self.den@ as int, other.den@ as int);
                lemma_positive_product(b, d);
                lemma_sum(a, b, c, d);
            }
            Ratio { num: self.num.times(&other.den).plus(&other.num.times(&self.den)), den }
        }
    }

    pub fn minus(&self, other: &Ratio) -> (r: Ratio)
        ensures
            r@ == self@ - other@,
    {
        self.plus(&other.negated())
    }

    pub fn times(&self, other: &Ratio) -> (r: Ratio)
        ensures
            r@ == self@ * other@,
    {
        proof {
            use_type_invariant(self);
            use_type_invariant(other);
        }
        let ghost a = self.num@ as real;
        let ghost b = self.den@ as real;
        let ghost c = other.num@ as real;
        let ghost d = other.den@ as real;
        let den = self.den.times(&other.den);
        let num = if other.num.negative {
            self.num.negated().times(&other.num.magnitude)
        } else {
            self.num.times(&other.num.magnitude)
        };
        proof {
            let m = other.num.magnitude@ as int;
            let s = self.num@;
            assert((-s) * m == s * (-m)) by (nonlinear_arith);
            assert(num@ == self.num@ * other.num@);
            lemma_mul_cast(self.num@, other.num@);
            lemma_mul_cast(self.den@ as int, other.den@ as int);
            lemma_positive_product(b, d);
            lemma_product(a, b, c, d);
        }
        Ratio { num, den }
    }

    /// `self / other`.
    pub fn over(&self, other: &Ratio) -> (r: Ratio)
        requires
            other@ > 0real,
        ensures
            r@ == self@ / other@,
    {
        proof {
            use_type_invariant(self);
            use_type_invariant(other);
        }
        let ghost a = self.num@ as real;
        let ghost b = self.den@ as real;
        let ghost c = other.num@ as real;
        let ghost d = other.den@ as real;
        let den = self.den.times(&other.num.magnitude);
        let num = self.num.times(&other.den);
        proof {
            lemma_div(c, d);
            let y = c / d;
            assert(y * d > 0real) by (nonlinear_arith)
                requires
                    y > 0real,
                    d > 0real,
            ;
            assert(other.num@ > 0);
            lemma_mul_cast(self.num@, other.den@ as int);
            lemma_mul_cast(self.den@ as int, other.num@);
            lemma_positive_product(b, c);
            lemma_quotient(a, b, c, d);
        }
        Ratio { num, den }
    }

    /// `self <= other`.
    pub fn at_most(&self, other: &Ratio) -> (r: bool)
        ensures
            r == (self@ <= other@),
    {
        proof {
            use_type_invariant(self);
            use_type_invariant(other);
            let a = self.num@ as real;
            let b = self.den@ as real;
            let c = other.num@ as real;
            let d = other.den@ as real;
            lemma_mul_cast(self.num@, other.den@ as int);
            lemma_mul_cast(other.num@, self.den@ as int);
            lemma_order(a, b, c, d);
        }
        self.num.times(&other.den).at_most(&other.num.times(&self.den))
    }

    /// `self < other`.
    pub fn below(&self, other: &Ratio) -> (r: bool)
        ensures
            r == (self@ < other@),
    {
        !other.at_most(self)
    }

    pub fn equals(&self, other: &Ratio) -> (r: bool)
        ensures
            r == (self@ == other@),
    {
        self.at_most(other) && other.at_most(self)
    }

    /// The smaller of two numbers.
    pub fn least(&self, other: &Ratio) -> (r: Ratio)
        ensures
            r@ == if self@ <= other@ {
                self@
            } else {
                other@
            },
    {
        if self.at_most(other) {
            self.duplicate()
        } else {
            other.duplicate()
        }
    }

    /// The larger of two numbers.
    pub fn greatest(&self, other: &Ratio) -> (r: Ratio)
        ensures
            r@ == if self@ <= other@ {
                other@
            } else {
                self@
            },
    {
        if self.at_most(other) {
            other.duplicate()
        } else {
            self.duplicate()
        }
    }

    /// The point `k/n` of the way from `from` to `to`.
    pub fn between(from: &Ratio, to: &Ratio, k: u128, n: u128) -> (r: Ratio)
        requires
            n > 0,
        ensures
            r@ == from@ + (to@ - from@) * (k as real / n as real),
    {
        proof {
            use_type_invariant(from);
            use_type_invariant(to);
        }
        if k <= n && from.den.equals(&to.den) {
            // One denominator serves both ends: the result needs no product of the two.
            let ghost a = from.num@ as real;
            let ghost b = to.num@ as real;
            let ghost q = from.den@ as real;
            let ghost kr = k as real;
            let ghost nr = n as real;
            let x = from.num.times(&Nat::from_u128(n - k));
            let y = to.num.times(&Nat::from_u128(k));
            let den = from.den.times(&Nat::from_u128(n));
            proof {
                lemma_mul_cast(from.num@, n - k);
                lemma_mul_cast(to.num@, k as int);
                lemma_mul_cast(from.den@ as int, n as int);
                lemma_positive_product(q, nr);
                lemma_between(a, b, q, kr, nr);
            }
            Ratio { num: x.plus(&y), den }
        } else {
            let share = Ratio::new(Signed::from_nat(Nat::from_u128(k)), Nat::from_u128(n));
            from.plus(&to.minus(from).times(&share))
        }
    }

    /// The nearest integer, held between 0 and `cap`.
    pub fn round_capped(&self, cap: u64) -> (r: u64)
        ensures
            r == rounded(self@, cap as nat),
    {
        // The largest `x <= cap` with `x - 1/2 <= self`, or 0.
        let half = Ratio::fraction(1, 2);
        let goal = self.plus(&half);
        let mut lo: u64 = 0;
        let mut hi: u64 = cap;
        while lo < hi
            invariant
                0 <= lo <= hi <= cap,
                goal@ == self@ + 1real / 2real,
                lo == 0 || lo as real <= goal@,
                hi == cap || goal@ < (hi + 1) as real,
            decreases hi - lo,
        {
            let mid: u64 = lo + (hi - lo) / 2 + (hi - lo) % 2;
            let m = Ratio::from_u64(mid);
            if m.at_most(&goal) {
                lo = mid;
            } else {
                hi = mid - 1;
            }
        }
        proof {
            let f = goal@.floor();
            assert(f as real <= goal@ < f as real + 1real);
            if lo > 0 {
                assert(lo as real <= goal@);
                assert(lo <= f);
            }
            if lo < cap {
                assert(goal@ < (lo + 1) as real);
                assert(f <= lo);
            }
        }
        lo
    }
}

} // verus!
