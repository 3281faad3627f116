//! Binary numbers of limited precision: which one is nearest to a number, and how it is written in
//! decimals.

use vstd::prelude::*;
use vstd::string::StringExecFns;

use crate::bignat::{Nat, Signed};
use crate::ratio::{lemma_div, Ratio};
use crate::text::{chars_of, decimal, decimal_of, join2, join3, text_between};

verus! {

// ---------------------------------------------------------------------------------------------
// Powers
// ---------------------------------------------------------------------------------------------

/// `base` to the power `n`.
pub open spec fn power(base: nat, n: nat) -> nat
    decreases n,
{
    if n == 0 {
        1
    } else {
        base * power(base, (n - 1) as nat)
    }
}

pub proof fn lemma_power_positive(base: nat, n: nat)
    requires
        base > 0,
    ensures
        power(base, n) > 0,
    decreases n,
{
    if n > 0 {
        lemma_power_positive(base, (n - 1) as nat);
        assert(base * power(base, (n - 1) as nat) > 0) by (nonlinear_arith)
            requires
                base > 0,
                power(base, (n - 1) as nat) > 0,
        ;
    }
}

pub proof fn lemma_power_grows(n: nat, m: nat)
    requires
        n <= m,
    ensures
        power(2, n) <= power(2, m),
    decreases m,
{
    if n < m {
        lemma_power_grows(n, (m - 1) as nat);
    }
}

/// Exponents add up.
pub proof fn lemma_power_add(base: nat, m: nat, n: nat)
    ensures
        power(base, m + n) == power(base, m) * power(base, n),
    decreases m,
{
    if m > 0 {
        let a = power(base, (m - 1) as nat);
        let b = power(base, n);
        lemma_power_add(base, (m - 1) as nat, n);
        assert(base * (a * b) == (base * a) * b) by (nonlinear_arith);
    } else {
        assert(1 * power(base, n) == power(base, n));
    }
}

/// `base` to the power `n`.
pub fn power_of(base: u32, n: u128) -> (r: Nat)
    requires
        base > 0,
    ensures
        r@ == power(base as nat, n as nat),
        r@ > 0,
    decreases n,
{
    proof {
        lemma_power_positive(base as nat, n as nat);
    }
    if n == 0 {
        return Nat::from_u64(1);
    }
    let half = power_of(base, n / 2);
    let square = half.times(&half);
    proof {
        let h = n as nat / 2;
        lemma_power_add(base as nat, h, h);
        let a = power(base as nat, h + h);
        assert(a * base == base as nat * a) by (nonlinear_arith);
        assert(n % 2 == 1 ==> n as nat == h + h + 1);
    }
    if n % 2 == 1 {
        square.times_small(base)
    } else {
        square
    }
}

/// Eight is less than ten.
proof fn lemma_eights(n: nat)
    ensures
        power(2, 3 * n) <= power(10, n),
    decreases n,
{
    if n > 0 {
        let m = (n - 1) as nat;
        lemma_eights(m);
        reveal_with_fuel(power, 4);
        assert(power(2, 3 * n) == 8 * power(2, 3 * m)) by {
            assert((3 * n - 3) as nat == 3 * m);
        }
    }
}

/// 10 to the power `j`.
pub open spec fn ten_to(j: int) -> real {
    if j >= 0 {
        power(10, j as nat) as real
    } else {
        1real / power(10, (-j) as nat) as real
    }
}

/// How many bits a number may have.
#[derive(Debug, Clone, Copy, PartialEq, Eq, Structural)]
pub enum Precision {
    /// 24 significant bits, exponents up to 127.
    Single,
    /// 53 significant bits, exponents up to 1023.
    Double,
}

/// The least magnitude that is no longer finite at this precision.
pub open spec fn overflow(p: Precision) -> nat {
    match p {
        Precision::Single => (power(2, 128) - power(2, 103)) as nat,
        Precision::Double => (power(2, 1024) - power(2, 970)) as nat,
    }
}

/// How many significant bits there are.
pub open spec fn precision_bits(p: Precision) -> nat {
    match p {
        Precision::Single => 24,
        Precision::Double => 53,
    }
}

/// All numbers are multiples of one over two to this power.
pub open spec fn finest_bits(p: Precision) -> nat {
    match p {
        Precision::Single => 149,
        Precision::Double => 1074,
    }
}

/// All numbers are less than two to this power.
pub open spec fn top_bits(p: Precision) -> nat {
    match p {
        Precision::Single => 128,
        Precision::Double => 1024,
    }
}

/// How often the finest unit can be doubled.
pub open spec fn most_doublings(p: Precision) -> nat {
    (top_bits(p) + finest_bits(p) - precision_bits(p)) as nat
}

// ---------------------------------------------------------------------------------------------
// The nearest number
// ---------------------------------------------------------------------------------------------

/// A number: a mantissa in units of the finest one, doubled so often.
pub struct BinaryView {
    pub mantissa: nat,
    pub doublings: nat,
}

#[derive(Debug, Clone, Copy, PartialEq, Eq, Structural)]
pub struct Binary {
    pub mantissa: u64,
    pub doublings: u64,
}

impl View for Binary {
    type V = BinaryView;

    open spec fn view(&self) -> BinaryView {
        BinaryView { mantissa: self.mantissa as nat, doublings: self.doublings as nat }
    }
}

/// The number has no more bits than it may.
pub open spec fn fits(b: BinaryView, p: Precision) -> bool {
    b.mantissa < power(2, precision_bits(p)) && b.doublings <= most_doublings(p) + 1
}

/// What a mantissa of one stands for.
pub open spec fn unit(b: BinaryView, p: Precision) -> real {
    power(2, b.doublings) as real / power(2, finest_bits(p)) as real
}

/// What the number is.
pub open spec fn binary_value(b: BinaryView, p: Precision) -> real {
    b.mantissa as real * unit(b, p)
}

/// How often, from `k` times on, the finest unit is to be doubled until `w` of them have no more
/// bits than they may.
pub open spec fn doublings_from(w: real, p: Precision, k: nat) -> nat
    decreases most_doublings(p) - k,
{
    if k >= most_doublings(p) || w < power(2, precision_bits(p) + k) as real {
        k
    } else {
        doublings_from(w, p, k + 1)
    }
}

/// The nearest integer; of two that are equally near, the even one.
pub open spec fn half_even(x: real) -> int {
    let r = (x + 1real / 2real).floor();
    if r as real - x == 1real / 2real && r % 2 != 0 {
        r - 1
    } else {
        r
    }
}

/// The number nearest to `x`, which is not negative; of two that are equally near, the one with an
/// even mantissa.
pub open spec fn nearest(x: real, p: Precision) -> BinaryView {
    let w = x * power(2, finest_bits(p)) as real;
    let k = doublings_from(w, p, 0);
    let m = half_even(w / power(2, k) as real);
    if m >= power(2, precision_bits(p)) {
        BinaryView { mantissa: power(2, (precision_bits(p) - 1) as nat), doublings: k + 1 }
    } else {
        BinaryView { mantissa: m as nat, doublings: k }
    }
}

pub proof fn lemma_mantissa_bits(p: Precision)
    ensures
        power(2, precision_bits(p)) <= 0x20_0000_0000_0000,
        power(2, (precision_bits(p) - 1) as nat) * 2 == power(2, precision_bits(p)),
        p is Single ==> power(2, precision_bits(p)) == 0x100_0000,
        p is Double ==> power(2, precision_bits(p)) == 0x20_0000_0000_0000,
{
    reveal_with_fuel(power, 28);
    assert(power(2, 24) == 0x100_0000);
    assert(power(2, 29) == 0x2000_0000) by {
        lemma_power_add(2, 24, 5);
    }
    lemma_power_add(2, 24, 29);
    assert(power(2, 53) == 0x100_0000 * 0x2000_0000);
}

/// A whole number as a ratio.
pub fn whole(n: Nat) -> (r: Ratio)
    ensures
        r@ == n@ as real,
{
    proof {
        lemma_div(n@ as real, 1real);
    }
    Ratio::new(Signed::from_nat(n), Nat::from_u64(1))
}

pub proof fn lemma_doublings(w: real, p: Precision, k: nat)
    requires
        k <= most_doublings(p),
    ensures
        k <= doublings_from(w, p, k) <= most_doublings(p),
        doublings_from(w, p, k) < most_doublings(p) ==> w < power(
            2,
            precision_bits(p) + doublings_from(w, p, k),
        ) as real,
    decreases most_doublings(p) - k,
{
    if k < most_doublings(p) && w >= power(2, precision_bits(p) + k) as real {
        lemma_doublings(w, p, k + 1);
    }
}

/// Doublings that are needed all the same can be taken at once.
proof fn lemma_more_doublings(w: real, p: Precision, k: nat, step: nat)
    requires
        k + step <= most_doublings(p),
        step > 0 ==> w >= power(2, (precision_bits(p) + k + step - 1) as nat) as real,
    ensures
        doublings_from(w, p, k) == doublings_from(w, p, k + step),
    decreases step,
{
    if step > 0 {
        lemma_power_grows(precision_bits(p) + k, (precision_bits(p) + k + step - 1) as nat);
        lemma_more_doublings(w, p, k + 1, (step - 1) as nat);
    }
}

/// No more doublings are taken than are needed.
proof fn lemma_no_more_doublings(w: real, p: Precision, k: nat, m: nat)
    requires
        k <= m <= most_doublings(p),
        w < power(2, precision_bits(p) + m) as real,
    ensures
        doublings_from(w, p, k) <= m,
    decreases m - k,
{
    if k < m {
        lemma_no_more_doublings(w, p, k + 1, m);
    }
}

/// `x`, doubled `up` times and halved `down` times.
fn scaled(x: &Ratio, up: u64, down: u64) -> (r: Ratio)
    ensures
        r@ == x@ * power(2, up as nat) as real / power(2, down as nat) as real,
{
    proof {
        lemma_power_positive(2, up as nat);
        lemma_power_positive(2, down as nat);
    }
    if up >= down {
        let more = power_of(2, (up - down) as u128);
        proof {
            let a = power(2, (up - down) as nat);
            let q = power(2, down as nat);
            lemma_power_add(2, (up - down) as nat, down as nat);
            lemma_cast_product(a, q);
            assert(x@ * (a as real * q as real) == (x@ * a as real) * q as real)
                by (nonlinear_arith);
            lemma_cancel_right(x@ * a as real, q as real);
        }
        x.times(&whole(more))
    } else {
        let less = power_of(2, (down - up) as u128);
        proof {
            let d = power(2, (down - up) as nat);
            let q = power(2, up as nat);
            lemma_power_add(2, (down - up) as nat, up as nat);
            lemma_cast_product(d, q);
            lemma_smaller_fraction(x@, q as real, d as real);
            lemma_product_over(x@, q as real, power(2, down as nat) as real);
        }
        x.over(&whole(less))
    }
}

/// `(m * q) / d == m * (q / d)`.
pub proof fn lemma_product_over(m: real, q: real, d: real)
    requires
        d > 0real,
    ensures
        (m * q) / d == m * (q / d),
{
    let x = (m * q) / d;
    let y = q / d;
    lemma_div(m * q, d);
    lemma_div(q, d);
    assert(x == m * y) by (nonlinear_arith)
        requires
            x * d == m * q,
            y * d == q,
            d > 0real,
    ;
}

/// How often the finest unit is to be doubled to count `x` in it.
fn count_doublings(x: &Ratio, p: Precision) -> (r: u64)
    ensures
        ({
            let w = x@ * power(2, finest_bits(p)) as real;
            &&& r == doublings_from(w, p, 0)
            &&& r <= most_doublings(p)
            &&& r < most_doublings(p) ==> w < power(2, precision_bits(p) + r as nat) as real
        }),
{
    let (bits, fine, most): (u64, u64, u64) = match p {
        Precision::Single => (24, 149, 253),
        Precision::Double => (53, 1074, 2045),
    };
    let one = Ratio::one();
    let ghost w = x@ * power(2, finest_bits(p)) as real;
    let ghost goal = doublings_from(w, p, 0);
    let mut k: u64 = 0;
    let mut width: u64 = most + 1;
    proof {
        lemma_doublings(w, p, 0);
    }
    while width > 1
        invariant
            most == most_doublings(p),
            bits == precision_bits(p),
            most <= 2045,
            bits <= 53,
            fine == finest_bits(p),
            w == x@ * power(2, finest_bits(p)) as real,
            one@ == 1real,
            goal == doublings_from(w, p, k as nat),
            k <= goal < k + width,
            goal <= most,
            1 <= width,
            k + width <= most + 1,
        decreases width,
    {
        let step: u64 = width / 2;
        let top: u64 = bits + k + step - 1;
        proof {
            lemma_power_positive(2, top as nat);
            lemma_below_one(w, power(2, top as nat) as real);
        }
        if scaled(x, fine, top).below(&one) {
            proof {
                lemma_no_more_doublings(w, p, k as nat, (k + step - 1) as nat);
            }
            width = step;
        } else {
            proof {
                lemma_more_doublings(w, p, k as nat, step as nat);
                lemma_doublings(w, p, (k + step) as nat);
            }
            k += step;
            width -= step;
        }
    }
    k
}

fn round_half_even(x: &Ratio) -> (r: u64)
    requires
        0real <= x@ < 0x20_0000_0000_0000u64 as real,
    ensures
        r == half_even(x@),
{
    let r = x.round_capped(u64::MAX);
    let half = Ratio::fraction(1, 2);
    let over = Ratio::from_u64(r).minus(x);
    proof {
        let f = (x@ + 1real / 2real).floor();
        assert(f as real <= x@ + 1real / 2real < f as real + 1real);
        assert(f >= 0);
        assert(f <= 0x20_0000_0000_0000);
        assert(r == f);
    }
    if over.equals(&half) && r % 2 != 0 {
        r - 1
    } else {
        r
    }
}

/// The number nearest to `x`.
pub fn nearest_to(x: &Ratio, p: Precision) -> (r: Binary)
    requires
        0real <= x@ < power(2, top_bits(p)) as real,
    ensures
        r@ == nearest(x@, p),
        fits(r@, p),
{
    let fine: u64 = match p {
        Precision::Single => 149,
        Precision::Double => 1074,
    };
    let k = count_doublings(x, p);
    let ghost q = power(2, k as nat) as real;
    let ghost g = power(2, finest_bits(p)) as real;
    let ghost w = x@ * g;
    proof {
        let b = precision_bits(p);
        lemma_power_add(2, b, k as nat);
        lemma_mantissa_bits(p);
        lemma_power_positive(2, k as nat);
        lemma_power_positive(2, finest_bits(p));
        if k == most_doublings(p) {
            lemma_power_add(2, top_bits(p), finest_bits(p));
            let t = power(2, top_bits(p));
            assert(x@ * g < t as real * g) by (nonlinear_arith)
                requires
                    x@ < t as real,
                    g > 0real,
            ;
            lemma_cast_product(t, power(2, finest_bits(p)));
        }
        assert(w < power(2, b + k as nat) as real);
        lemma_cast_product(power(2, b), power(2, k as nat));
        assert(0real <= x@ * g) by (nonlinear_arith)
            requires
                x@ >= 0real,
                g > 0real,
        ;
        lemma_quotient_below(w, power(2, b) as real, q);
    }
    let m = round_half_even(&scaled(x, fine, k));
    let top: u64 = match p {
        Precision::Single => 0x100_0000,
        Precision::Double => 0x20_0000_0000_0000,
    };
    if m >= top {
        Binary { mantissa: top / 2, doublings: k + 1 }
    } else {
        Binary { mantissa: m, doublings: k }
    }
}

/// The bits of the double-precision number nearest to `x`: the mantissa with, on top of it, how often
/// the finest unit is doubled. Those of infinity where `x` is too large.
pub open spec fn double_bits(x: real) -> u64 {
    let size = if x < 0real {
        -x
    } else {
        x
    };
    let b = nearest(size, Precision::Double);
    let bits = if size >= overflow(Precision::Double) as real {
        0x7ff0_0000_0000_0000
    } else {
        b.doublings * 0x10_0000_0000_0000 + b.mantissa
    };
    (if x < 0real {
        0x8000_0000_0000_0000 + bits
    } else {
        bits
    }) as u64
}

/// The bits of the double-precision number nearest to `x`.
pub fn double_bits_of(x: &Ratio) -> (r: u64)
    ensures
        r == double_bits(x@),
{
    let negative = x.below(&Ratio::zero());
    let size = if negative {
        x.negated()
    } else {
        x.duplicate()
    };
    let most = overflow_of(Precision::Double);
    proof {
        lemma_mantissa_bits(Precision::Double);
    }
    let bits: u64 = if whole(most).at_most(&size) {
        0x7ff0_0000_0000_0000
    } else {
        let b = nearest_to(&size, Precision::Double);
        b.doublings * 0x10_0000_0000_0000 + b.mantissa
    };
    if negative {
        0x8000_0000_0000_0000 + bits
    } else {
        bits
    }
}

pub proof fn lemma_cast_product(a: nat, b: nat)
    ensures
        (a * b) as real == a as real * b as real,
{
    assert((a * b) as real == a as real * b as real) by (nonlinear_arith);
}

proof fn lemma_below_one(w: real, q: real)
    requires
        q > 0real,
    ensures
        w / q < 1real <==> w < q,
{
    let x = w / q;
    lemma_div(w, q);
    assert(x < 1real <==> x * q < q) by (nonlinear_arith)
        requires
            q > 0real,
    ;
}

pub proof fn lemma_quotient_below(w: real, b: real, q: real)
    requires
        0real <= w < b * q,
        q > 0real,
    ensures
        0real <= w / q < b,
{
    let x = w / q;
    lemma_div(w, q);
    assert(x >= 0real) by (nonlinear_arith)
        requires
            x * q >= 0real,
            q > 0real,
    ;
    assert(x < b) by (nonlinear_arith)
        requires
            x * q < b * q,
            q > 0real,
    ;
}

/// What the number is.
pub fn value_of(b: Binary, p: Precision) -> (r: Ratio)
    requires
        fits(b@, p),
    ensures
        r@ == binary_value(b@, p),
{
    let fine: u64 = match p {
        Precision::Single => 149,
        Precision::Double => 1074,
    };
    let m = Nat::from_u64(b.mantissa);
    let ghost k = b.doublings as nat;
    let ghost f = finest_bits(p);
    if b.doublings >= fine {
        let up = power_of(2, (b.doublings - fine) as u128);
        proof {
            lemma_power_add(2, (k - f) as nat, f);
            lemma_power_positive(2, f);
            lemma_cast_product(power(2, (k - f) as nat), power(2, f));
            lemma_cast_product(b.mantissa as nat, power(2, (k - f) as nat));
            lemma_cancel_right(power(2, (k - f) as nat) as real, power(2, f) as real);
        }
        whole(m.times(&up))
    } else {
        let down = power_of(2, (fine - b.doublings) as u128);
        proof {
            lemma_power_add(2, (f - k) as nat, k);
            lemma_power_positive(2, f);
            lemma_power_positive(2, k);
            lemma_cast_product(power(2, (f - k) as nat), power(2, k));
            lemma_smaller_fraction(
                b.mantissa as real,
                power(2, k) as real,
                power(2, (f - k) as nat) as real,
            );
        }
        Ratio::new(Signed::from_nat(m), down)
    }
}

pub proof fn lemma_cancel_right(a: real, q: real)
    requires
        q > 0real,
    ensures
        (a * q) / q == a,
{
    let x = (a * q) / q;
    lemma_div(a * q, q);
    assert(x == a) by (nonlinear_arith)
        requires
            x * q == a * q,
            q > 0real,
    ;
}

/// `m * (q / (d * q)) == m / d`.
proof fn lemma_smaller_fraction(m: real, q: real, d: real)
    requires
        q > 0real,
        d > 0real,
    ensures
        m * (q / (d * q)) == m / d,
{
    assert(d * q > 0real) by (nonlinear_arith)
        requires
            q > 0real,
            d > 0real,
    ;
    let x = q / (d * q);
    let y = m / d;
    lemma_div(q, d * q);
    lemma_div(m, d);
    assert(x * d == 1real) by (nonlinear_arith)
        requires
            x * (d * q) == q,
            q > 0real,
    ;
    assert(m * x == y) by (nonlinear_arith)
        requires
            x * d == 1real,
            y * d == m,
            d > 0real,
    ;
}

/// Where magnitudes stop being finite.
pub fn overflow_of(p: Precision) -> (r: Nat)
    ensures
        r@ == overflow(p),
        overflow(p) < power(2, top_bits(p)),
{
    match p {
        Precision::Single => {
            proof {
                lemma_power_grows(103, 128);
                lemma_power_positive(2, 103);
            }
            power_of(2, 128).minus(&power_of(2, 103))
        },
        Precision::Double => {
            proof {
                lemma_power_grows(970, 1024);
                lemma_power_positive(2, 970);
            }
            power_of(2, 1024).minus(&power_of(2, 970))
        },
    }
}

// ---------------------------------------------------------------------------------------------
// Decimals
// ---------------------------------------------------------------------------------------------

/// How far below the number the numbers reach that are rounded to it: half way to the next smaller
/// one, which is nearer where the mantissa is the least of its size.
pub open spec fn reach_below(b: BinaryView, p: Precision) -> real {
    if b.mantissa == power(2, (precision_bits(p) - 1) as nat) && b.doublings > 0 {
        unit(b, p) / 4real
    } else {
        unit(b, p) / 2real
    }
}

/// `c` is rounded to the number; half way it is where the mantissa is even.
pub open spec fn rounds_to(c: real, b: BinaryView, p: Precision) -> bool {
    let lo = binary_value(b, p) - reach_below(b, p);
    let hi = binary_value(b, p) + unit(b, p) / 2real;
    if b.mantissa % 2 == 0 {
        lo <= c <= hi
    } else {
        lo < c < hi
    }
}

/// The number in whole units of the decimal place `j`, rounded down.
pub open spec fn digits_below(b: BinaryView, p: Precision, j: int) -> int {
    (binary_value(b, p) / ten_to(j)).floor()
}

/// A decimal that ends at the place `j` is rounded to the number.
pub open spec fn ends_at(b: BinaryView, p: Precision, j: int) -> bool {
    let d = digits_below(b, p, j);
    rounds_to(d as real * ten_to(j), b, p) || rounds_to((d + 1) as real * ten_to(j), b, p)
}

/// Numbers have no digits above this place.
pub open spec fn top_place(p: Precision) -> int {
    match p {
        Precision::Single => 43,
        Precision::Double => 342,
    }
}

/// Numbers need no digits below this place.
pub open spec fn low_place(p: Precision) -> int {
    match p {
        Precision::Single => -51,
        Precision::Double => -360,
    }
}

/// The greatest place, from `j` on downwards, at which a decimal ends that is rounded to the
/// number.
pub open spec fn place_from(b: BinaryView, p: Precision, j: int) -> int
    decreases j - low_place(p),
{
    if j <= low_place(p) || ends_at(b, p, j) {
        j
    } else {
        place_from(b, p, j - 1)
    }
}

/// The decimal that ends at the place `j` and is rounded to the number; of two, the nearer one, and
/// the greater one where they are equally near.
pub open spec fn digits_at(b: BinaryView, p: Precision, j: int) -> nat {
    let v = binary_value(b, p);
    let d = digits_below(b, p, j);
    let below = d as real * ten_to(j);
    let above = (d + 1) as real * ten_to(j);
    if rounds_to(below, b, p) && (!rounds_to(above, b, p) || v - below < above - v) {
        d as nat
    } else {
        (d + 1) as nat
    }
}

/// So many zeros.
pub open spec fn zeros(n: nat) -> Seq<char> {
    Seq::new(n, |i: int| '0')
}

/// `d * 10^j`, written out.
pub open spec fn laid_out(d: nat, j: int) -> Seq<char> {
    let s = decimal(d);
    if j >= 0 {
        s + zeros(j as nat)
    } else if s.len() > -j {
        s.take(s.len() + j) + "."@ + s.skip(s.len() + j)
    } else {
        "0."@ + zeros((-j - s.len()) as nat) + s
    }
}

/// The shortest decimal that is rounded to the number.
pub open spec fn written(b: BinaryView, p: Precision) -> Seq<char> {
    if b.mantissa == 0 {
        "0"@
    } else {
        let j = place_from(b, p, top_place(p));
        laid_out(digits_at(b, p, j), j)
    }
}

proof fn lemma_ten_to(j: int)
    ensures
        ten_to(j) > 0real,
        ten_to(j + 1) == 10real * ten_to(j),
{
    if j >= 0 {
        lemma_power_positive(10, j as nat);
        assert(power(10, (j + 1) as nat) == 10 * power(10, j as nat));
    } else {
        let a = power(10, (-j) as nat);
        let b = power(10, (-j - 1) as nat);
        lemma_power_positive(10, (-j) as nat);
        lemma_power_positive(10, (-j - 1) as nat);
        assert(a == 10 * b);
        let x = 1real / a as real;
        let y = 1real / b as real;
        lemma_div(1real, a as real);
        lemma_div(1real, b as real);
        assert(x > 0real) by (nonlinear_arith)
            requires
                x * (a as real) == 1real,
                a as real > 0real,
        ;
        assert(10real * x == y) by (nonlinear_arith)
            requires
                x * (10real * b as real) == 1real,
                y * b as real == 1real,
                b as real > 0real,
        ;
        if j == -1 {
            assert(power(10, 0) == 1);
            assert(1real / 1real == 1real);
        }
    }
}

proof fn lemma_unit(b: BinaryView, p: Precision)
    requires
        fits(b, p),
    ensures
        0real < unit(b, p) <= 20real * ten_to(top_place(p)),
        ten_to(low_place(p)) < unit(b, p) / 2real,
        0real < reach_below(b, p) <= unit(b, p) / 2real,
        binary_value(b, p) >= 0real,
{
    let k = b.doublings;
    let f = finest_bits(p);
    let u = unit(b, p);
    let top = power(2, k);
    let fine = power(2, f);
    lemma_power_positive(2, k);
    lemma_power_positive(2, f);
    lemma_div(top as real, fine as real);
    // Above.
    let n = top_place(p) as nat;
    lemma_power_add(2, 3 * n, f);
    lemma_power_grows(k, 3 * n + f);
    lemma_eights(n);
    lemma_cast_product(power(2, 3 * n), fine);
    assert(u <= power(2, 3 * n) as real) by (nonlinear_arith)
        requires
            u * fine as real == top as real,
            top as real <= power(2, 3 * n) as real * fine as real,
            fine as real > 0real,
    ;
    assert(u > 0real) by (nonlinear_arith)
        requires
            u * fine as real == top as real,
            top as real > 0real,
            fine as real > 0real,
    ;
    // Below.
    let l = (-low_place(p)) as nat;
    let t = ten_to(low_place(p));
    lemma_eights((l - 1) as nat);
    lemma_power_grows(f + 1, 3 * (l - 1) as nat);
    lemma_power_positive(10, l);
    lemma_div(1real, power(10, l) as real);
    assert(power(10, l) == 10 * power(10, (l - 1) as nat));
    assert(power(2, f + 1) == 2 * fine);
    lemma_power_grows(0, k);
    assert(power(10, l) > 2 * fine);
    assert(t < u / 2real) by {
        lemma_below(t, power(10, l) as real, u, fine as real);
    }
    assert(b.mantissa as real * u >= 0real) by (nonlinear_arith)
        requires
            b.mantissa as real >= 0real,
            u > 0real,
    ;
}

proof fn lemma_below(t: real, a: real, u: real, f: real)
    requires
        t * a == 1real,
        u * f >= 1real,
        a > 2real * f,
        f > 0real,
    ensures
        t < u / 2real,
{
    assert(t > 0real) by (nonlinear_arith)
        requires
            t * a == 1real,
            a > 0real,
    ;
    assert(t * (2real * f) < 1real) by (nonlinear_arith)
        requires
            t * a == 1real,
            a > 2real * f,
            t > 0real,
    ;
    assert(2real * t < u) by (nonlinear_arith)
        requires
            t * (2real * f) < 1real,
            u * f >= 1real,
            f > 0real,
    ;
}

/// The next decimal above the number is less than a unit of its last place away.
proof fn lemma_next_above(b: BinaryView, p: Precision, j: int)
    requires
        fits(b, p),
    ensures
        ({
            let v = binary_value(b, p);
            let t = ten_to(j);
            let d = digits_below(b, p, j);
            &&& d >= 0
            &&& d as real * t <= v < (d + 1) as real * t
            &&& (d + 1) as real * t <= v + t
        }),
{
    let v = binary_value(b, p);
    let t = ten_to(j);
    let q = v / t;
    let d = digits_below(b, p, j);
    lemma_ten_to(j);
    lemma_unit(b, p);
    lemma_div(v, t);
    assert(d as real <= q < d as real + 1real);
    assert((d + 1) as real == d as real + 1real);
    assert(d as real * t <= v) by (nonlinear_arith)
        requires
            q * t == v,
            d as real <= q,
            t > 0real,
    ;
    assert(v < (d as real + 1real) * t) by (nonlinear_arith)
        requires
            q * t == v,
            q < d as real + 1real,
            t > 0real,
    ;
    assert((d as real + 1real) * t == d as real * t + t) by (nonlinear_arith);
    assert(q > -1real) by (nonlinear_arith)
        requires
            q * t == v,
            v >= 0real,
            t > 0real,
    ;
    assert(q >= 0real) by (nonlinear_arith)
        requires
            q * t == v,
            v >= 0real,
            t > 0real,
    ;
}

proof fn lemma_digits_fit(b: BinaryView, p: Precision, j: int)
    requires
        fits(b, p),
        j == top_place(p) || !ends_at(b, p, j + 1),
    ensures
        0 <= digits_below(b, p, j) < u64::MAX,
{
    let v = binary_value(b, p);
    let u = unit(b, p);
    let t = ten_to(j);
    let d = digits_below(b, p, j);
    lemma_ten_to(j);
    lemma_unit(b, p);
    lemma_next_above(b, p, j);
    if j != top_place(p) {
        lemma_next_above(b, p, j + 1);
        assert(u <= 20real * t);
    }
    lemma_mantissa_bits(p);
    let m = b.mantissa as real;
    assert(d as real <= 20real * m) by (nonlinear_arith)
        requires
            d as real * t <= m * u,
            u <= 20real * t,
            m >= 0real,
            t > 0real,
    ;
    assert(m <= 0x20_0000_0000_0000u64 as real);
    assert(d as real <= (20 * 0x20_0000_0000_0000) as real);
}

/// What is written is rounded to the number that it stands for.
pub proof fn written_numbers_round_back(b: BinaryView, p: Precision)
    requires
        fits(b, p),
    ensures
        ({
            let j = place_from(b, p, top_place(p));
            rounds_to(digits_at(b, p, j) as real * ten_to(j), b, p)
        }),
{
    lemma_place_ends(b, p, top_place(p));
    lemma_next_above(b, p, place_from(b, p, top_place(p)));
}

proof fn lemma_place_ends(b: BinaryView, p: Precision, j: int)
    requires
        fits(b, p),
        j >= low_place(p),
    ensures
        ends_at(b, p, place_from(b, p, j)),
    decreases j - low_place(p),
{
    if j > low_place(p) && !ends_at(b, p, j) {
        lemma_place_ends(b, p, j - 1);
    } else if j == low_place(p) {
        lemma_unit(b, p);
        lemma_next_above(b, p, j);
    }
}

fn ten_power(j: i64) -> (r: Ratio)
    ensures
        r@ == ten_to(j as int),
{
    if j >= 0 {
        whole(power_of(10, j as u128))
    } else {
        Ratio::new(Signed::from_nat(Nat::from_u64(1)), power_of(10, -(j as i128) as u128))
    }
}

/// Whether `c` is rounded to a number with an even mantissa or not, which reaches from `lo` to
/// `hi`.
fn within(c: &Ratio, lo: &Ratio, hi: &Ratio, even: bool) -> (r: bool)
    ensures
        r == if even {
            lo@ <= c@ <= hi@
        } else {
            lo@ < c@ < hi@
        },
{
    if even {
        lo.at_most(c) && c.at_most(hi)
    } else {
        lo.below(c) && c.below(hi)
    }
}

fn zeros_of(n: u64) -> (r: String)
    ensures
        r@ == zeros(n as nat),
{
    let mut out = String::new();
    let mut i: u64 = 0;
    assert(out@ =~= zeros(0));
    while i < n
        invariant
            i <= n,
            out@ == zeros(i as nat),
        decreases n - i,
    {
        out.push('0');
        i += 1;
        assert(out@ =~= zeros(i as nat));
    }
    out
}

fn lay_out(d: u64, j: i64) -> (r: String)
    requires
        -1000 <= j <= 1000,
    ensures
        r@ == laid_out(d as nat, j as int),
{
    let text = decimal_of(d);
    if j >= 0 {
        let tail = zeros_of(j as u64);
        return join2(text.as_str(), tail.as_str());
    }
    let s = chars_of(text.as_str());
    let n: usize = s.len();
    let after: usize = (-j) as usize;
    if n > after {
        let head = text_between(s.as_slice(), 0, n - after);
        let tail = text_between(s.as_slice(), n - after, n);
        assert(head@ =~= s@.take(n - after));
        assert(tail@ =~= s@.skip(n - after));
        join3(head.as_str(), ".", tail.as_str())
    } else {
        let gap = zeros_of((after - n) as u64);
        join3("0.", gap.as_str(), text.as_str())
    }
}

/// The shortest decimal that is rounded to the number.
pub fn write_binary(b: Binary, p: Precision) -> (r: String)
    requires
        fits(b@, p),
    ensures
        r@ == written(b@, p),
{
    if b.mantissa == 0 {
        return String::from_str("0");
    }
    proof {
        lemma_mantissa_bits(p);
    }
    let v = value_of(b, p);
    let u = value_of(Binary { mantissa: 1, doublings: b.doublings }, p);
    let (least, top, low): (u64, i64, i64) = match p {
        Precision::Single => (0x80_0000, 43, -51),
        Precision::Double => (0x10_0000_0000_0000, 342, -360),
    };
    assert(u@ == unit(b@, p)) by {
        assert(1real * unit(b@, p) == unit(b@, p));
    }
    let half = u.over(&Ratio::from_u64(2));
    let down = if b.mantissa == least && b.doublings > 0 {
        u.over(&Ratio::from_u64(4))
    } else {
        half.duplicate()
    };
    let lo = v.minus(&down);
    let hi = v.plus(&half);
    let even: bool = b.mantissa % 2 == 0;
    let mut j: i64 = top;
    loop
        invariant
            low <= j <= top <= 342,
            top == top_place(p),
            low == low_place(p),
            -360 <= low,
            fits(b@, p),
            b.mantissa > 0,
            v@ == binary_value(b@, p),
            lo@ == v@ - reach_below(b@, p),
            hi@ == v@ + unit(b@, p) / 2real,
            even == (b@.mantissa % 2 == 0),
            j == top_place(p) || !ends_at(b@, p, j + 1),
            place_from(b@, p, top_place(p)) == place_from(b@, p, j as int),
        decreases j - low,
    {
        let t = ten_power(j);
        proof {
            lemma_ten_to(j as int);
            lemma_digits_fit(b@, p, j as int);
        }
        let q = v.over(&t).minus(&Ratio::fraction(1, 2));
        let d = q.round_capped(u64::MAX);
        assert(q@ + 1real / 2real == v@ / t@);
        assert(d == digits_below(b@, p, j as int));
        let below = Ratio::from_u64(d).times(&t);
        let above = Ratio::from_u64(d + 1).times(&t);
        let down_ok = within(&below, &lo, &hi, even);
        let up_ok = within(&above, &lo, &hi, even);
        if j <= low || down_ok || up_ok {
            let n: u64 = if down_ok && (!up_ok || v.minus(&below).below(&above.minus(&v))) {
                d
            } else {
                d + 1
            };
            return lay_out(n, j);
        }
        j -= 1;
    }
}

} // verus!
