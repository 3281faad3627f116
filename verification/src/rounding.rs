//! What numbers are read as: the nearest that the precision has.

use vstd::prelude::*;

use crate::binary::{
    binary_value, double_bits, doublings_from, finest_bits, half_even, lemma_cast_product,
    lemma_doublings, lemma_mantissa_bits, lemma_power_add, lemma_power_grows,
    lemma_power_positive, lemma_product_over, lemma_quotient_below, most_doublings, nearest,
    overflow, power, precision_bits, top_bits, BinaryView, Precision,
};
use crate::number::{
    decimal_part, digits_value, magnitude, reading, significant, DecimalView, MagnitudeView,
    ReadingView,
};
use crate::ratio::lemma_div;
use crate::text::{all_digits, digits_end, is_digit, lower, same_word};

verus! {

/// How far two numbers are apart.
pub open spec fn apart(a: real, b: real) -> real {
    if a < b {
        b - a
    } else {
        a - b
    }
}

// ---------------------------------------------------------------------------------------------
// The nearest number
// ---------------------------------------------------------------------------------------------

proof fn lemma_grid(z: real, n: int)
    ensures
        apart(half_even(z) as real, z) <= apart(n as real, z),
{
    let r = (z + 1real / 2real).floor();
    if n < r {
        assert(n as real <= r as real - 1real);
    } else if n > r {
        assert(n as real >= r as real + 1real);
    }
}

proof fn lemma_scaled_grid(w: real, q: real, n: int)
    requires
        q > 0real,
    ensures
        apart(half_even(w / q) as real * q, w) <= apart(n as real * q, w),
{
    let z = w / q;
    lemma_div(w, q);
    lemma_grid(z, n);
    lemma_scaled_apart(half_even(z) as real, z, q);
    lemma_scaled_apart(n as real, z, q);
    let a = apart(half_even(z) as real, z);
    let b = apart(n as real, z);
    assert(a * q <= b * q) by (nonlinear_arith)
        requires
            a <= b,
            q > 0real,
    ;
}

proof fn lemma_scaled_apart(a: real, b: real, q: real)
    requires
        q > 0real,
    ensures
        apart(a * q, b * q) == apart(a, b) * q,
{
    assert(a < b ==> a * q < b * q) by (nonlinear_arith)
        requires
            q > 0real,
    ;
    assert(a >= b ==> a * q >= b * q) by (nonlinear_arith)
        requires
            q > 0real,
    ;
    assert((b - a) * q == b * q - a * q) by (nonlinear_arith);
    assert((a - b) * q == a * q - b * q) by (nonlinear_arith);
}

proof fn lemma_doublings_are_needed(w: real, p: Precision, k: nat)
    requires
        k <= most_doublings(p),
    ensures
        doublings_from(w, p, k) > k ==> w >= power(
            2,
            (precision_bits(p) + doublings_from(w, p, k) - 1) as nat,
        ) as real,
    decreases most_doublings(p) - k,
{
    if k < most_doublings(p) && w >= power(2, precision_bits(p) + k) as real {
        lemma_doublings_are_needed(w, p, k + 1);
    }
}

/// The number in finest units.
spec fn in_units(b: BinaryView) -> nat {
    b.mantissa * power(2, b.doublings)
}

proof fn lemma_in_units(b: BinaryView, p: Precision)
    ensures
        binary_value(b, p) * power(2, finest_bits(p)) as real == in_units(b) as real,
{
    let f = power(2, finest_bits(p)) as real;
    let q = power(2, b.doublings);
    lemma_power_positive(2, finest_bits(p));
    lemma_cast_product(b.mantissa, q);
    lemma_product_over(b.mantissa as real, q as real, f);
    lemma_div(b.mantissa as real * q as real, f);
}

/// The units of a number below `overflow` are fewer than those of the top.
proof fn lemma_units_below_top(x: real, p: Precision)
    requires
        0real <= x < overflow(p) as real,
    ensures
        0real <= x * power(2, finest_bits(p)) as real,
        x * (power(2, finest_bits(p)) as real) < power(
            2,
            precision_bits(p) + most_doublings(p),
        ) as real,
{
    let f = power(2, finest_bits(p));
    let t = power(2, top_bits(p));
    lemma_power_positive(2, finest_bits(p));
    lemma_power_add(2, top_bits(p), finest_bits(p));
    assert(precision_bits(p) + most_doublings(p) == top_bits(p) + finest_bits(p));
    lemma_cast_product(t, f);
    lemma_power_positive(2, 103);
    lemma_power_positive(2, 970);
    assert(overflow(p) <= t) by {
        lemma_power_grows(103, 128);
        lemma_power_grows(970, 1024);
    }
    assert(x * (f as real) < (t as real) * (f as real)) by (nonlinear_arith)
        requires
            x < t as real,
            f as real > 0real,
    ;
    assert(0real <= x * f as real) by (nonlinear_arith)
        requires
            x >= 0real,
            f as real > 0real,
    ;
}

/// The units of the nearest number are the nearest multiple of its last place.
proof fn lemma_nearest_units(x: real, p: Precision)
    requires
        0real <= x < overflow(p) as real,
    ensures
        ({
            let w = x * power(2, finest_bits(p)) as real;
            let q = power(2, doublings_from(w, p, 0)) as real;
            in_units(nearest(x, p)) as real == half_even(w / q) as real * q
        }),
{
    let w = x * power(2, finest_bits(p)) as real;
    let k = doublings_from(w, p, 0);
    let q = power(2, k);
    let bits = precision_bits(p);
    lemma_units_below_top(x, p);
    lemma_doublings(w, p, 0);
    lemma_power_positive(2, k);
    lemma_power_add(2, bits, k);
    lemma_cast_product(power(2, bits), q);
    lemma_quotient_below(w, power(2, bits) as real, q as real);
    let m = half_even(w / q as real);
    assert(0 <= m <= power(2, bits));
    lemma_mantissa_bits(p);
    if m >= power(2, bits) {
        let half = power(2, (bits - 1) as nat);
        assert(power(2, k + 1) == 2 * q);
        assert(half * (2 * q) == (half * 2) * q) by (nonlinear_arith);
        assert(in_units(nearest(x, p)) == power(2, bits) * q);
    } else {
        assert(in_units(nearest(x, p)) == m as nat * q);
    }
    lemma_cast_product(m as nat, q);
}

proof fn lemma_no_other_is_nearer(x: real, p: Precision, b: BinaryView)
    requires
        0real <= x < overflow(p) as real,
        b.mantissa < power(2, precision_bits(p)),
    ensures
        ({
            let w = x * power(2, finest_bits(p)) as real;
            apart(in_units(nearest(x, p)) as real, w) <= apart(in_units(b) as real, w)
        }),
{
    let w = x * power(2, finest_bits(p)) as real;
    let k = doublings_from(w, p, 0);
    let q = power(2, k);
    let bits = precision_bits(p);
    lemma_power_positive(2, k);
    lemma_nearest_units(x, p);
    lemma_mantissa_bits(p);
    if b.doublings >= k {
        let up = (b.doublings - k) as nat;
        lemma_power_add(2, up, k);
        let n = b.mantissa * power(2, up);
        assert(b.mantissa * (power(2, up) * q) == n * q) by (nonlinear_arith)
            requires
                n == b.mantissa * power(2, up),
        ;
        lemma_cast_product(n, q);
        lemma_scaled_grid(w, q as real, n as int);
    } else {
        let half = power(2, (bits - 1) as nat);
        lemma_doublings_are_needed(w, p, 0);
        lemma_power_add(2, (bits - 1) as nat, k);
        lemma_cast_product(half, q);
        lemma_scaled_grid(w, q as real, half as int);
        lemma_power_add(2, bits, b.doublings);
        lemma_power_grows(bits + b.doublings, (bits + k - 1) as nat);
        lemma_power_positive(2, b.doublings);
        let d = power(2, b.doublings);
        let all = power(2, bits);
        assert(b.mantissa * d <= all * d) by (nonlinear_arith)
            requires
                b.mantissa < all,
                d > 0,
        ;
        assert(in_units(b) <= half * q);
    }
}

/// No number of the precision is nearer to `x` than the one that it is rounded to.
pub proof fn rounding_goes_to_the_nearest(x: real, p: Precision, b: BinaryView)
    requires
        0real <= x < overflow(p) as real,
        b.mantissa < power(2, precision_bits(p)),
    ensures
        apart(binary_value(nearest(x, p), p), x) <= apart(binary_value(b, p), x),
{
    let f = power(2, finest_bits(p)) as real;
    lemma_power_positive(2, finest_bits(p));
    lemma_no_other_is_nearer(x, p, b);
    lemma_in_units(b, p);
    lemma_in_units(nearest(x, p), p);
    let u = binary_value(nearest(x, p), p);
    let v = binary_value(b, p);
    lemma_scaled_apart(u, x, f);
    lemma_scaled_apart(v, x, f);
    let c = apart(u, x);
    let d = apart(v, x);
    assert(c <= d) by (nonlinear_arith)
        requires
            c * f <= d * f,
            f > 0real,
    ;
}

proof fn lemma_full_mantissa(x: real, p: Precision)
    requires
        0real <= x < overflow(p) as real,
    ensures
        nearest(x, p).mantissa < power(2, precision_bits(p)),
        nearest(x, p).doublings > 0 ==> nearest(x, p).mantissa >= power(
            2,
            (precision_bits(p) - 1) as nat,
        ),
        nearest(x, p).doublings <= most_doublings(p) + 1,
{
    let w = x * power(2, finest_bits(p)) as real;
    let k = doublings_from(w, p, 0);
    let q = power(2, k);
    let half = power(2, (precision_bits(p) - 1) as nat);
    lemma_units_below_top(x, p);
    lemma_doublings(w, p, 0);
    lemma_doublings_are_needed(w, p, 0);
    lemma_mantissa_bits(p);
    lemma_power_positive(2, k);
    lemma_power_add(2, precision_bits(p), k);
    lemma_cast_product(power(2, precision_bits(p)), q);
    lemma_quotient_below(w, power(2, precision_bits(p)) as real, q as real);
    if k > 0 {
        lemma_power_add(2, (precision_bits(p) - 1) as nat, k);
        lemma_cast_product(half, q);
        let z = w / q as real;
        lemma_div(w, q as real);
        assert(z >= half as real) by (nonlinear_arith)
            requires
                z * q as real >= half as real * q as real,
                q as real > 0real,
        ;
        assert(half_even(z) >= half);
    }
}

/// The bits of a number of double precision: 52 bits of the mantissa, and above them 11 of the
/// exponent, which is 1 for the finest unit of a full mantissa, whose leading one is left out, and 0
/// where there is none. Numbers below zero have the topmost bit besides.
pub proof fn bits_say_the_nearest_number(x: real)
    requires
        0real <= x < overflow(Precision::Double) as real,
    ensures
        ({
            let e = double_bits(x) as nat / 0x10_0000_0000_0000;
            let m = double_bits(x) as nat % 0x10_0000_0000_0000;
            &&& binary_value(nearest(x, Precision::Double), Precision::Double) * (power(
                2,
                1074,
            ) as real) == (if e == 0 {
                m
            } else {
                (0x10_0000_0000_0000 + m) as nat * power(2, (e - 1) as nat)
            }) as real
        }),
        x > 0real ==> double_bits(-x) == 0x8000_0000_0000_0000 + double_bits(x),
{
    let b = nearest(x, Precision::Double);
    lemma_full_mantissa(x, Precision::Double);
    lemma_mantissa_bits(Precision::Double);
    lemma_in_units(b, Precision::Double);
    let full = 0x10_0000_0000_0000nat;
    let bits = b.doublings * full + b.mantissa;
    assert(bits < 0x8000_0000_0000_0000);
    assert(double_bits(x) == bits);
    assert(power(2, 0) == 1);
    if b.mantissa < full {
        assert(b.doublings == 0);
        vstd::arithmetic::div_mod::lemma_fundamental_div_mod_converse(
            bits as int,
            full as int,
            0,
            b.mantissa as int,
        );
        assert(b.mantissa * 1 == b.mantissa);
    } else {
        vstd::arithmetic::div_mod::lemma_fundamental_div_mod_converse(
            bits as int,
            full as int,
            b.doublings as int + 1,
            b.mantissa as int - full as int,
        );
    }
}

// ---------------------------------------------------------------------------------------------
// Decimal numbers
// ---------------------------------------------------------------------------------------------

proof fn lemma_run(s: Seq<char>, i: int, j: int)
    requires
        0 <= i <= j <= s.len(),
        forall|k: int| i <= k < j ==> is_digit(#[trigger] s[k]),
        j == s.len() || !is_digit(s[j]),
    ensures
        digits_end(s, i) == j,
    decreases j - i,
{
    if i < j {
        assert(is_digit(s[i]));
        lemma_run(s, i + 1, j);
    }
}

proof fn lemma_significant(s: Seq<char>)
    ensures
        significant(s) <= s.len(),
        significant(s) == 0 ==> digits_value(s) == 0,
    decreases s.len(),
{
    if s.len() > 0 && s[0] == '0' {
        lemma_significant(s.subrange(1, s.len() as int));
        lemma_leading_zero(s);
    }
}

proof fn lemma_leading_zero(s: Seq<char>)
    requires
        s.len() > 0,
        s[0] == '0',
    ensures
        digits_value(s) == digits_value(s.subrange(1, s.len() as int)),
    decreases s.len(),
{
    let t = s.subrange(1, s.len() as int);
    if s.len() > 1 {
        lemma_leading_zero(s.drop_last());
        assert(t.drop_last() =~= s.drop_last().subrange(1, s.len() - 1));
        assert(t.last() == s.last());
    } else {
        reveal_with_fuel(digits_value, 2);
        assert(t =~= seq![]);
        assert(s.drop_last() =~= seq![]);
    }
}

proof fn lemma_no_name(s: Seq<char>)
    requires
        s.len() > 0,
        is_digit(s[0]),
    ensures
        !same_word(s, "inf"@),
        !same_word(s, "infinity"@),
        !same_word(s, "nan"@),
{
    reveal_strlit("inf");
    reveal_strlit("infinity");
    reveal_strlit("nan");
    assert(lower(s[0]) == s[0]);
    if same_word(s, "inf"@) {
        assert(lower(s[0]) == lower("inf"@[0]));
    }
    if same_word(s, "infinity"@) {
        assert(lower(s[0]) == lower("infinity"@[0]));
    }
    if same_word(s, "nan"@) {
        assert(lower(s[0]) == lower("nan"@[0]));
    }
}

proof fn lemma_decimal_part(a: Seq<char>, b: Seq<char>)
    requires
        a.len() > 0,
        all_digits(a),
        all_digits(b),
    ensures
        decimal_part(a + "."@ + b) == Some(
            DecimalView { digits: a + b, exponent: -(b.len() as int) },
        ),
        decimal_part(a) == Some(DecimalView { digits: a, exponent: 0 }),
{
    reveal_strlit(".");
    let s = a + "."@ + b;
    let i = a.len() as int;
    assert forall|k: int| 0 <= k < i implies is_digit(#[trigger] s[k]) by {
        assert(s[k] == a[k]);
    }
    assert(s[i] == '.');
    lemma_run(s, 0, i);
    assert forall|k: int| i + 1 <= k < s.len() implies is_digit(#[trigger] s[k]) by {
        assert(s[k] == b[k - i - 1]);
    }
    lemma_run(s, i + 1, s.len() as int);
    assert(s.subrange(0, i) =~= a);
    assert(s.subrange(i + 1, s.len() as int) =~= b);
    lemma_run(a, 0, i);
    assert(a.subrange(0, i) + a.subrange(i, i) =~= a);
}

/// The number that `a.b` says, `a` and `b` being digits.
pub open spec fn said(a: Seq<char>, b: Seq<char>) -> real {
    digits_value(a + b) as real / power(10, b.len()) as real
}

proof fn lemma_magnitude(a: Seq<char>, b: Seq<char>, p: Precision)
    requires
        a.len() > 0,
        all_digits(a),
        all_digits(b),
        a.len() <= 400,
        b.len() <= 400,
        said(a, b) < overflow(p) as real,
    ensures
        said(a, b) >= 0real,
        exists|r: BinaryView|
            {
                &&& magnitude(a + "."@ + b, p) == MagnitudeView::Finite(r)
                &&& forall|c: BinaryView|
                    c.mantissa < power(2, precision_bits(p)) ==> apart(
                        binary_value(r, p),
                        said(a, b),
                    ) <= apart(#[trigger] binary_value(c, p), said(a, b))
            },
{
    reveal_strlit(".");
    let s = a + "."@ + b;
    assert(s[0] == a[0]);
    assert(is_digit(a[0]));
    lemma_no_name(s);
    lemma_decimal_part(a, b);
    let d = a + b;
    let x = said(a, b);
    let t = power(10, b.len()) as real;
    lemma_power_positive(10, b.len());
    lemma_div(digits_value(d) as real, t);
    assert(x >= 0real) by (nonlinear_arith)
        requires
            x * t >= 0real,
            t > 0real,
    ;
    lemma_significant(d);
    let zero = BinaryView { mantissa: 0, doublings: 0 };
    if significant(d) == 0 {
        assert(x == 0real) by (nonlinear_arith)
            requires
                x * t == 0real,
                t > 0real,
        ;
        lemma_power_positive(2, finest_bits(p));
        assert(binary_value(zero, p) == 0real) by (nonlinear_arith)
            requires
                binary_value(zero, p) == 0real * crate::binary::unit(zero, p),
        ;
        assert(magnitude(s, p) == MagnitudeView::Finite(zero));
    } else {
        assert(magnitude(s, p) == MagnitudeView::Finite(nearest(x, p))) by {
            if b.len() == 0 {
                assert(power(10, 0) == 1);
                assert(x == digits_value(d) as real) by (nonlinear_arith)
                    requires
                        x * t == digits_value(d) as real,
                        t == 1real,
                ;
                assert(digits_value(d) * 1 == digits_value(d));
            }
        }
        assert forall|c: BinaryView| c.mantissa < power(2, precision_bits(p)) implies apart(
            binary_value(nearest(x, p), p),
            x,
        ) <= apart(#[trigger] binary_value(c, p), x) by {
            rounding_goes_to_the_nearest(x, p, c);
        }
    }
}

/// `a.b` is read as the number of the precision that is nearest to the decimal number that it says;
/// with a minus before it, as that below zero; with a plus, as that.
pub proof fn decimals_are_read_as_the_nearest_number(a: Seq<char>, b: Seq<char>, p: Precision)
    requires
        a.len() > 0,
        all_digits(a),
        all_digits(b),
        a.len() <= 400,
        b.len() <= 400,
        said(a, b) < overflow(p) as real,
    ensures
        reading(a + "."@ + b, p) is Finite,
        ({
            let x = reading(a + "."@ + b, p)->Finite_0;
            &&& forall|c: BinaryView|
                c.mantissa < power(2, precision_bits(p)) ==> apart(x, said(a, b)) <= apart(
                    #[trigger] binary_value(c, p),
                    said(a, b),
                )
            &&& reading("-"@ + (a + "."@ + b), p) == ReadingView::Finite(-x)
            &&& reading("+"@ + (a + "."@ + b), p) == ReadingView::Finite(x)
        }),
{
    reveal_strlit("-");
    reveal_strlit("+");
    reveal_strlit(".");
    let s = a + "."@ + b;
    assert(s[0] == a[0]);
    assert(is_digit(a[0]));
    lemma_magnitude(a, b, p);
    let m = "-"@ + s;
    let q = "+"@ + s;
    assert(m.subrange(1, m.len() as int) =~= s);
    assert(q.subrange(1, q.len() as int) =~= s);
    assert(m[0] == '-' && q[0] == '+');
}

} // verus!
