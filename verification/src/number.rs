//! Reading integers and decimal numbers.

use vstd::prelude::*;
use vstd::string::StringExecFns;

use crate::bignat::{Nat, Signed};
use crate::binary::{
    binary_value, fits, lemma_power_positive, nearest, nearest_to, overflow, overflow_of, power,
    power_of, precision_bits, value_of, write_binary, written, Binary, BinaryView,
};
use crate::ratio::{lemma_div, Ratio};
use crate::text::{
    after_digits, all_digits, chars_between, digit, digit_value, digits_end, is_digit, is_word,
    join2, lemma_digits_end, same_word, text_of,
};

pub use crate::binary::Precision;

verus! {

/// The number that a run of digits stands for.
pub open spec fn digits_value(s: Seq<char>) -> nat
    decreases s.len(),
{
    if s.len() == 0 {
        0
    } else {
        (10 * digits_value(s.drop_last()) + digit_value(s.last())) as nat
    }
}

/// The digits after an optional `+`.
pub open spec fn after_plus(s: Seq<char>) -> Seq<char> {
    if s.len() > 0 && s[0] == '+' {
        s.subrange(1, s.len() as int)
    } else {
        s
    }
}

/// A natural number up to `max`: digits, after an optional `+`.
pub open spec fn unsigned(s: Seq<char>, max: nat) -> Option<nat> {
    let d = after_plus(s);
    if d.len() > 0 && all_digits(d) && digits_value(d) <= max {
        Some(digits_value(d))
    } else {
        None
    }
}

/// An integer from `-2^31` up to `2^31 - 1`: digits, after an optional sign.
pub open spec fn signed(s: Seq<char>) -> Option<int> {
    if s.len() > 0 && s[0] == '-' {
        let d = s.subrange(1, s.len() as int);
        if d.len() > 0 && all_digits(d) && digits_value(d) <= 0x8000_0000 {
            Some(-(digits_value(d) as int))
        } else {
            None
        }
    } else {
        match unsigned(s, 0x7fff_ffff) {
            Some(n) => Some(n as int),
            None => None,
        }
    }
}

proof fn lemma_digits_value_take(s: Seq<char>, i: int)
    requires
        0 <= i < s.len(),
    ensures
        digits_value(s.take(i + 1)) == (10 * digits_value(s.take(i)) + digit_value(s[i])) as nat,
{
    assert(s.take(i + 1).drop_last() =~= s.take(i));
}

proof fn lemma_digits_value_grows(s: Seq<char>, i: int)
    requires
        0 <= i <= s.len(),
        all_digits(s),
    ensures
        digits_value(s.take(i)) <= digits_value(s),
    decreases s.len() - i,
{
    if i < s.len() {
        lemma_digits_value_take(s, i);
        lemma_digits_value_grows(s, i + 1);
    } else {
        assert(s.take(i) =~= s);
    }
}

/// The digits `d` as a number up to `max`.
fn digits_up_to(d: &[char], max: u64) -> (r: Option<u64>)
    ensures
        r == (if d@.len() > 0 && all_digits(d@) && digits_value(d@) <= max {
            Some(digits_value(d@) as u64)
        } else {
            None
        }),
{
    if d.len() == 0 {
        return None;
    }
    let mut n: u64 = 0;
    let mut i: usize = 0;
    while i < d.len()
        invariant
            i <= d@.len(),
            n <= max,
            n == digits_value(d@.take(i as int)),
            forall|k: int| 0 <= k < i ==> is_digit(#[trigger] d@[k]),
        decreases d@.len() - i,
    {
        let c = d[i];
        if !digit(c) {
            return None;
        }
        let x: u64 = (c as u8 - 48) as u64;
        proof {
            lemma_digits_value_take(d@, i as int);
            if all_digits(d@) {
                lemma_digits_value_grows(d@, i + 1);
            }
        }
        if x > max || n > max / 10 || n * 10 > max - x {
            return None;
        }
        n = n * 10 + x;
        i += 1;
    }
    assert(d@.take(i as int) =~= d@);
    Some(n)
}

/// A natural number of no more than `max`, with an optional plus sign.
pub fn read_unsigned(s: &[char], max: u64) -> (r: Option<u64>)
    ensures
        r is Some == unsigned(s@, max as nat) is Some,
        r is Some ==> r->0 == unsigned(s@, max as nat)->0 && r->0 <= max,
{
    if s.len() > 0 && s[0] == '+' {
        let d = chars_between(s, 1, s.len());
        digits_up_to(d.as_slice(), max)
    } else {
        digits_up_to(s, max)
    }
}

pub fn read_u32(s: &[char]) -> (r: Option<u32>)
    ensures
        r is Some == unsigned(s@, u32::MAX as nat) is Some,
        r is Some ==> r->0 == unsigned(s@, u32::MAX as nat)->0,
{
    match read_unsigned(s, 0xffff_ffff) {
        Some(n) => Some(n as u32),
        None => None,
    }
}

pub fn read_i32(s: &[char]) -> (r: Option<i32>)
    ensures
        r is Some == signed(s@) is Some,
        r is Some ==> r->0 == signed(s@)->0,
{
    if s.len() > 0 && s[0] == '-' {
        let d = chars_between(s, 1, s.len());
        match digits_up_to(d.as_slice(), 0x8000_0000) {
            Some(n) => Some((-(n as i64)) as i32),
            None => None,
        }
    } else {
        match read_unsigned(s, 0x7fff_ffff) {
            Some(n) => Some(n as i32),
            None => None,
        }
    }
}

// ---------------------------------------------------------------------------------------------
// Decimal numbers
// ---------------------------------------------------------------------------------------------

/// What a text says when it is read as a number.
#[verifier::ext_equal]
pub enum ReadingView {
    /// It is no number.
    Malformed,
    /// It is an infinity, no number at all, or too large for the precision.
    NotFinite,
    /// The nearest number of the precision.
    Finite(real),
}

#[derive(Debug)]
pub enum Reading {
    Malformed,
    NotFinite,
    Finite(Ratio),
}

impl View for Reading {
    type V = ReadingView;

    open spec fn view(&self) -> ReadingView {
        match self {
            Reading::Malformed => ReadingView::Malformed,
            Reading::NotFinite => ReadingView::NotFinite,
            Reading::Finite(x) => ReadingView::Finite(x@),
        }
    }
}

/// Exponents are read up to this magnitude; no number of that size is finite.
pub const EXPONENT_CAP: i128 = 1_000_000_000_000_000_000_000_000_000_000;

pub open spec fn capped(n: nat) -> int {
    if n > EXPONENT_CAP {
        EXPONENT_CAP as int
    } else {
        n as int
    }
}

/// `digits * 10^exponent`, written `d...d`, `d...d.d...d` or `.d...d`, with an optional `e...`.
pub struct DecimalView {
    pub digits: Seq<char>,
    pub exponent: int,
}

/// The exponent part `e...` of `b` from position `f` on.
pub open spec fn exponent_part(b: Seq<char>, f: int) -> Option<int> {
    if f >= b.len() {
        Some(0)
    } else if b[f] == 'e' || b[f] == 'E' {
        let sign = f + 1 < b.len() && (b[f + 1] == '+' || b[f + 1] == '-');
        let g = if sign {
            f + 2
        } else {
            f + 1
        };
        if g < b.len() && digits_end(b, g) == b.len() {
            let n = capped(digits_value(b.subrange(g, b.len() as int)));
            if b[f + 1] == '-' {
                Some(-n)
            } else {
                Some(n)
            }
        } else {
            None
        }
    } else {
        None
    }
}

/// An unsigned decimal number.
pub open spec fn decimal_part(b: Seq<char>) -> Option<DecimalView> {
    let i = digits_end(b, 0);
    let dot = i < b.len() && b[i] == '.';
    let f0 = if dot {
        i + 1
    } else {
        i
    };
    let f = if dot {
        digits_end(b, f0)
    } else {
        i
    };
    if i == 0 && f == f0 {
        None
    } else {
        match exponent_part(b, f) {
            Some(e) => Some(
                DecimalView { digits: b.subrange(0, i) + b.subrange(f0, f), exponent: e - (f - f0) },
            ),
            None => None,
        }
    }
}

/// The number of digits from the first one that is not zero on.
pub open spec fn significant(s: Seq<char>) -> nat
    decreases s.len(),
{
    if s.len() == 0 {
        0
    } else if s[0] == '0' {
        significant(s.subrange(1, s.len() as int))
    } else {
        s.len()
    }
}

/// `m * 10^e`.
pub open spec fn scaled(m: nat, e: int) -> real {
    if e >= 0 {
        (m * power(10, e as nat)) as real
    } else {
        m as real / power(10, (-e) as nat) as real
    }
}

/// Orders of magnitude beyond this one are infinite, or zero, at any precision.
pub const ORDER_LIMIT: i128 = 400;

/// What a text without a sign says when it is read as a number.
pub enum MagnitudeView {
    /// It is no number.
    Malformed,
    /// It says that it is not a number.
    Nan,
    /// An infinity, or too large for the precision.
    Infinite,
    /// The nearest number of the precision.
    Finite(BinaryView),
}

/// A decimal number at a precision.
pub open spec fn decimal_magnitude(d: DecimalView, p: Precision) -> MagnitudeView {
    let order = significant(d.digits) + d.exponent;
    if significant(d.digits) == 0 || order < -ORDER_LIMIT {
        MagnitudeView::Finite(BinaryView { mantissa: 0, doublings: 0 })
    } else if order > ORDER_LIMIT {
        MagnitudeView::Infinite
    } else {
        let x = scaled(digits_value(d.digits), d.exponent);
        if overflow(p) as real <= x {
            MagnitudeView::Infinite
        } else {
            MagnitudeView::Finite(nearest(x, p))
        }
    }
}

/// What `b` says as a number: `inf`, `infinity`, `nan` or a decimal number.
pub open spec fn magnitude(b: Seq<char>, p: Precision) -> MagnitudeView {
    if same_word(b, "inf"@) || same_word(b, "infinity"@) {
        MagnitudeView::Infinite
    } else if same_word(b, "nan"@) {
        MagnitudeView::Nan
    } else {
        match decimal_part(b) {
            None => MagnitudeView::Malformed,
            Some(d) => decimal_magnitude(d, p),
        }
    }
}

/// The text without a sign before it.
pub open spec fn unsigned_part(s: Seq<char>) -> Seq<char> {
    if s.len() > 0 && (s[0] == '+' || s[0] == '-') {
        s.subrange(1, s.len() as int)
    } else {
        s
    }
}

pub open spec fn has_minus(s: Seq<char>) -> bool {
    s.len() > 0 && s[0] == '-'
}

/// What `s` says as a number, after an optional sign.
pub open spec fn reading(s: Seq<char>, p: Precision) -> ReadingView {
    match magnitude(unsigned_part(s), p) {
        MagnitudeView::Malformed => ReadingView::Malformed,
        MagnitudeView::Nan => ReadingView::NotFinite,
        MagnitudeView::Infinite => ReadingView::NotFinite,
        MagnitudeView::Finite(b) => ReadingView::Finite(
            if has_minus(s) {
                -binary_value(b, p)
            } else {
                binary_value(b, p)
            },
        ),
    }
}

/// A sign, where there is a minus.
pub open spec fn minus_sign(negative: bool) -> Seq<char> {
    if negative {
        "-"@
    } else {
        ""@
    }
}

/// How the number is written that `s` is read as.
pub open spec fn shown(s: Seq<char>, p: Precision) -> Seq<char> {
    match magnitude(unsigned_part(s), p) {
        MagnitudeView::Malformed => s,
        MagnitudeView::Nan => "NaN"@,
        MagnitudeView::Infinite => minus_sign(has_minus(s)) + "inf"@,
        MagnitudeView::Finite(b) => minus_sign(has_minus(s)) + written(b, p),
    }
}

fn digits_nat(d: &[char]) -> (r: Nat)
    requires
        all_digits(d@),
    ensures
        r@ == digits_value(d@),
{
    let mut acc = Nat::zero();
    let mut i: usize = 0;
    while i < d.len()
        invariant
            i <= d@.len(),
            all_digits(d@),
            acc@ == digits_value(d@.take(i as int)),
        decreases d@.len() - i,
    {
        assert(is_digit(d@[i as int]));
        let x: u64 = (d[i] as u8 - 48) as u64;
        proof {
            lemma_digits_value_take(d@, i as int);
        }
        acc = acc.times_small(10).plus(&Nat::from_u64(x));
        i += 1;
    }
    assert(d@.take(i as int) =~= d@);
    acc
}

fn capped_digits(d: &[char]) -> (r: i128)
    requires
        all_digits(d@),
    ensures
        r == capped(digits_value(d@)),
        0 <= r <= EXPONENT_CAP,
{
    let mut n: i128 = 0;
    let mut i: usize = 0;
    while i < d.len()
        invariant
            i <= d@.len(),
            all_digits(d@),
            n == capped(digits_value(d@.take(i as int))),
            0 <= n <= EXPONENT_CAP,
        decreases d@.len() - i,
    {
        assert(is_digit(d@[i as int]));
        let x: i128 = (d[i] as u8 - 48) as i128;
        proof {
            lemma_digits_value_take(d@, i as int);
        }
        let t: i128 = n * 10 + x;
        n = if t > EXPONENT_CAP {
            EXPONENT_CAP
        } else {
            t
        };
        i += 1;
    }
    assert(d@.take(i as int) =~= d@);
    n
}

fn count_significant(d: &[char]) -> (r: usize)
    ensures
        r == significant(d@),
        r <= d@.len(),
{
    let mut i: usize = 0;
    assert(d@.skip(0) =~= d@);
    while i < d.len() && d[i] == '0'
        invariant
            i <= d@.len(),
            significant(d@) == significant(d@.skip(i as int)),
        decreases d@.len() - i,
    {
        proof {
            let t = d@.skip(i as int);
            assert(t[0] == d@[i as int]);
            assert(t.subrange(1, t.len() as int) =~= d@.skip(i + 1));
        }
        i += 1;
    }
    proof {
        let t = d@.skip(i as int);
        if i < d@.len() {
            assert(t[0] == d@[i as int]);
        }
    }
    d.len() - i
}

/// The exponent part of `b` from `f` on.
fn read_exponent(b: &[char], f: usize) -> (r: Option<i128>)
    requires
        f <= b@.len(),
    ensures
        r is Some == exponent_part(b@, f as int) is Some,
        r is Some ==> r->0 == exponent_part(b@, f as int)->0 && -EXPONENT_CAP <= r->0
            <= EXPONENT_CAP,
{
    if f >= b.len() {
        return Some(0);
    }
    if b[f] != 'e' && b[f] != 'E' {
        return None;
    }
    let sign: bool = f + 1 < b.len() && (b[f + 1] == '+' || b[f + 1] == '-');
    let g: usize = if sign {
        f + 2
    } else {
        f + 1
    };
    if g >= b.len() {
        return None;
    }
    let h = after_digits(b, g);
    if h != b.len() {
        return None;
    }
    let d = chars_between(b, g, h);
    proof {
        lemma_digits_end(b@, g as int);
        assert forall|k: int| 0 <= k < d@.len() implies is_digit(#[trigger] d@[k]) by {
            assert(is_digit(b@[g + k]));
        }
    }
    let n = capped_digits(d.as_slice());
    if b[f + 1] == '-' {
        Some(-n)
    } else {
        Some(n)
    }
}

enum Magnitude {
    Malformed,
    Nan,
    Infinite,
    Finite(Binary),
}

impl View for Magnitude {
    type V = MagnitudeView;

    closed spec fn view(&self) -> MagnitudeView {
        match self {
            Magnitude::Malformed => MagnitudeView::Malformed,
            Magnitude::Nan => MagnitudeView::Nan,
            Magnitude::Infinite => MagnitudeView::Infinite,
            Magnitude::Finite(b) => MagnitudeView::Finite(b@),
        }
    }
}

/// What is finite has no more bits than it may.
closed spec fn magnitude_fits(m: MagnitudeView, p: Precision) -> bool {
    m is Finite ==> fits(m->Finite_0, p)
}

fn read_decimal(digits: &[char], exponent: i128, p: Precision) -> (r: Magnitude)
    requires
        all_digits(digits@),
        -2 * EXPONENT_CAP <= exponent <= EXPONENT_CAP,
    ensures
        r@ == decimal_magnitude((DecimalView { digits: digits@, exponent: exponent as int }), p),
        magnitude_fits(r@, p),
{
    let n = count_significant(digits);
    let zero = Binary { mantissa: 0, doublings: 0 };
    proof {
        lemma_power_positive(2, precision_bits(p));
    }
    if n == 0 {
        return Magnitude::Finite(zero);
    }
    let order: i128 = n as i128 + exponent;
    if order < -ORDER_LIMIT {
        return Magnitude::Finite(zero);
    }
    if order > ORDER_LIMIT {
        return Magnitude::Infinite;
    }
    let m = digits_nat(digits);
    let x = if exponent >= 0 {
        let scale = power_of(10, exponent as u128);
        Ratio::new(Signed::from_nat(m.times(&scale)), Nat::from_u64(1))
    } else {
        let scale = power_of(10, (-exponent) as u128);
        Ratio::new(Signed::from_nat(m), scale)
    };
    proof {
        let t = (digits_value(digits@) * power(10, exponent as nat)) as real;
        assert(t / 1real == t);
        assert(x@ == scaled(digits_value(digits@), exponent as int));
        if exponent < 0 {
            lemma_power_positive(10, (-exponent) as nat);
            lemma_not_negative(
                digits_value(digits@) as real,
                power(10, (-exponent) as nat) as real,
            );
        }
    }
    let top = Ratio::new(Signed::from_nat(overflow_of(p)), Nat::from_u64(1));
    if top.at_most(&x) {
        return Magnitude::Infinite;
    }
    Magnitude::Finite(nearest_to(&x, p))
}

proof fn lemma_not_negative(a: real, b: real)
    requires
        a >= 0real,
        b > 0real,
    ensures
        a / b >= 0real,
{
    let x = a / b;
    lemma_div(a, b);
    assert(x >= 0real) by (nonlinear_arith)
        requires
            x * b >= 0real,
            b > 0real,
    ;
}

fn read_magnitude(b: &[char], p: Precision) -> (r: Magnitude)
    ensures
        r@ == magnitude(b@, p),
        magnitude_fits(r@, p),
{
    if is_word(b, "inf") || is_word(b, "infinity") {
        return Magnitude::Infinite;
    }
    if is_word(b, "nan") {
        return Magnitude::Nan;
    }
    let i = after_digits(b, 0);
    let dot: bool = i < b.len() && b[i] == '.';
    let f0: usize = if dot {
        i + 1
    } else {
        i
    };
    let f: usize = if dot {
        after_digits(b, f0)
    } else {
        i
    };
    proof {
        lemma_digits_end(b@, 0);
        if dot {
            lemma_digits_end(b@, f0 as int);
        }
    }
    if i == 0 && f == f0 {
        return Magnitude::Malformed;
    }
    let e = match read_exponent(b, f) {
        Some(e) => e,
        None => {
            return Magnitude::Malformed;
        },
    };
    let mut digits = chars_between(b, 0, i);
    let mut rest = chars_between(b, f0, f);
    digits.append(&mut rest);
    proof {
        assert(digits@ =~= b@.subrange(0, i as int) + b@.subrange(f0 as int, f as int));
        assert forall|k: int| 0 <= k < digits@.len() implies is_digit(#[trigger] digits@[k]) by {
            if k < i {
                assert(is_digit(b@[k]));
            } else {
                assert(is_digit(b@[f0 + k - i]));
            }
        }
    }
    read_decimal(digits.as_slice(), e - (f - f0) as i128, p)
}

fn without_sign(s: &[char]) -> (r: Vec<char>)
    ensures
        r@ == unsigned_part(s@),
{
    let start: usize = if s.len() > 0 && (s[0] == '+' || s[0] == '-') {
        1
    } else {
        0
    };
    let r = chars_between(s, start, s.len());
    assert(start == 0 ==> r@ =~= s@);
    r
}

/// What `s` says as a number.
pub fn read_number(s: &[char], p: Precision) -> (r: Reading)
    ensures
        r@ == reading(s@, p),
{
    let body = without_sign(s);
    match read_magnitude(body.as_slice(), p) {
        Magnitude::Malformed => Reading::Malformed,
        Magnitude::Nan => Reading::NotFinite,
        Magnitude::Infinite => Reading::NotFinite,
        Magnitude::Finite(b) => {
            let x = value_of(b, p);
            if s.len() > 0 && s[0] == '-' {
                Reading::Finite(x.negated())
            } else {
                Reading::Finite(x)
            }
        },
    }
}

/// How the number is written that `s` is read as.
pub fn show_number(s: &[char], p: Precision) -> (r: String)
    ensures
        r@ == shown(s@, p),
{
    let body = without_sign(s);
    let minus = if s.len() > 0 && s[0] == '-' {
        "-"
    } else {
        ""
    };
    match read_magnitude(body.as_slice(), p) {
        Magnitude::Malformed => text_of(s),
        Magnitude::Nan => String::from_str("NaN"),
        Magnitude::Infinite => join2(minus, "inf"),
        Magnitude::Finite(b) => {
            let text = write_binary(b, p);
            join2(minus, text.as_str())
        },
    }
}

} // verus!
