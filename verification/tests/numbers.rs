//! Numbers as they are read and written.

use sequencer::bignat::Nat;
use sequencer::binary::double_bits_of;
use sequencer::number::{read_number, show_number, Precision, Reading};
use sequencer::ratio::Ratio;

fn magnitude(n: &Nat) -> f64 {
    n.limbs.iter().rev().fold(0.0, |acc, d| acc * 4294967296.0 + f64::from(*d))
}

fn value(r: &Ratio) -> f64 {
    let x = magnitude(&r.numerator().magnitude) / magnitude(r.denominator());
    if r.numerator().negative {
        -x
    } else {
        x
    }
}

fn chars(text: &str) -> Vec<char> {
    text.chars().collect()
}

fn agrees_single(text: &str) {
    let x: f32 = text.parse().unwrap();
    assert_eq!(show_number(&chars(text), Precision::Single), format!("{x}"), "{text}");
    match read_number(&chars(text), Precision::Single) {
        Reading::Finite(r) => assert_eq!(value(&r), f64::from(x), "{text}"),
        Reading::NotFinite => assert!(!x.is_finite(), "{text}"),
        Reading::Malformed => panic!("{text}"),
    }
}

fn agrees_double(text: &str) {
    let x: f64 = text.parse().unwrap();
    assert_eq!(show_number(&chars(text), Precision::Double), format!("{x}"), "{text}");
}

#[test]
fn single_numbers_are_written_as_they_are_read() {
    for text in [
        "0", "-0", "1", "-1", "0.1", "-0.10", "1e3", "1.5e2", "100", "123456789", "16777217",
        "2097152.25", "4194304.5", "8388608.5", "1e10", "3.4028235e38", "3.4028236e38", "4e38",
        "1.1754944e-38", "1.1754942e-38", "1e-45", "7e-46", "8e-46", "1.4e-45", "9.8e-45",
        "1e-44", "0.000001", "9999999", "0.30000001192", "1.00000001", "33554432", "1.1920929e-7",
        "5.9604645e-8", "340282356779733661637539395458142568447", "inf", "-inf", "nan", "-nan",
        "9.5367432e-7", "1267650600228229401496703205376", "0.00390625", "2.3509887e-38",
    ] {
        agrees_single(text);
    }
}

#[test]
fn single_numbers_of_every_size_are_written_alike() {
    let mut bits: u32 = 1;
    for i in 0..400u32 {
        bits = bits.wrapping_mul(1664525).wrapping_add(1013904223);
        let x = f32::from_bits(bits);
        if x.is_finite() {
            agrees_single(&format!("{x:e}"));
            agrees_single(&format!("{:e}", f64::from(x) * 1.00000003));
        }
        let power = f32::from_bits((i % 255) << 23);
        agrees_single(&format!("{power:e}"));
    }
}

#[test]
fn double_numbers_are_written_as_they_are_read() {
    for text in [
        "0", "0.1", "0.3", "1.0000000000000002", "1.00000000000000022", "123456789012345678",
        "9007199254740993", "1e21", "5e-324", "2.2250738585072014e-308", "1.7976931348623157e308",
        "1e309", "-2.5", "4503599627370497.5", "0.1e-6", "1e23", "9.5e-7", "6.02214076e23",
    ] {
        agrees_double(text);
    }
}

#[test]
fn double_numbers_of_many_sizes_are_written_alike() {
    let mut bits: u64 = 7;
    for _ in 0..12 {
        bits = bits.wrapping_mul(6364136223846793005).wrapping_add(1442695040888963407);
        let x = f64::from_bits(bits);
        if x.is_finite() {
            agrees_double(&format!("{x:e}"));
        }
    }
}

#[test]
fn bits_are_those_of_the_nearest_number() {
    for n in 0..60u64 {
        for d in 1..40u64 {
            let r = Ratio::fraction(n, d);
            assert_eq!(double_bits_of(&r), (n as f64 / d as f64).to_bits(), "{n}/{d}");
        }
    }
    let huge = |n: u32| {
        let mut r = Ratio::one();
        for _ in 0..n {
            r = r.times(&Ratio::from_u64(1 << 32));
        }
        r
    };
    let bits = |x: f64| x.to_bits();
    assert_eq!(double_bits_of(&Ratio::fraction(1, 2).negated()), bits(-0.5));
    assert_eq!(double_bits_of(&Ratio::from_u64(u64::MAX)), bits(u64::MAX as f64));
    assert_eq!(double_bits_of(&Ratio::from_u64(9007199254740993)), bits(9007199254740992.0));
    assert_eq!(double_bits_of(&Ratio::from_u64((1 << 54) - 1)), bits(18014398509481984.0));
    assert_eq!(double_bits_of(&huge(31)), bits(2f64.powi(992)));
    assert_eq!(double_bits_of(&huge(32)), bits(f64::INFINITY));
    assert_eq!(double_bits_of(&huge(40).negated()), bits(f64::NEG_INFINITY));
    let least = huge(33).times(&Ratio::from_u64(1 << 18));
    assert_eq!(double_bits_of(&Ratio::one().over(&least)), 1);
    let finest = Ratio::one().over(&huge(33));
    assert_eq!(double_bits_of(&finest), bits(2f64.powi(-1056)));
    assert_eq!(double_bits_of(&Ratio::one().over(&least.times(&Ratio::from_u64(2)))), 0);
}
