//! Singles and the arithmetic on them, held against the numbers of the machine.

use mc_renderer::arith::{
    add_singles, convert_whole, divide_singles, multiply_singles, subtract_singles, Operation,
};
use mc_renderer::single::{
    Single, EXPONENT_STEP, FIVE_EIGHTHS, FOUR, FOUR_FIFTHS, GREATEST, HALF, HUNDREDTH,
    HUNDRED_THOUSANDTH, INFINITY, LEAST, ONE, SIGN, SIXTEEN, THIRTY, THREE_FIFTHS, TWO,
    TWO_HUNDRED_FIFTY_FIVE, TWO_HUNDRED_TWENTY_FIVE, ZERO,
};

fn single(x: f32) -> Single {
    Single { bits: x.to_bits() }
}

fn float(x: Single) -> f32 {
    f32::from_bits(x.bits)
}

fn arith(op: Operation) -> Single {
    single(match op {
        Operation::Add(a, b) => float(a) + float(b),
        Operation::Subtract(a, b) => float(a) - float(b),
        Operation::Multiply(a, b) => float(a) * float(b),
        Operation::Divide(a, b) => float(a) / float(b),
        Operation::Convert(n) => n as f32,
    })
}

fn samples() -> Vec<f32> {
    let mut all = vec![
        0.0,
        -0.0,
        1.0,
        -1.0,
        0.25,
        0.49999997,
        0.5,
        0.50000006,
        0.99999994,
        1.4999999,
        1.5,
        2.5,
        63.75,
        87.5,
        126.5,
        127.49999,
        254.49998,
        254.5,
        255.0,
        255.5,
        256.0,
        257.0,
        65535.9,
        8388607.5,
        8388608.0,
        16777216.0,
        4294967040.0,
        4294967296.0,
        1.0e10,
        9.223372e18,
        1.8446743e19,
        1.8446744e19,
        1.0e30,
        f32::MAX,
        f32::MIN,
        f32::INFINITY,
        f32::NEG_INFINITY,
        f32::NAN,
        -f32::NAN,
        f32::MIN_POSITIVE,
        1.0e-45,
        -1.0e-45,
        1.0e-40,
        -3.5,
        -300.0,
    ];
    let mut bits: u32 = 12345;
    for _ in 0..2000 {
        bits = bits.wrapping_mul(1664525).wrapping_add(1013904223);
        all.push(f32::from_bits(bits));
        all.push((bits >> 8) as f32 / 65536.0);
    }
    all
}

#[test]
fn constants_are_what_they_are_called() {
    let named: [(u32, f32); 17] = [
        (ZERO, 0.0),
        (HUNDRED_THOUSANDTH, 1e-5),
        (HUNDREDTH, 0.01),
        (HALF, 0.5),
        (THREE_FIFTHS, 0.6),
        (FIVE_EIGHTHS, 0.625),
        (FOUR_FIFTHS, 0.8),
        (ONE, 1.0),
        (TWO, 2.0),
        (FOUR, 4.0),
        (SIXTEEN, 16.0),
        (THIRTY, 30.0),
        (TWO_HUNDRED_TWENTY_FIVE, 225.0),
        (TWO_HUNDRED_FIFTY_FIVE, 255.0),
        (GREATEST, f32::MAX),
        (LEAST, f32::MIN),
        (INFINITY, f32::INFINITY),
    ];
    for (bits, value) in named {
        assert_eq!(bits, value.to_bits(), "{value}");
    }
    assert_eq!(SIGN, (-0.0f32).to_bits());
    assert_eq!(EXPONENT_STEP, 2.0f32.to_bits() - 1.0f32.to_bits());
}

#[test]
fn order_is_that_of_the_machine() {
    let all = samples();
    for (i, &a) in all.iter().enumerate() {
        for &b in all.iter().skip(i % 37).step_by(37) {
            assert_eq!(single(a).less(single(b)), a < b, "{a} < {b}");
            assert_eq!(single(a).at_least(single(b)), a >= b, "{a} >= {b}");
        }
    }
}

#[test]
fn zero_and_nan_are_recognized() {
    for a in samples() {
        assert_eq!(single(a).is_zero(), a == 0.0, "{a}");
        assert_eq!(single(a).not_a_number(), a.is_nan(), "{a}");
    }
}

#[test]
fn truncation_is_that_of_the_machine() {
    for a in samples() {
        assert_eq!(single(a).truncate(u64::MAX), a as u64, "{a}");
        assert_eq!(single(a).truncate(u32::MAX as u64), a as u32 as u64, "{a}");
        assert_eq!(single(a).truncate(255), (a as u8) as u64, "{a}");
        assert_eq!(single(a).truncate(0), 0, "{a}");
    }
    assert_eq!(single(7.99).truncate(100), 7);
    assert_eq!(single(7.99).truncate(5), 5);
}

#[test]
fn rounding_is_that_of_the_machine() {
    for a in samples() {
        assert_eq!(single(a).round(), a.round() as u8, "{a}");
    }
    assert_eq!(single(0.49999997).round(), 0);
    assert_eq!(single(0.5).round(), 1);
    assert_eq!(single(127.5).round(), 128);
    assert_eq!(single(-0.5).round(), 0);
}

#[test]
fn signs_are_turned_and_dropped() {
    for a in samples() {
        assert_eq!(single(a).neg().bits, (-a).to_bits());
        assert_eq!(single(a).abs().bits, a.abs().to_bits());
    }
}

#[test]
fn lesser_and_greater_pass_over_nan() {
    let one = single(1.0);
    let two = single(2.0);
    let nan = single(f32::NAN);
    assert_eq!(one.min(two), one);
    assert_eq!(two.min(one), one);
    assert_eq!(one.max(two), two);
    assert_eq!(two.max(one), two);
    assert_eq!(nan.min(one), one);
    assert_eq!(one.min(nan), one);
    assert_eq!(nan.max(one), one);
    assert_eq!(one.max(nan), one);
    let all = samples();
    for (i, &a) in all.iter().enumerate() {
        for &b in all.iter().skip(i % 41).step_by(41) {
            if !a.is_nan() && !b.is_nan() && a != b {
                assert_eq!(single(a).min(single(b)), single(a.min(b)));
                assert_eq!(single(a).max(single(b)), single(a.max(b)));
            }
        }
    }
}

#[test]
fn operations_are_handed_to_the_arithmetic() {
    let a = single(7.0);
    let b = single(2.0);
    assert_eq!(add_singles(&arith, a, b), single(9.0));
    assert_eq!(subtract_singles(&arith, a, b), single(5.0));
    assert_eq!(multiply_singles(&arith, a, b), single(14.0));
    assert_eq!(divide_singles(&arith, a, b), single(3.5));
    assert_eq!(convert_whole(&arith, 16777217), single(16777216.0));
}
