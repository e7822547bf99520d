use infix_parser::binary64::{
    difference, negate, product, quotient, sum, INFINITY_BITS, NAN_BITS, SIGN_BIT,
};
use infix_parser::rounding::round_quotient;
use infix_parser::natural::{Natural, Relation};

fn same(ours: u64, theirs: f64) -> bool {
    if theirs.is_nan() {
        f64::from_bits(ours).is_nan()
    } else {
        ours == theirs.to_bits()
    }
}

fn next(state: &mut u64) -> u64 {
    *state = state.wrapping_mul(6364136223846793005).wrapping_add(1442695040888963407);
    let high = *state >> 11;
    *state = state.wrapping_mul(6364136223846793005).wrapping_add(1442695040888963407);
    (high << 32) ^ (*state >> 13)
}

/// A number whose exponent lies near that of one, so that sums and
/// products of two of them are seldom trivial.
fn moderate(state: &mut u64) -> f64 {
    let raw = next(state);
    let fraction = raw & 0x000F_FFFF_FFFF_FFFF;
    let exponent = 1023 - 40 + (raw >> 52) % 80;
    let sign = raw & SIGN_BIT;
    f64::from_bits(sign | (exponent << 52) | fraction)
}

fn special_values() -> Vec<f64> {
    vec![
        0.0,
        -0.0,
        1.0,
        -1.0,
        2.0,
        0.5,
        3.0,
        0.1,
        0.2,
        0.3,
        1.0e-320,
        -4.9e-324,
        4.9e-324,
        2.2250738585072014e-308,
        2.225073858507201e-308,
        1.7976931348623157e308,
        -1.7976931348623157e308,
        8.98846567431158e307,
        f64::INFINITY,
        f64::NEG_INFINITY,
        f64::NAN,
        9007199254740992.0,
        9007199254740993.0,
        9007199254740991.0,
        1.0e16,
        1.0e-16,
        1.0000000000000002,
        0.9999999999999999,
        6.0e23,
        1.5e-300,
        1.5e300,
    ]
}

#[test]
fn sum_of_tenths() {
    assert_eq!(sum(0.1f64.to_bits(), 0.2f64.to_bits()), 0.30000000000000004f64.to_bits());
    assert_eq!(sum(1.0f64.to_bits(), 2.0f64.to_bits()), 3.0f64.to_bits());
}

#[test]
fn sum_matches_hardware_on_special_values() {
    let values = special_values();
    for x in values.iter() {
        for y in values.iter() {
            assert!(same(sum(x.to_bits(), y.to_bits()), x + y), "{:?} + {:?}", x, y);
        }
    }
}

#[test]
fn difference_matches_hardware_on_special_values() {
    let values = special_values();
    for x in values.iter() {
        for y in values.iter() {
            assert!(same(difference(x.to_bits(), y.to_bits()), x - y), "{:?} - {:?}", x, y);
        }
    }
}

#[test]
fn product_matches_hardware_on_special_values() {
    let values = special_values();
    for x in values.iter() {
        for y in values.iter() {
            assert!(same(product(x.to_bits(), y.to_bits()), x * y), "{:?} * {:?}", x, y);
        }
    }
}

#[test]
fn quotient_matches_hardware_on_special_values() {
    let values = special_values();
    for x in values.iter() {
        for y in values.iter() {
            assert!(same(quotient(x.to_bits(), y.to_bits()), x / y), "{:?} / {:?}", x, y);
        }
    }
}

#[test]
fn sum_matches_hardware_on_moderate_values() {
    let mut state: u64 = 1;
    for _ in 0..400 {
        let x = moderate(&mut state);
        let y = moderate(&mut state);
        assert!(same(sum(x.to_bits(), y.to_bits()), x + y), "{:?} + {:?}", x, y);
        assert!(same(difference(x.to_bits(), y.to_bits()), x - y), "{:?} - {:?}", x, y);
    }
}

#[test]
fn product_matches_hardware_on_moderate_values() {
    let mut state: u64 = 2;
    for _ in 0..150 {
        let x = moderate(&mut state);
        let y = moderate(&mut state);
        assert!(same(product(x.to_bits(), y.to_bits()), x * y), "{:?} * {:?}", x, y);
    }
}

#[test]
fn quotient_matches_hardware_on_moderate_values() {
    let mut state: u64 = 3;
    for _ in 0..150 {
        let x = moderate(&mut state);
        let y = moderate(&mut state);
        assert!(same(quotient(x.to_bits(), y.to_bits()), x / y), "{:?} / {:?}", x, y);
    }
}

#[test]
fn sum_matches_hardware_on_any_bits() {
    let mut state: u64 = 4;
    for _ in 0..300 {
        let x = f64::from_bits(next(&mut state));
        let y = f64::from_bits(next(&mut state));
        assert!(same(sum(x.to_bits(), y.to_bits()), x + y), "{:?} + {:?}", x, y);
    }
}

#[test]
fn product_and_quotient_match_hardware_on_any_bits() {
    let mut state: u64 = 5;
    for _ in 0..60 {
        let x = f64::from_bits(next(&mut state));
        let y = f64::from_bits(next(&mut state));
        assert!(same(product(x.to_bits(), y.to_bits()), x * y), "{:?} * {:?}", x, y);
        assert!(same(quotient(x.to_bits(), y.to_bits()), x / y), "{:?} / {:?}", x, y);
    }
}

#[test]
fn results_near_the_smallest_numbers() {
    let tiny = 4.9e-324f64;
    let cases: [(f64, f64); 5] = [(tiny, 0.5), (tiny, 0.25), (tiny * 3.0, 0.5), (2.0e-308, 0.3), (1.0e-200, 1.0e-200)];
    for (x, y) in cases.iter() {
        assert!(same(product(x.to_bits(), y.to_bits()), x * y), "{:?} * {:?}", x, y);
        assert!(same(quotient(x.to_bits(), (1.0 / y).to_bits()), x / (1.0 / y)));
    }
}

#[test]
fn negate_flips_the_sign_only() {
    assert_eq!(negate(5.0f64.to_bits()), (-5.0f64).to_bits());
    assert_eq!(negate((-5.0f64).to_bits()), 5.0f64.to_bits());
    assert_eq!(negate(0), SIGN_BIT);
    assert_eq!(negate(INFINITY_BITS), f64::NEG_INFINITY.to_bits());
    assert_eq!(negate(NAN_BITS), NAN_BITS | SIGN_BIT);
}

#[test]
fn one_over_zero_is_infinite() {
    assert_eq!(quotient(1.0f64.to_bits(), 0.0f64.to_bits()), f64::INFINITY.to_bits());
    assert_eq!(quotient((-1.0f64).to_bits(), 0.0f64.to_bits()), f64::NEG_INFINITY.to_bits());
    assert_eq!(quotient(0, 0), NAN_BITS);
}

#[test]
fn rounding_goes_to_the_even_neighbour_on_a_tie() {
    // 2^53 + 1 lies midway between 2^53 and 2^53 + 2.
    let mut a = Natural::from_u128(9007199254740993);
    a.shift_left(1074);
    let one = Natural::from_u128(1);
    assert_eq!(round_quotient(&a, &one), 9007199254740992.0f64.to_bits());
    let mut b = Natural::from_u128(9007199254740995);
    b.shift_left(1074);
    assert_eq!(round_quotient(&b, &one), 9007199254740996.0f64.to_bits());
    // one third
    let mut c = Natural::from_u128(1);
    c.shift_left(1074);
    assert_eq!(round_quotient(&c, &Natural::from_u128(3)), (1.0f64 / 3.0).to_bits());
}

#[test]
fn natural_numbers_add_subtract_and_compare() {
    let mut state: u64 = 6;
    for _ in 0..200 {
        let x = (next(&mut state) as u128) << (next(&mut state) % 60);
        let y = (next(&mut state) as u128) >> (next(&mut state) % 64);
        let a = Natural::from_u128(x);
        let b = Natural::from_u128(y);
        assert_eq!(a.add(&b), Natural::from_u128(x + y));
        let expected = if x < y {
            Relation::Below
        } else if x == y {
            Relation::Equal
        } else {
            Relation::Above
        };
        assert_eq!(a.relation(&b), expected);
        if x >= y {
            assert_eq!(a.sub(&b), Natural::from_u128(x - y));
        } else {
            assert_eq!(b.sub(&a), Natural::from_u128(y - x));
        }
        assert_eq!(a.times_ten_plus(7), Natural::from_u128(10 * x + 7));
    }
    assert!(Natural::zero().is_zero());
    assert!(!Natural::from_u128(1).is_zero());
    assert_eq!(Natural::from_u128(5).bits, vec![true, false, true]);
}

#[test]
fn no_neighbour_is_nearer_than_the_rounded_value() {
    let mut state: u64 = 7;
    for _ in 0..200 {
        let a = (next(&mut state) | (1 << 62)) as u128;
        let b = (next(&mut state) % 255 + 1) as u128;
        let mut exact = Natural::from_u128(a);
        exact.shift_left(1074);
        let rounded = round_quotient(&exact, &Natural::from_u128(b));
        let distance = |bits: u64| -> u128 {
            let value = f64::from_bits(bits) as u128;
            let scaled = value * b;
            if scaled >= a { scaled - a } else { a - scaled }
        };
        assert!(distance(rounded) <= distance(rounded + 1), "{} / {}", a, b);
        assert!(distance(rounded) <= distance(rounded - 1), "{} / {}", a, b);
        if distance(rounded) == distance(rounded + 1) || distance(rounded) == distance(rounded - 1) {
            assert_eq!(rounded % 2, 0, "{} / {}", a, b);
        }
    }
}

#[test]
fn a_value_that_needs_no_rounding_is_kept() {
    let mut state: u64 = 8;
    let unit = Natural::from_u128(1);
    let three = Natural::from_u128(3);
    for value in special_values() {
        let bits = value.to_bits();
        if value.is_finite() {
            assert_eq!(sum(bits, 0), if bits == SIGN_BIT { 0 } else { bits });
            assert_eq!(product(bits, 1.0f64.to_bits()), bits);
            assert_eq!(quotient(bits, 1.0f64.to_bits()), bits);
        }
    }
    for _ in 0..100 {
        let significand = next(&mut state) >> 11;
        let exponent = (next(&mut state) % 2000) as usize;
        let mut value = Natural::from_u128(significand as u128);
        value.shift_left(exponent);
        let kept = round_quotient(&value, &unit);
        let tripled = value.add(&value).add(&value);
        assert_eq!(round_quotient(&tripled, &three), kept);
    }
}

#[test]
fn infinity_begins_half_a_step_beyond_the_largest_number() {
    let largest = 0x7FEF_FFFF_FFFF_FFFFu64;
    assert_eq!(f64::from_bits(largest), f64::MAX);
    let two = Natural::from_u128(2);
    let mut threshold = Natural::from_u128((1u128 << 54) - 1);
    threshold.shift_left(2045);
    assert_eq!(round_quotient(&threshold, &two), INFINITY_BITS);
    let below = threshold.sub(&Natural::from_u128(1));
    assert_eq!(round_quotient(&below, &two), largest);
    let above = threshold.add(&Natural::from_u128(1));
    assert_eq!(round_quotient(&above, &two), INFINITY_BITS);
    assert_eq!(sum(largest, largest), INFINITY_BITS);
    assert_eq!(product(largest, 2.0f64.to_bits()), INFINITY_BITS);
    assert_eq!(sum(largest, 9.979201547673598e291f64.to_bits()), (f64::MAX + 9.979201547673598e291).to_bits());
    assert_eq!(sum(largest, 9.9792015476736e291f64.to_bits()), (f64::MAX + 9.9792015476736e291).to_bits());
}

#[test]
fn natural_numbers_shift_and_grow_bit_by_bit() {
    let mut n = Natural::zero();
    n.push_bit(false);
    assert_eq!(n, Natural::zero());
    n.push_bit(true);
    n.push_bit(false);
    n.push_bit(true);
    assert_eq!(n, Natural::from_u128(5));
    n.shift_left(100);
    assert_eq!(n, Natural::from_u128(5u128 << 100));
    assert_eq!(n.duplicate(), n);
    let mut zero = Natural::zero();
    zero.shift_left(7);
    assert!(zero.is_zero());
    assert_eq!(Natural::from_u128(u128::MAX).add(&Natural::from_u128(1)).bits.len(), 129);
    assert_eq!(Natural::from_u128(8).sub(&Natural::from_u128(8)), Natural::zero());
}
