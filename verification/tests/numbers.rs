//! Numbers, and the text they are written as.

use tinyc::big::{Big, Side};
use tinyc::decimal::text_of;
use tinyc::float::{equal, from_digits, from_int, less, minus, negate, over, plus, times, to_int};
use tinyc::text::decimal_text;

/// Bits that fall all over the doubles, and no two runs apart.
fn scattered(count: usize) -> Vec<u64> {
    let mut state: u64 = 0x9e37_79b9_7f4a_7c15;
    (0..count)
        .map(|_| {
            state = state.wrapping_mul(6364136223846793005).wrapping_add(1442695040888963407);
            state ^ (state >> 29)
        })
        .collect()
}

const TELLING: [f64; 22] = [
    0.0,
    -0.0,
    1.0,
    -1.0,
    0.1,
    0.3,
    1.5,
    100.0,
    1e15,
    1e16,
    123456789.125,
    1e-5,
    5e-324,
    2.2250738585072014e-308,
    1.7976931348623157e308,
    9007199254740993.0,
    3.141592653589793,
    -2.5e-10,
    f64::INFINITY,
    f64::NEG_INFINITY,
    f64::NAN,
    f64::MIN_POSITIVE,
];

fn telling() -> Vec<u64> {
    TELLING.iter().map(|f| f.to_bits()).collect()
}

fn the_same(ours: u64, theirs: f64) -> bool {
    if theirs.is_nan() { f64::from_bits(ours).is_nan() } else { ours == theirs.to_bits() }
}

#[test]
fn a_double_is_written_with_the_fewest_digits_that_read_back() {
    for bits in telling() {
        assert_eq!(text_of(bits), format!("{}", f64::from_bits(bits)), "{bits:#x}");
    }
    for bits in scattered(60) {
        assert_eq!(text_of(bits), format!("{}", f64::from_bits(bits)), "{bits:#x}");
    }
}

#[test]
fn the_text_of_particular_doubles() {
    assert_eq!(text_of(8.5f64.to_bits()), "8.5");
    assert_eq!(text_of(2.0f64.to_bits()), "2");
    assert_eq!(text_of((-0.0f64).to_bits()), "-0");
    assert_eq!(text_of(0.001f64.to_bits()), "0.001");
    assert_eq!(text_of(1e21f64.to_bits()), "1000000000000000000000");
    assert_eq!(text_of(f64::NAN.to_bits()), "NaN");
    assert_eq!(text_of(f64::NEG_INFINITY.to_bits()), "-inf");
}

#[test]
fn what_is_written_reads_back_as_the_same_double() {
    for bits in scattered(60) {
        let float = f64::from_bits(bits).abs();
        if float.is_finite() {
            let text = text_of(float.to_bits());
            let digits: Vec<u8> =
                text.chars().filter_map(|c| c.to_digit(10)).map(|d| d as u8).collect();
            let fraction = text.find('.').map_or(0, |at| text.len() - at - 1);
            assert_eq!(from_digits(&digits, fraction), float.to_bits(), "{text}");
        }
    }
}

#[test]
fn arithmetic_on_doubles_is_rounded_to_the_nearest() {
    let mut values = telling();
    values.extend(scattered(12));
    for &a in &values {
        for &b in &values {
            let (x, y) = (f64::from_bits(a), f64::from_bits(b));
            assert!(the_same(plus(a, b), x + y), "{x} + {y}");
            assert!(the_same(minus(a, b), x - y), "{x} - {y}");
            assert!(the_same(times(a, b), x * y), "{x} * {y}");
            assert!(the_same(over(a, b), x / y), "{x} / {y}");
            assert_eq!(equal(a, b), x == y, "{x} == {y}");
            assert_eq!(less(a, b), x < y, "{x} < {y}");
        }
    }
}

#[test]
fn negating_a_double_turns_its_sign_over() {
    for bits in telling() {
        assert_eq!(negate(bits), (-f64::from_bits(bits)).to_bits());
        assert_eq!(negate(negate(bits)), bits);
    }
}

#[test]
fn an_int_and_the_double_nearest_to_it() {
    for n in [0, 1, -1, 3, 255, i64::MAX, i64::MIN, (1 << 53) + 1, -(1 << 53) - 1] {
        assert_eq!(from_int(n), (n as f64).to_bits(), "{n}");
    }
    assert_eq!(from_int(3), 4613937818241073152);
}

#[test]
fn a_double_with_no_int_has_none() {
    assert_eq!(to_int(3.75f64.to_bits()), Some(3));
    assert_eq!(to_int((-3.75f64).to_bits()), Some(-3));
    assert_eq!(to_int((-9223372036854775808f64).to_bits()), Some(i64::MIN));
    assert_eq!(to_int(9223372036854775808f64.to_bits()), None);
    assert_eq!(to_int(f64::NAN.to_bits()), None);
    assert_eq!(to_int(f64::INFINITY.to_bits()), None);
}

#[test]
fn a_literal_is_read_however_many_digits_it_has() {
    let ones = vec![1u8; 400];
    assert_eq!(from_digits(&ones, 0), f64::INFINITY.to_bits());
    assert_eq!(from_digits(&ones, 399), 1.1111111111111112f64.to_bits());
    assert_eq!(from_digits(&vec![], 0), 0);
    assert_eq!(from_digits(&vec![4, 5], 1), 4.5f64.to_bits());
}

#[test]
fn whole_numbers_of_any_size() {
    let a = Big::from_u64(u64::MAX);
    let square = a.times(&a);
    let sum = square.plus(&a).plus(&a).plus(&Big::from_u64(1));
    assert_eq!(sum.against(&Big::power_of_two(128)), Side::Same);
    assert_eq!(square.against(&sum), Side::Below);
    assert_eq!(sum.against(&a), Side::Above);
    assert_eq!(a.times_limb_plus(3, 7).against(&a.plus(&a).plus(&a)), Side::Above);
}

#[test]
fn every_int_is_written_in_decimal() {
    for n in [0, 7, 10, -1, 99, 100, i64::MAX, i64::MIN] {
        assert_eq!(decimal_text(n), format!("{n}"));
    }
}
