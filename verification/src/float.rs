//! Double-precision arithmetic on the bits of doubles.
//!
//! A `float` is carried as the 64 bits of its IEEE-754 double. Every finite
//! double is a whole number of units of two to the -1074, the smallest step
//! there is, so what a double is worth is an integer and what an operation
//! should answer is a ratio of two. Rounding is stated once, for such a ratio,
//! and done once, by a search over the doubles themselves: they stand in the
//! order of their bits.

use vstd::arithmetic::power::{lemma_pow_positive, pow};
use vstd::arithmetic::power2::{lemma_pow2_adds, lemma_pow2_pos, lemma_pow2_unfold, pow2};
use vstd::prelude::*;

use crate::big::{side, Big, Side};

verus! {

/// The bit that makes a double negative.
pub const SIGN: u64 = 0x8000_0000_0000_0000;

/// The bits of infinity: past every finite double there is.
pub const INFINITY: u64 = 0x7ff0_0000_0000_0000;

/// The bits of the one NaN arithmetic answers here.
pub const NAN: u64 = 0x7ff8_0000_0000_0000;

/// How many doubles share one exponent.
pub const FRACTIONS: u64 = 0x10_0000_0000_0000;

/// Units of two to the -1074 in one.
pub open spec fn unit() -> nat {
    pow2(1074)
}

pub open spec fn is_negative(bits: u64) -> bool {
    bits >= SIGN
}

/// The bits without the sign.
pub open spec fn bare(bits: u64) -> u64 {
    if bits >= SIGN {
        (bits - SIGN) as u64
    } else {
        bits
    }
}

pub open spec fn is_nan(bits: u64) -> bool {
    bare(bits) > INFINITY
}

pub open spec fn is_infinite(bits: u64) -> bool {
    bare(bits) == INFINITY
}

pub open spec fn is_zero(bits: u64) -> bool {
    bare(bits) == 0
}

/// How far a double is from the next one up, in units.
pub open spec fn step(m: int) -> nat {
    let exponent = m / (FRACTIONS as int);
    if exponent <= 0 {
        1
    } else {
        pow2((exponent - 1) as nat)
    }
}

/// What the double with these bits and no sign is worth, in units. Infinity is
/// worth what the next double after the last would have been.
pub open spec fn worth(m: int) -> nat {
    let exponent = m / (FRACTIONS as int);
    let fraction = m % (FRACTIONS as int);
    if exponent <= 0 {
        fraction as nat
    } else {
        ((FRACTIONS + fraction) * pow2((exponent - 1) as nat)) as nat
    }
}

/// What a double is worth with its sign, in units.
pub open spec fn signed_worth(bits: u64) -> int {
    if is_negative(bits) {
        -(worth(bare(bits) as int) as int)
    } else {
        worth(bare(bits) as int) as int
    }
}

/// These bits with a sign.
pub open spec fn with_sign(negative: bool, bits: u64) -> u64 {
    if negative {
        (bits + SIGN) as u64
    } else {
        bits
    }
}

/// Whether `n / d` units lie past the middle of the double `m` and the next one
/// up, a tie going to whichever of the two is even.
pub open spec fn past_middle(n: int, d: int, m: int) -> bool {
    ||| 2 * n > d * (worth(m) + worth(m + 1))
    ||| 2 * n == d * (worth(m) + worth(m + 1)) && m % 2 == 1
}

/// Whether `m` is the double nearest to `n / d` units.
pub open spec fn is_nearest(n: int, d: int, m: int) -> bool {
    &&& 0 <= m <= INFINITY
    &&& forall|k: int| 0 <= k < m ==> #[trigger] past_middle(n, d, k)
    &&& forall|k: int| m <= k < INFINITY ==> !#[trigger] past_middle(n, d, k)
}

/// The double nearest to `n / d` units.
pub open spec fn nearest(n: int, d: int) -> u64 {
    choose|m: u64| is_nearest(n, d, m as int)
}

pub proof fn worth_steps(m: int)
    requires
        0 <= m < INFINITY,
    ensures
        worth(m + 1) == worth(m) + step(m),
        step(m) > 0,
{
    let f = FRACTIONS as int;
    let e = m / f;
    let r = m % f;
    assert(m == e * f + r);
    if e > 0 {
        lemma_pow2_pos((e - 1) as nat);
    }
    if r + 1 < f {
        assert((m + 1) / f == e && (m + 1) % f == r + 1) by (nonlinear_arith)
            requires
                m == e * f + r,
                0 <= r,
                r + 1 < f,
        ;
        if e > 0 {
            let p = pow2((e - 1) as nat);
            assert((f + (r + 1)) * p == (f + r) * p + p) by (nonlinear_arith);
        }
    } else {
        assert((m + 1) / f == e + 1 && (m + 1) % f == 0) by (nonlinear_arith)
            requires
                m == e * f + r,
                r + 1 == f,
                f > 0,
        ;
        if e > 0 {
            let p = pow2((e - 1) as nat);
            lemma_pow2_unfold(e as nat);
            assert(pow2(e as nat) == 2 * p);
            assert((f + 0) * (2 * p) == (f + r) * p + p) by (nonlinear_arith)
                requires
                    r + 1 == f,
            ;
        } else {
            assert(pow2(0) == 1) by {
                vstd::arithmetic::power2::lemma2_to64();
            }
            assert((f + 0) * pow2(0) == f) by (nonlinear_arith)
                requires
                    pow2(0) == 1,
            ;
        }
    }
}

/// The doubles stand in the order of their bits.
pub proof fn worth_increases(a: int, b: int)
    requires
        0 <= a < b <= INFINITY,
    ensures
        worth(a) < worth(b),
    decreases b - a,
{
    worth_steps(b - 1);
    if a < b - 1 {
        worth_increases(a, b - 1);
    }
}

pub proof fn middles_increase(n: int, d: int, a: int, b: int)
    requires
        0 <= a < b < INFINITY,
        d > 0,
        past_middle(n, d, b),
    ensures
        past_middle(n, d, a),
{
    worth_increases(a, b);
    worth_increases(a + 1, b + 1);
    let x = worth(a) + worth(a + 1);
    let y = worth(b) + worth(b + 1);
    assert(d * x < d * y) by (nonlinear_arith)
        requires
            x < y,
            d > 0,
    ;
}

pub proof fn nearest_is_unique(n: int, d: int, a: u64, b: u64)
    requires
        is_nearest(n, d, a as int),
        is_nearest(n, d, b as int),
    ensures
        a == b,
{
    if a < b {
        assert(past_middle(n, d, a as int));
    } else if b < a {
        assert(past_middle(n, d, b as int));
    }
}

pub proof fn nearest_is(n: int, d: int, m: u64)
    requires
        is_nearest(n, d, m as int),
    ensures
        nearest(n, d) == m,
{
    nearest_is_unique(n, d, m, nearest(n, d));
}

/// A double given exactly is its own nearest.
pub proof fn nearest_to_itself(m: u64)
    requires
        m <= INFINITY,
    ensures
        nearest(worth(m as int) as int, 1) == m,
{
    let n = worth(m as int) as int;
    assert forall|k: int| 0 <= k < m implies #[trigger] past_middle(n, 1, k) by {
        worth_steps(k);
        if k + 1 < m {
            worth_increases(k + 1, m as int);
        }
    }
    assert forall|k: int| m <= k < INFINITY implies !#[trigger] past_middle(n, 1, k) by {
        worth_steps(k);
        if m < k {
            worth_increases(m as int, k);
        }
    }
    nearest_is(n, 1, m);
}

/// What the double with these bits and no sign is worth.
pub fn worth_of(m: u64) -> (big: Big)
    requires
        m <= INFINITY,
    ensures
        big@ == worth(m as int),
        big.limbs@.len() < 200,
{
    let exponent: u64 = m / FRACTIONS;
    let fraction: u64 = m % FRACTIONS;
    if exponent == 0 {
        Big::from_u64(fraction)
    } else {
        assert(exponent <= 2047);
        let whole: Big = Big::from_u64(FRACTIONS + fraction);
        let power: Big = Big::power_of_two((exponent - 1) as u32);
        proof {
            assert(power@ * whole@ == whole@ * power@) by (nonlinear_arith);
        }
        power.times(&whole)
    }
}

/// The double nearest to `(n - m) / d` units.
fn nearest_to(n: &Big, m: &Big, d: &Big) -> (bits: u64)
    requires
        n.limbs@.len() < usize::MAX - 1000,
        m.limbs@.len() < usize::MAX - 1000,
        d.limbs@.len() < usize::MAX - 1000,
        d@ > 0,
    ensures
        bits <= INFINITY,
        bits == nearest(n@ - m@, d@ as int),
{
    let twice: Big = n.times_limb(2);
    let owed: Big = m.times_limb(2);
    let ghost whole = n@ - m@;
    let ghost part = d@ as int;
    let mut low: u64 = 0;
    let mut high: u64 = INFINITY;
    while low < high
        invariant
            low <= high <= INFINITY,
            n.limbs@.len() < usize::MAX - 1000,
            m.limbs@.len() < usize::MAX - 1000,
            d.limbs@.len() < usize::MAX - 1000,
            owed.limbs@.len() < usize::MAX - 999,
            d@ > 0,
            twice@ == n@ * 2,
            owed@ == m@ * 2,
            whole == n@ - m@,
            part == d@,
            forall|k: int| 0 <= k < low ==> #[trigger] past_middle(whole, part, k),
            forall|k: int| high <= k < INFINITY ==> !#[trigger] past_middle(whole, part, k),
        decreases high - low,
    {
        let middle: u64 = low + (high - low) / 2;
        let here: Big = worth_of(middle);
        let next: Big = worth_of(middle + 1);
        let both: Big = here.plus(&next);
        let against: Big = d.times(&both).plus(&owed);
        let past: bool = match twice.against(&against) {
            Side::Above => true,
            Side::Same => middle % 2 == 1,
            Side::Below => false,
        };
        proof {
            assert(past == past_middle(whole, part, middle as int));
            if past {
                assert forall|k: int| 0 <= k < middle + 1 implies #[trigger] past_middle(
                    whole,
                    part,
                    k,
                ) by {
                    if k < middle {
                        middles_increase(whole, part, k, middle as int);
                    }
                }
            } else {
                assert forall|k: int| middle <= k < INFINITY implies !#[trigger] past_middle(
                    whole,
                    part,
                    k,
                ) by {
                    if k > middle && past_middle(whole, part, k) {
                        middles_increase(whole, part, middle as int, k);
                    }
                }
            }
        }
        if past {
            low = middle + 1;
        } else {
            high = middle;
        }
    }
    proof {
        nearest_is(whole, part, low);
    }
    low
}

// -- literals ---------------------------------------------------------------

/// The number a run of decimal digits stands for.
pub open spec fn number(digits: Seq<u8>) -> nat
    decreases digits.len(),
{
    if digits.len() == 0 {
        0
    } else {
        number(digits.drop_last()) * 10 + digits.last() as nat
    }
}

/// The double nearest to a decimal number, the last `fraction` of whose digits
/// stand behind the point.
pub open spec fn literal(digits: Seq<u8>, fraction: nat) -> u64 {
    nearest((number(digits) * unit()) as int, pow(10, fraction))
}

/// Read a decimal literal, rounding once: [`INFINITY`] where it is past every
/// double.
pub fn from_digits(digits: &Vec<u8>, fraction: usize) -> (bits: u64)
    requires
        digits@.len() <= isize::MAX,
        fraction <= digits@.len(),
        forall|i: int| 0 <= i < digits@.len() ==> digits@[i] < 10,
    ensures
        bits <= INFINITY,
        bits == literal(digits@, fraction as nat),
{
    let mut n: Big = Big { limbs: Vec::new() };
    let mut i: usize = 0;
    assert(digits@.take(0) =~= Seq::<u8>::empty());
    while i < digits.len()
        invariant
            i <= digits@.len(),
            digits@.len() <= isize::MAX,
            n.limbs@.len() <= i,
            n@ == number(digits@.take(i as int)),
        decreases digits@.len() - i,
    {
        n = n.times_limb_plus(10, digits[i] as u32);
        proof {
            let next = digits@.take(i + 1);
            assert(next.drop_last() =~= digits@.take(i as int));
            assert(next.last() == digits@[i as int]);
        }
        i = i + 1;
    }
    assert(digits@.take(i as int) =~= digits@);
    let mut d: Big = Big::from_u64(1);
    let mut j: usize = 0;
    assert(pow(10, 0) == 1) by {
        reveal(pow);
    }
    while j < fraction
        invariant
            j <= fraction <= digits@.len() <= isize::MAX,
            d.limbs@.len() <= j + 2,
            d@ == pow(10, j as nat),
        decreases fraction - j,
    {
        d = d.times_limb(10);
        assert(pow(10, (j + 1) as nat) == 10 * pow(10, j as nat)) by {
            reveal(pow);
        }
        j = j + 1;
    }
    proof {
        lemma_pow_positive(10, fraction as nat);
    }
    let units: Big = n.times(&Big::power_of_two(1074));
    let nothing: Big = Big::from_u64(0);
    nearest_to(&units, &nothing, &d)
}

// -- the sign ---------------------------------------------------------------

pub fn negative(bits: u64) -> (negative: bool)
    ensures
        negative == is_negative(bits),
{
    bits >= SIGN
}

pub fn without_sign(bits: u64) -> (without: u64)
    ensures
        without == bare(bits),
{
    if bits >= SIGN {
        bits - SIGN
    } else {
        bits
    }
}

fn signed(negative: bool, bits: u64) -> (signed: u64)
    requires
        bits < SIGN,
    ensures
        signed == with_sign(negative, bits),
{
    if negative {
        bits + SIGN
    } else {
        bits
    }
}

/// What `-x` is: the same bits with the other sign.
pub open spec fn negated(bits: u64) -> u64 {
    if bits >= SIGN {
        (bits - SIGN) as u64
    } else {
        (bits + SIGN) as u64
    }
}

pub fn negate(bits: u64) -> (answer: u64)
    ensures
        answer == negated(bits),
{
    if bits >= SIGN {
        bits - SIGN
    } else {
        bits + SIGN
    }
}

// -- comparing --------------------------------------------------------------

/// Whether two doubles are equal: a NaN is equal to nothing, and the two zeroes
/// to each other.
pub open spec fn equal_floats(a: u64, b: u64) -> bool {
    !is_nan(a) && !is_nan(b) && signed_worth(a) == signed_worth(b)
}

/// Whether one double is less than another.
pub open spec fn less_floats(a: u64, b: u64) -> bool {
    !is_nan(a) && !is_nan(b) && signed_worth(a) < signed_worth(b)
}

proof fn worth_of_zero()
    ensures
        worth(0) == 0,
{
}

/// How two doubles that are numbers stand to each other.
fn stand(a: u64, b: u64) -> (stands: Side)
    requires
        !is_nan(a),
        !is_nan(b),
    ensures
        stands == side(signed_worth(a), signed_worth(b)),
{
    let x: u64 = without_sign(a);
    let y: u64 = without_sign(b);
    proof {
        worth_of_zero();
        if x > 0 {
            worth_increases(0, x as int);
        }
        if y > 0 {
            worth_increases(0, y as int);
        }
        if x < y {
            worth_increases(x as int, y as int);
        }
        if y < x {
            worth_increases(y as int, x as int);
        }
    }
    if x == 0 && y == 0 {
        Side::Same
    } else if negative(a) != negative(b) {
        if negative(a) {
            Side::Below
        } else {
            Side::Above
        }
    } else if x == y {
        Side::Same
    } else if (x < y) != negative(a) {
        Side::Below
    } else {
        Side::Above
    }
}

pub fn equal(a: u64, b: u64) -> (answer: bool)
    ensures
        answer == equal_floats(a, b),
{
    if without_sign(a) > INFINITY || without_sign(b) > INFINITY {
        return false;
    }
    match stand(a, b) {
        Side::Same => true,
        _ => false,
    }
}

pub fn less(a: u64, b: u64) -> (answer: bool)
    ensures
        answer == less_floats(a, b),
{
    if without_sign(a) > INFINITY || without_sign(b) > INFINITY {
        return false;
    }
    match stand(a, b) {
        Side::Below => true,
        _ => false,
    }
}

// -- arithmetic -------------------------------------------------------------

/// `a + b`, rounded once.
pub open spec fn sum_of(a: u64, b: u64) -> u64 {
    if is_nan(a) || is_nan(b) {
        NAN
    } else if is_infinite(a) {
        if is_infinite(b) && is_negative(a) != is_negative(b) {
            NAN
        } else {
            a
        }
    } else if is_infinite(b) {
        b
    } else {
        let exact = signed_worth(a) + signed_worth(b);
        if exact == 0 {
            // A zero is negative only where both sides were.
            with_sign(is_negative(a) && is_negative(b), 0)
        } else if exact < 0 {
            with_sign(true, nearest(-exact, 1))
        } else {
            nearest(exact, 1)
        }
    }
}

/// `a - b`, which is `a` plus what `-b` is.
pub open spec fn difference_of(a: u64, b: u64) -> u64 {
    sum_of(a, negated(b))
}

/// `a * b`, rounded once.
pub open spec fn product_of(a: u64, b: u64) -> u64 {
    let negative = is_negative(a) != is_negative(b);
    if is_nan(a) || is_nan(b) {
        NAN
    } else if is_infinite(a) || is_infinite(b) {
        if is_zero(a) || is_zero(b) {
            NAN
        } else {
            with_sign(negative, INFINITY)
        }
    } else {
        with_sign(
            negative,
            nearest((worth(bare(a) as int) * worth(bare(b) as int)) as int, unit() as int),
        )
    }
}

/// `a / b`, rounded once.
pub open spec fn quotient_of(a: u64, b: u64) -> u64 {
    let negative = is_negative(a) != is_negative(b);
    if is_nan(a) || is_nan(b) {
        NAN
    } else if is_infinite(a) {
        if is_infinite(b) {
            NAN
        } else {
            with_sign(negative, INFINITY)
        }
    } else if is_infinite(b) {
        with_sign(negative, 0)
    } else if is_zero(b) {
        if is_zero(a) {
            NAN
        } else {
            with_sign(negative, INFINITY)
        }
    } else {
        with_sign(
            negative,
            nearest((worth(bare(a) as int) * unit()) as int, worth(bare(b) as int) as int),
        )
    }
}

pub fn plus(a: u64, b: u64) -> (answer: u64)
    ensures
        answer == sum_of(a, b),
{
    let x: u64 = without_sign(a);
    let y: u64 = without_sign(b);
    if x > INFINITY || y > INFINITY {
        return NAN;
    }
    if x == INFINITY {
        if y == INFINITY && negative(a) != negative(b) {
            return NAN;
        }
        return a;
    }
    if y == INFINITY {
        return b;
    }
    let p: Big = worth_of(x);
    let q: Big = worth_of(y);
    let none: Big = Big::from_u64(0);
    let one: Big = Big::from_u64(1);
    if negative(a) == negative(b) {
        let sum: Big = p.plus(&q);
        match sum.against(&none) {
            Side::Same => signed(negative(a), 0),
            _ => signed(negative(a), nearest_to(&sum, &none, &one)),
        }
    } else {
        match p.against(&q) {
            Side::Same => 0,
            Side::Above => signed(negative(a), nearest_to(&p, &q, &one)),
            Side::Below => signed(negative(b), nearest_to(&q, &p, &one)),
        }
    }
}

pub fn minus(a: u64, b: u64) -> (answer: u64)
    ensures
        answer == difference_of(a, b),
{
    plus(a, negate(b))
}

pub fn times(a: u64, b: u64) -> (answer: u64)
    ensures
        answer == product_of(a, b),
{
    let x: u64 = without_sign(a);
    let y: u64 = without_sign(b);
    let sign: bool = negative(a) != negative(b);
    if x > INFINITY || y > INFINITY {
        return NAN;
    }
    if x == INFINITY || y == INFINITY {
        if x == 0 || y == 0 {
            return NAN;
        }
        return signed(sign, INFINITY);
    }
    let p: Big = worth_of(x);
    let q: Big = worth_of(y);
    let none: Big = Big::from_u64(0);
    let units: Big = Big::power_of_two(1074);
    proof {
        lemma_pow2_pos(1074);
    }
    signed(sign, nearest_to(&p.times(&q), &none, &units))
}

pub fn over(a: u64, b: u64) -> (answer: u64)
    ensures
        answer == quotient_of(a, b),
{
    let x: u64 = without_sign(a);
    let y: u64 = without_sign(b);
    let sign: bool = negative(a) != negative(b);
    if x > INFINITY || y > INFINITY {
        return NAN;
    }
    if x == INFINITY {
        if y == INFINITY {
            return NAN;
        }
        return signed(sign, INFINITY);
    }
    if y == INFINITY {
        return signed(sign, 0);
    }
    if y == 0 {
        if x == 0 {
            return NAN;
        }
        return signed(sign, INFINITY);
    }
    let p: Big = worth_of(x);
    let q: Big = worth_of(y);
    let none: Big = Big::from_u64(0);
    let units: Big = Big::power_of_two(1074);
    proof {
        worth_of_zero();
        worth_increases(0, y as int);
    }
    signed(sign, nearest_to(&p.times(&units), &none, &q))
}

// -- between `int` and `float` ----------------------------------------------

/// The double nearest to a whole number.
pub open spec fn float_of(n: i64) -> u64 {
    with_sign(n < 0, nearest(crate::ast::abs(n as int) * unit(), 1))
}

pub fn from_int(n: i64) -> (bits: u64)
    ensures
        bits == float_of(n),
{
    let whole: Big = Big::from_u64(crate::text::magnitude(n));
    let units: Big = Big::power_of_two(1074);
    let none: Big = Big::from_u64(0);
    let one: Big = Big::from_u64(1);
    signed(n < 0, nearest_to(&whole.times(&units), &none, &one))
}

/// The whole number a double is cut down to, towards zero.
pub open spec fn whole_part(bits: u64) -> int {
    let whole = (worth(bare(bits) as int) / unit()) as int;
    if is_negative(bits) {
        -whole
    } else {
        whole
    }
}

/// Whether a double, rounded towards zero, is an `int`.
pub open spec fn fits_an_int(bits: u64) -> bool {
    bare(bits) < INFINITY && i64::MIN <= whole_part(bits) <= i64::MAX
}

proof fn whole_part_small(m: u64)
    requires
        m / FRACTIONS < 1023,
    ensures
        worth(m as int) < unit(),
{
    let e = m as int / FRACTIONS as int;
    let r = m as int % FRACTIONS as int;
    let half = pow2(1074) as int;
    if e <= 0 {
        lemma_pow2_adds(52, 1022);
        assert(pow2(52) == FRACTIONS) by {
            vstd::arithmetic::power2::lemma2_to64_rest();
        }
        lemma_pow2_pos(1022);
        assert(FRACTIONS <= FRACTIONS * pow2(1022)) by (nonlinear_arith)
            requires
                pow2(1022) >= 1,
        ;
    } else {
        let p = pow2((e - 1) as nat);
        lemma_pow2_pos((e - 1) as nat);
        assert(2 * FRACTIONS == pow2(53)) by {
            vstd::arithmetic::power2::lemma2_to64_rest();
        }
        lemma_pow2_adds(53, (e - 1) as nat);
        assert((FRACTIONS + r) * p < pow2(53) * p) by (nonlinear_arith)
            requires
                FRACTIONS + r < pow2(53),
                p > 0,
        ;
        if (52 + e) as nat != 1074 {
            vstd::arithmetic::power2::lemma_pow2_strictly_increases((52 + e) as nat, 1074);
        }
    }
}

/// The whole number a double stands for, where it stands for one an `int` can
/// hold: what `int(f)` answers when it answers.
pub fn to_int(bits: u64) -> (whole: Option<i64>)
    ensures
        match whole {
            Some(n) => fits_an_int(bits) && n == whole_part(bits),
            None => !fits_an_int(bits),
        },
{
    let m: u64 = without_sign(bits);
    let exponent: u64 = m / FRACTIONS;
    let fraction: u64 = m % FRACTIONS;
    if m >= INFINITY {
        return None;
    }
    if exponent < 1023 {
        proof {
            whole_part_small(m);
            assert(worth(m as int) as int / unit() as int == 0) by (nonlinear_arith)
                requires
                    0 <= worth(m as int) < unit(),
            ;
        }
        return Some(0);
    }
    let significand: u64 = FRACTIONS + fraction;
    let ghost p = pow2((exponent - 1) as nat);
    proof {
        lemma_pow2_pos(1074);
        assert(worth(m as int) == significand * p);
    }
    if exponent > 1086 {
        proof {
            // At least two to the sixty-fourth.
            lemma_pow2_adds(64, 1074);
            lemma_pow2_adds(52, (exponent - 1) as nat);
            assert(pow2(52) == FRACTIONS) by {
                vstd::arithmetic::power2::lemma2_to64_rest();
            }
            assert(pow2(64) == 0x1_0000_0000_0000_0000) by {
                vstd::arithmetic::power2::lemma2_to64();
            }
            if 52 + exponent - 1 != 1138 {
                vstd::arithmetic::power2::lemma_pow2_strictly_increases(
                    1138,
                    (52 + exponent - 1) as nat,
                );
            }
            assert(significand * p >= FRACTIONS * p) by (nonlinear_arith)
                requires
                    significand >= FRACTIONS,
            ;
            let w = worth(m as int) as int;
            let u = unit() as int;
            assert(w / u >= 0x1_0000_0000_0000_0000) by (nonlinear_arith)
                requires
                    w >= 0x1_0000_0000_0000_0000 * u,
                    u > 0,
            ;
        }
        return None;
    }
    let size: u64 = if exponent >= 1075 {
        // Whole already: shift up.
        let up: u64 = exponent - 1075;
        proof {
            lemma_pow2_adds(up as nat, 1074);
            let q = pow2(up as nat) as int;
            let u = unit() as int;
            assert((significand * (q * u)) / u == significand * q) by (nonlinear_arith)
                requires
                    u > 0,
            ;
            vstd::arithmetic::power2::lemma2_to64();
            lemma_pow2_pos(up as nat);
            if up != 11 {
                vstd::arithmetic::power2::lemma_pow2_strictly_increases(up as nat, 11);
            }
            assert(significand * q <= 0x1f_ffff_ffff_ffff * 2048) by (nonlinear_arith)
                requires
                    significand <= 0x1f_ffff_ffff_ffff,
                    q <= 2048,
                    q > 0,
            ;
            vstd::bits::lemma_u64_shl_is_mul(significand, up);
        }
        significand << up
    } else {
        // Cut the fraction off: shift down.
        let down: u64 = 1075 - exponent;
        proof {
            lemma_pow2_adds(down as nat, (exponent - 1) as nat);
            let q = pow2(down as nat) as int;
            lemma_pow2_pos(down as nat);
            lemma_pow2_pos((exponent - 1) as nat);
            let pp = p as int;
            assert((significand * pp) / (q * pp) == significand as int / q) by (nonlinear_arith)
                requires
                    pp > 0,
                    q > 0,
            {
                let k = significand as int / q;
                let r = significand as int % q;
                assert(significand == k * q + r);
                assert(significand * pp == k * (q * pp) + r * pp);
                assert(0 <= r * pp < q * pp);
                vstd::arithmetic::div_mod::lemma_fundamental_div_mod_converse(
                    significand * pp,
                    q * pp,
                    k,
                    r * pp,
                );
            }
            vstd::bits::lemma_u64_shr_is_div(significand, down);
        }
        significand >> down
    };
    assert(size == worth(m as int) / unit());
    if negative(bits) {
        if size < 0x8000_0000_0000_0000 {
            Some(-(size as i64))
        } else if size == 0x8000_0000_0000_0000 {
            Some(i64::MIN)
        } else {
            None
        }
    } else if size < 0x8000_0000_0000_0000 {
        Some(size as i64)
    } else {
        None
    }
}

} // verus!
