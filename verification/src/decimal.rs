//! Writing a double in decimal: with the fewest digits that read back as it.

use vstd::arithmetic::power::{lemma_pow_distributes, lemma_pow_increases, lemma_pow_positive, pow};
use vstd::arithmetic::power2::{
    lemma_pow2, lemma_pow2_adds, lemma_pow2_pos, lemma_pow2_strictly_increases, pow2,
};
use vstd::prelude::*;

use crate::big::{Big, Side};
use crate::float::{
    bare, is_infinite, is_nan, is_nearest, is_negative, is_zero, middles_increase, negative,
    number, past_middle, unit, without_sign, worth, worth_increases, worth_of, worth_steps,
    FRACTIONS, INFINITY,
};
use crate::text::{decimal_nat, digit_char};

verus! {

/// Ten to the `k`, or one where `k` is negative.
pub open spec fn tens(k: int) -> nat {
    if k >= 0 {
        pow(10, k as nat) as nat
    } else {
        1
    }
}

/// What `d` times ten to the `k` is worth, in units, over [`under`].
pub open spec fn over(d: nat, k: int) -> int {
    (d * (unit() * tens(k))) as int
}

/// What [`over`] is divided by.
pub open spec fn under(k: int) -> int {
    tens(-k) as int
}

/// Whether `d` times ten to the `k` reads as the double `m`.
pub open spec fn reads_as(d: nat, k: int, m: int) -> bool {
    is_nearest(over(d, k), under(k), m)
}

/// How far `d` times ten to the `k` is from the double `m`, times [`under`].
pub open spec fn distance(d: nat, k: int, m: int) -> int {
    let apart = over(d, k) - worth(m) * under(k);
    if apart < 0 {
        -apart
    } else {
        apart
    }
}

/// Whether `d` times ten to the `k` is how a double is written: it reads back as
/// it, nothing with fewer digits does, and of what does with as many it is the
/// closest. Of two as close, the larger.
pub open spec fn is_shortest(m: int, d: nat, k: int) -> bool {
    &&& reads_as(d, k, m)
    &&& forall|e: nat, j: int| #[trigger] reads_as(e, j, m) ==> j <= k
    &&& forall|e: nat| #[trigger]
        reads_as(e, k, m) ==> distance(d, k, m) < distance(e, k, m) || (distance(d, k, m)
            == distance(e, k, m) && e <= d)
}

/// As many zeroes.
pub open spec fn zeroes(n: int) -> Seq<char> {
    Seq::new(
        if n > 0 {
            n as nat
        } else {
            0
        },
        |i: int| '0',
    )
}

/// Digits with the point where ten to the `k` puts it.
pub open spec fn pointed(digits: Seq<char>, k: int) -> Seq<char> {
    let whole = digits.len() + k;
    if k >= 0 {
        digits + zeroes(k)
    } else if whole > 0 {
        digits.take(whole) + "."@ + digits.skip(whole)
    } else {
        "0."@ + zeroes(-whole) + digits
    }
}

/// A double that is neither a zero nor past every number, without its sign.
pub open spec fn magnitude_text(m: int) -> Seq<char> {
    let (d, k) = choose|d: nat, k: int| is_shortest(m, d, k);
    pointed(decimal_nat(d), k)
}

/// A double in decimal.
pub open spec fn float_text(bits: u64) -> Seq<char> {
    if is_nan(bits) {
        "NaN"@
    } else {
        let sign = if is_negative(bits) {
            "-"@
        } else {
            ""@
        };
        sign + if is_infinite(bits) {
            "inf"@
        } else if is_zero(bits) {
            "0"@
        } else {
            magnitude_text(bare(bits) as int)
        }
    }
}

// -- one shortest -----------------------------------------------------------

proof fn shortest_is(m: int, d: nat, k: int)
    requires
        is_shortest(m, d, k),
    ensures
        magnitude_text(m) == pointed(decimal_nat(d), k),
{
    let (e, j) = choose|d: nat, k: int| is_shortest(m, d, k);
    assert(is_shortest(m, e, j));
    assert(reads_as(e, j, m) && reads_as(d, k, m));
    assert(j == k);
}

proof fn tens_are_positive(k: int)
    ensures
        tens(k) > 0,
        under(k) > 0,
        unit() > 0,
{
    if k >= 0 {
        lemma_pow_positive(10, k as nat);
    } else {
        lemma_pow_positive(10, (-k) as nat);
    }
    reveal(pow);
    lemma_pow2_pos(1074);
}

/// More is past whatever less is past.
proof fn past_with_more(a: int, b: int, d: int, m: int)
    requires
        a <= b,
        past_middle(a, d, m),
    ensures
        past_middle(b, d, m),
{
}

/// Whatever stands between two numbers that read as a double reads as it.
proof fn between_reads_the_same(a: int, b: int, c: int, d: int, m: int)
    requires
        a <= b <= c,
        is_nearest(a, d, m),
        is_nearest(c, d, m),
    ensures
        is_nearest(b, d, m),
{
    assert forall|k: int| 0 <= k < m implies #[trigger] past_middle(b, d, k) by {
        assert(past_middle(a, d, k));
    }
    assert forall|k: int| m <= k < INFINITY implies !#[trigger] past_middle(b, d, k) by {
        assert(!past_middle(c, d, k));
        if past_middle(b, d, k) {
            past_with_more(b, c, d, k);
        }
    }
}

/// A double reads as itself.
proof fn itself_reads(d: int, m: int)
    requires
        0 <= m < INFINITY,
        d > 0,
    ensures
        is_nearest(worth(m) * d, d, m),
{
    let n = worth(m) * d;
    assert forall|k: int| 0 <= k < m implies #[trigger] past_middle(n, d, k) by {
        worth_steps(k);
        if k + 1 < m {
            worth_increases(k + 1, m);
        }
        let x = worth(k) + worth(k + 1);
        assert(x < 2 * worth(m));
        assert(2 * n > d * x) by (nonlinear_arith)
            requires
                n == worth(m) * d,
                x < 2 * worth(m),
                d > 0,
        ;
    }
    assert forall|k: int| m <= k < INFINITY implies !#[trigger] past_middle(n, d, k) by {
        worth_steps(k);
        if m < k {
            worth_increases(m, k);
        }
        let x = worth(k) + worth(k + 1);
        assert(x > 2 * worth(m));
        assert(2 * n < d * x) by (nonlinear_arith)
            requires
                n == worth(m) * d,
                x > 2 * worth(m),
                d > 0,
        ;
    }
}

proof fn past_scaled(n: int, d: int, c: int, m: int)
    requires
        c > 0,
    ensures
        past_middle(c * n, c * d, m) == past_middle(n, d, m),
{
    let x = (worth(m) + worth(m + 1)) as int;
    assert((2 * (c * n) > (c * d) * x) == (2 * n > d * x)) by (nonlinear_arith)
        requires
            c > 0,
    ;
    assert((2 * (c * n) == (c * d) * x) == (2 * n == d * x)) by (nonlinear_arith)
        requires
            c > 0,
    ;
}

proof fn tens_step(k: int)
    ensures
        k >= 1 ==> tens(k) == 10 * tens(k - 1),
        tens(0) == 1,
{
    reveal(pow);
    if k >= 1 {
        lemma_pow_positive(10, (k - 1) as nat);
    }
}

/// Ten times as many of a tenth is the same number.
proof fn tenfold_reads_the_same(d: nat, k: int, m: int)
    ensures
        reads_as(10 * d, k - 1, m) == reads_as(d, k, m),
        k >= 1 ==> over(10 * d, k - 1) == over(d, k) && under(k - 1) == under(k),
        k <= 0 ==> over(10 * d, k - 1) == 10 * over(d, k) && under(k - 1) == 10 * under(k),
{
    tens_step(k);
    tens_step(1 - k);
    let u = unit();
    if k >= 1 {
        let t = tens(k - 1);
        assert((10 * d) * (u * t) == d * (u * (10 * t))) by (nonlinear_arith);
        assert(over(10 * d, k - 1) == over(d, k));
        assert(under(k - 1) == under(k)) by {
            tens_step(0);
        }
    } else {
        assert(tens(k - 1) == 1 && tens(k) == 1);
        assert((10 * d) * (u * 1) == 10 * (d * (u * 1))) by (nonlinear_arith);
        assert(under(k - 1) == 10 * under(k));
        let n = over(d, k);
        let v = under(k);
        assert forall|i: int| #[trigger] past_middle(10 * n, 10 * v, i) == past_middle(n, v, i) by {
            past_scaled(n, v, 10, i);
        }
        if is_nearest(n, v, m) {
            assert forall|i: int| 0 <= i < m implies #[trigger] past_middle(10 * n, 10 * v, i) by {
                assert(past_middle(n, v, i));
            }
            assert forall|i: int| m <= i < INFINITY implies !#[trigger] past_middle(
                10 * n,
                10 * v,
                i,
            ) by {
                assert(!past_middle(n, v, i));
            }
        }
        if is_nearest(10 * n, 10 * v, m) {
            assert forall|i: int| 0 <= i < m implies #[trigger] past_middle(n, v, i) by {
                assert(past_middle(10 * n, 10 * v, i));
            }
            assert forall|i: int| m <= i < INFINITY implies !#[trigger] past_middle(n, v, i) by {
                assert(!past_middle(10 * n, 10 * v, i));
            }
        }
    }
}

proof fn over_grows(a: nat, b: nat, k: int)
    requires
        a <= b,
    ensures
        over(a, k) <= over(b, k),
        a < b ==> over(a, k) < over(b, k),
{
    tens_are_positive(k);
    let s = unit() * tens(k);
    assert(s > 0) by (nonlinear_arith)
        requires
            unit() > 0,
            tens(k) > 0,
            s == unit() * tens(k),
    ;
    assert(a * s <= b * s) by (nonlinear_arith)
        requires
            a <= b,
            s > 0,
    ;
    if a < b {
        assert(a * s < b * s) by (nonlinear_arith)
            requires
                a < b,
                s > 0,
        ;
    }
}

// -- where to start ---------------------------------------------------------

/// Eight is less than ten.
proof fn eights_and_tens(k: nat)
    ensures
        pow2(3 * k) <= pow(10, k),
    decreases k,
{
    if k == 0 {
        reveal(pow);
        vstd::arithmetic::power2::lemma2_to64();
    } else {
        eights_and_tens((k - 1) as nat);
        lemma_pow2_adds((3 * (k - 1)) as nat, 3);
        vstd::arithmetic::power2::lemma2_to64();
        assert(3 * (k - 1) + 3 == 3 * k);
        let a = pow2((3 * (k - 1)) as nat);
        let b = pow(10, (k - 1) as nat);
        assert(pow(10, k) == 10 * b) by {
            reveal(pow);
        }
        lemma_pow2_pos((3 * (k - 1)) as nat);
        assert(a * 8 <= 10 * b) by (nonlinear_arith)
            requires
                0 < a <= b,
        ;
    }
}

/// A double is worth less than its exponent allows.
proof fn worth_bounded(m: int)
    requires
        0 <= m < INFINITY,
    ensures
        worth(m) + worth(m + 1) <= pow2((m / (FRACTIONS as int) + 53) as nat),
{
    let f = FRACTIONS as int;
    let e = m / f;
    let r = m % f;
    worth_steps(m);
    assert(pow2(52) == FRACTIONS) by {
        vstd::arithmetic::power2::lemma2_to64_rest();
    }
    assert(0 <= r < f);
    // The next one up is worth two to the `52 + e` at most.
    let top = pow2((52 + e) as nat);
    assert(e >= 0);
    lemma_pow2_adds(52, e as nat);
    lemma_pow2_adds((52 + e) as nat, 1);
    assert(pow2(1) == 2) by {
        vstd::arithmetic::power2::lemma2_to64();
    }
    if e == 0 {
        assert(worth(m) == r);
        assert(worth(m + 1) == r + 1);
        assert(pow2(0) == 1) by {
            vstd::arithmetic::power2::lemma2_to64();
        }
        assert(top == f);
    } else {
        let p = pow2((e - 1) as nat);
        lemma_pow2_pos((e - 1) as nat);
        lemma_pow2_adds((e - 1) as nat, 1);
        assert(pow2(e as nat) == 2 * p);
        assert(worth(m) == (f + r) * p);
        assert(worth(m + 1) == (f + r) * p + p);
        assert((f + r) * p + p <= 2 * f * p) by (nonlinear_arith)
            requires
                0 <= r < f,
                p > 0,
        ;
        assert(top == f * (2 * p));
        assert(f * (2 * p) == 2 * f * p) by (nonlinear_arith);
    }
}

/// The power of ten to start below.
pub open spec fn first_power(m: int) -> int {
    let e = m / (FRACTIONS as int);
    if e < 1021 {
        0
    } else {
        (e - 1021) / 3 + 1
    }
}

/// From the first power of ten up, a power of ten is past the double and the next.
proof fn first_power_is_larger(m: int, k: int)
    requires
        0 < m < INFINITY,
        k >= first_power(m),
    ensures
        under(k) == 1,
        0 <= worth(m),
        worth(m + 1) > 0,
        worth(m) + worth(m + 1) <= over(1, k),
{
    let e = m / (FRACTIONS as int);
    let start = first_power(m);
    tens_are_positive(k);
    assert(start >= 0);
    assert(under(k) == 1) by {
        tens_step(0);
    }
    lemma_pow_increases(10, start as nat, k as nat);
    eights_and_tens(start as nat);
    worth_bounded(m);
    assert(53 + e <= 1074 + 3 * start);
    assert(pow2((53 + e) as nat) <= pow2((1074 + 3 * start) as nat)) by {
        if 53 + e < 1074 + 3 * start {
            lemma_pow2_strictly_increases((53 + e) as nat, (1074 + 3 * start) as nat);
        }
    }
    lemma_pow2_adds(1074, (3 * start) as nat);
    let u = unit();
    let t = tens(k);
    let p = pow2((3 * start) as nat);
    assert(u * p <= u * t) by (nonlinear_arith)
        requires
            p <= t,
            u > 0,
    ;
    worth_increases(0, m + 1);
}

/// Nothing from the first power of ten up reads as the double.
proof fn nothing_that_large(m: int, d: nat, k: int)
    requires
        0 < m < INFINITY,
        k >= first_power(m),
    ensures
        !reads_as(d, k, m),
{
    let n = over(d, k);
    first_power_is_larger(m, k);
    if d == 0 {
        nothing_reads_as_more(k, m);
    } else {
        over_grows(1, d, k);
        assert(past_middle(n, under(k), m));
    }
}

/// Nothing at all reads as zero, not as more.
proof fn nothing_reads_as_more(k: int, m: int)
    requires
        0 < m < INFINITY,
    ensures
        !reads_as(0, k, m),
{
    tens_are_positive(k);
    let v = under(k);
    let x = worth(m - 1) + worth(m);
    assert(over(0, k) == 0) by (nonlinear_arith)
        requires
            over(0, k) == 0 * (unit() * tens(k)),
    ;
    worth_increases(m - 1, m);
    assert(v * x > 0) by (nonlinear_arith)
        requires
            v > 0,
            x > 0,
    ;
    assert(!past_middle(over(0, k), v, m - 1));
}

/// A double is a whole number of tenths to the last power.
proof fn last_power_is_exact(m: int, d: nat)
    requires
        0 < m < INFINITY,
        over(d, -1074) <= worth(m) * under(-1074),
        worth(m) * under(-1074) < over(d + 1, -1074),
    ensures
        reads_as(d, -1074, m),
{
    let u = unit() as int;
    let five = pow(5, 1074);
    let w = worth(m) as int;
    tens_are_positive(-1074);
    lemma_pow2(1074);
    lemma_pow_distributes(2, 5, 1074);
    assert(2int * 5int == 10);
    assert(pow(10, 1074) == pow(2, 1074) * pow(5, 1074));
    assert(u == pow(2, 1074));
    lemma_pow_positive(10, 1074);
    assert(-(-1074int) == 1074);
    assert(tens(1074) == pow(10, 1074));
    assert(under(-1074) == u * five);
    assert(over(d, -1074) == d * u) by {
        assert(d * (u * 1) == d * u);
    }
    assert(over(d + 1, -1074) == (d + 1) * u) by {
        assert((d + 1) * (u * 1) == (d + 1) * u);
    }
    let x = w * five;
    assert(w * (u * five) == x * u) by (nonlinear_arith)
        requires
            x == w * five,
    ;
    assert(x == d) by (nonlinear_arith)
        requires
            d * u <= x * u,
            x * u < (d + 1) * u,
            u > 0,
    ;
    itself_reads(under(-1074), m);
}

// -- exact digits -----------------------------------------------------------

/// The digits of a number as characters.
pub open spec fn digit_chars(digits: Seq<u8>) -> Seq<char> {
    digits.map_values(|d: u8| digit_char(d as nat))
}

/// Digits without a leading zero are how their number is written.
proof fn digits_are_decimal(digits: Seq<u8>)
    requires
        digits.len() > 0,
        digits[0] != 0,
        forall|i: int| 0 <= i < digits.len() ==> digits[i] < 10,
    ensures
        decimal_nat(number(digits)) == digit_chars(digits),
        number(digits) > 0,
    decreases digits.len(),
{
    let rest = digits.drop_last();
    let last = digits.last();
    assert(number(digits) == number(rest) * 10 + last as nat);
    if digits.len() == 1 {
        assert(number(rest) == 0);
        assert(digit_chars(digits) =~= seq![digit_char(last as nat)]);
    } else {
        digits_are_decimal(rest);
        let n = number(digits);
        assert(n / 10 == number(rest) && n % 10 == last as nat);
        assert(digit_chars(digits) =~= digit_chars(rest).push(digit_char(last as nat)));
    }
}

/// Ten to the `k`.
fn power_of_ten(k: usize) -> (big: Big)
    requires
        k <= 2000,
    ensures
        big@ == pow(10, k as nat),
        big.limbs@.len() <= k + 2,
{
    let mut big: Big = Big::from_u64(1);
    let mut i: usize = 0;
    assert(pow(10, 0) == 1) by {
        reveal(pow);
    }
    while i < k
        invariant
            i <= k <= 2000,
            big@ == pow(10, i as nat),
            big.limbs@.len() <= i + 2,
        decreases k - i,
    {
        big = big.times_limb(10);
        assert(pow(10, (i + 1) as nat) == 10 * pow(10, i as nat)) by {
            reveal(pow);
        }
        i = i + 1;
    }
    big
}

/// Whether `n / d` units lie past the middle of the double `m` and the next.
fn past(n: &Big, d: &Big, m: u64) -> (past: bool)
    requires
        m < INFINITY,
        n.limbs@.len() < 100000,
        d.limbs@.len() < 100000,
    ensures
        past == past_middle(n@ as int, d@ as int, m as int),
{
    let twice: Big = n.times_limb(2);
    let here: Big = worth_of(m);
    let next: Big = worth_of(m + 1);
    let both: Big = here.plus(&next);
    let against: Big = d.times(&both);
    match twice.against(&against) {
        Side::Above => true,
        Side::Same => m % 2 == 1,
        Side::Below => false,
    }
}

/// Whether `n / d` units read as the double `m`.
fn reads(n: &Big, d: &Big, m: u64) -> (answer: bool)
    requires
        0 < m < INFINITY,
        d@ > 0,
        n.limbs@.len() < 100000,
        d.limbs@.len() < 100000,
    ensures
        answer == is_nearest(n@ as int, d@ as int, m as int),
{
    let ghost whole = n@ as int;
    let ghost part = d@ as int;
    let answer: bool = past(n, d, m - 1) && !past(n, d, m);
    proof {
        if answer {
            assert forall|k: int| 0 <= k < m implies #[trigger] past_middle(whole, part, k) by {
                if k < m - 1 {
                    middles_increase(whole, part, k, m - 1);
                }
            }
            assert forall|k: int| m <= k < INFINITY implies !#[trigger] past_middle(
                whole,
                part,
                k,
            ) by {
                if k > m && past_middle(whole, part, k) {
                    middles_increase(whole, part, m as int, k);
                }
            }
        }
    }
    answer
}

// -- the shortest -----------------------------------------------------------

proof fn over_adds(d: nat, k: int)
    ensures
        over(d + 1, k) == over(d, k) + over(1, k),
        over(0, k) == 0,
{
    let s = unit() * tens(k);
    assert((d + 1) * s == d * s + 1 * s) by (nonlinear_arith);
    assert(0 * s == 0) by (nonlinear_arith);
}

/// If anything reads as the double, one of the two around it does, and is closer.
proof fn closest_are_around(m: int, d: nat, k: int, e: nat)
    requires
        0 < m < INFINITY,
        over(d, k) <= worth(m) * under(k) < over(d + 1, k),
        reads_as(e, k, m),
    ensures
        e <= d ==> reads_as(d, k, m) && distance(d, k, m) <= distance(e, k, m) && (e < d
            ==> distance(d, k, m) < distance(e, k, m)),
        e > d ==> reads_as(d + 1, k, m) && distance(d + 1, k, m) <= distance(e, k, m) && (e > d
            + 1 ==> distance(d + 1, k, m) < distance(e, k, m)),
{
    tens_are_positive(k);
    itself_reads(under(k), m);
    if e <= d {
        over_grows(e, d, k);
        between_reads_the_same(over(e, k), over(d, k), worth(m) * under(k), under(k), m);
    } else {
        over_grows(d + 1, e, k);
        between_reads_the_same(worth(m) * under(k), over(d + 1, k), over(e, k), under(k), m);
    }
}

/// Ten to the `k` in units.
fn step_of(k: i64) -> (step: Big)
    requires
        -2000 <= k <= 1000,
    ensures
        step@ == over(1, k as int),
        step.limbs@.len() <= 2100,
{
    let unit: Big = Big::power_of_two(1074);
    proof {
        tens_are_positive(k as int);
        let u = unit@;
        assert(1 * (u * 1) == u) by (nonlinear_arith);
        assert(1 * (u * tens(k as int)) == u * tens(k as int)) by (nonlinear_arith);
        tens_step(0);
    }
    if k <= 0 {
        unit
    } else {
        let ten: Big = power_of_ten(k as usize);
        unit.times(&ten)
    }
}

/// How often a power of ten still fits below a number.
fn take_digit(n: Big, step: &Big, limit: &Big, Ghost(base): Ghost<nat>, Ghost(k): Ghost<int>) -> (taken: (
    u8,
    Big,
))
    requires
        n@ == over(base, k),
        step@ == over(1, k),
        n@ <= limit@ < over(base + 10, k),
        n.limbs@.len() < 90000,
        step.limbs@.len() <= 2100,
    ensures
        taken.0 < 10,
        taken.1@ == over(base + taken.0 as nat, k),
        taken.1@ <= limit@ < over(base + taken.0 as nat + 1, k),
        taken.1.limbs@.len() <= n.limbs@.len() + 10 || taken.1.limbs@.len() <= 2110,
{
    let ghost start = n.limbs@.len();
    let mut sum: Big = n;
    let mut digit: u8 = 0;
    loop
        invariant
            digit < 10,
            start < 90000,
            step@ == over(1, k),
            step.limbs@.len() <= 2100,
            sum@ == over(base + digit as nat, k),
            sum@ <= limit@ < over(base + 10, k),
            sum.limbs@.len() <= start + digit || sum.limbs@.len() <= 2100 + digit,
        ensures
            digit < 10,
            sum@ == over(base + digit as nat, k),
            sum@ <= limit@ < over(base + digit as nat + 1, k),
            sum.limbs@.len() <= start + 10 || sum.limbs@.len() <= 2110,
        decreases 10 - digit,
    {
        let next: Big = sum.plus(step);
        proof {
            over_adds(base + digit as nat, k);
        }
        match next.against(limit) {
            Side::Above => {
                break;
            },
            _ => {
                proof {
                    if digit == 9 {
                        assert(base + digit as nat + 1 == base + 10);
                    }
                }
                sum = next;
                digit = digit + 1;
            },
        }
    }
    (digit, sum)
}

/// The digits of the number a double is written as, and the power of ten they
/// count.
fn shortest(m: u64) -> (written: (Vec<u8>, i64))
    requires
        0 < m < INFINITY,
    ensures
        is_shortest(m as int, number(written.0@), written.1 as int),
        written.0@.len() > 0,
        written.0@.len() <= 2000,
        -1074 <= written.1 <= 1000,
        written.0@[0] != 0,
        forall|i: int| 0 <= i < written.0@.len() ==> written.0@[i] < 10,
{
    let exponent: u64 = m / FRACTIONS;
    let first: u64 = if exponent < 1021 {
        0
    } else {
        (exponent - 1021) / 3 + 1
    };
    assert(exponent <= 2047);
    let mut k: i64 = first as i64;
    let mut digits: Vec<u8> = Vec::new();
    let mut n: Big = Big::from_u64(0);
    let mut divisor: Big = Big::from_u64(1);
    let mut limit: Big = worth_of(m);
    let ghost mm = m as int;
    proof {
        assert(k == first_power(mm));
        first_power_is_larger(mm, k as int);
        over_adds(0, k as int);
        assert(worth(mm) * 1 == worth(mm));
        assert forall|e: nat, j: int| j >= k implies !#[trigger] reads_as(e, j, mm) by {
            nothing_that_large(mm, e, j);
        }
    }
    loop
        invariant
            0 < m < INFINITY,
            mm == m,
            -1074 < k <= 400,
            digits@.len() <= 400 - k,
            forall|i: int| 0 <= i < digits@.len() ==> digits@[i] < 10,
            digits@.len() > 0 ==> digits@[0] != 0,
            n@ == over(number(digits@), k as int),
            divisor@ == under(k as int),
            limit@ == worth(mm) * under(k as int),
            n@ <= limit@ < over(number(digits@) + 1, k as int),
            n.limbs@.len() <= 3000 + 20 * (400 - k),
            divisor.limbs@.len() <= 3000 + 20 * (400 - k),
            limit.limbs@.len() <= 3000 + 20 * (400 - k),
            forall|e: nat, j: int| j >= k ==> !#[trigger] reads_as(e, j, mm),
        decreases k + 1074,
    {
        let ghost d = number(digits@);
        let ghost above = k as int;
        proof {
            tenfold_reads_the_same(d, above, mm);
            tenfold_reads_the_same(d + 1, above, mm);
            assert(10 * (d + 1) == 10 * d + 10);
        }
        if k <= 0 {
            proof {
                let w = worth(mm) as int;
                let v = under(above);
                assert(w * (10 * v) == 10 * (w * v)) by (nonlinear_arith);
            }
            n = n.times_limb(10);
            divisor = divisor.times_limb(10);
            limit = limit.times_limb(10);
        }
        k = k - 1;
        let step: Big = step_of(k);
        let (digit, sum) = take_digit(n, &step, &limit, Ghost(10 * d), Ghost(k as int));
        let ghost below = 10 * d + digit as nat;
        let ghost before = digits@;
        if digits.len() > 0 || digit > 0 {
            digits.push(digit);
            assert(digits@.drop_last() =~= before);
        }
        assert(number(digits@) == below);
        let next: Big = sum.plus(&step);
        proof {
            over_adds(below, k as int);
            tens_are_positive(k as int);
        }
        let low: bool = reads(&sum, &divisor, m);
        let high: bool = reads(&next, &divisor, m);
        if low || high {
            let both: Big = sum.plus(&next);
            let twice: Big = limit.times_limb(2);
            let up: bool = match twice.against(&both) {
                Side::Below => false,
                _ => true,
            };
            proof {
                assert forall|e: nat, j: int| #[trigger] reads_as(e, j, mm) implies j <= k by {
                    if j >= above {
                        assert(!reads_as(e, j, mm));
                    }
                }
                if digit == 9 {
                    assert(below + 1 == 10 * (d + 1));
                    assert(!reads_as(d + 1, above, mm));
                }
                if below == 0 {
                    nothing_reads_as_more(k as int, mm);
                }
            }
            if high && (!low || up) {
                proof {
                    assert(reads_as(below + 1, k as int, mm));
                    assert(digit < 9);
                    assert forall|e: nat| #[trigger] reads_as(e, k as int, mm) implies distance(
                        below + 1,
                        k as int,
                        mm,
                    ) < distance(e, k as int, mm) || (distance(below + 1, k as int, mm)
                        == distance(e, k as int, mm) && e <= below + 1) by {
                        closest_are_around(mm, below, k as int, e);
                    }
                }
                let ghost taken = digits@;
                if digits.len() == 0 {
                    digits.push(1);
                    assert(digits@.drop_last() =~= taken);
                } else {
                    let last: usize = digits.len() - 1;
                    digits.set(last, digit + 1);
                    assert(digits@.drop_last() =~= taken.drop_last());
                    assert(taken.last() == digit);
                }
                assert(number(digits@) == below + 1);
            } else {
                proof {
                    assert(reads_as(below, k as int, mm));
                    assert forall|e: nat| #[trigger] reads_as(e, k as int, mm) implies distance(
                        below,
                        k as int,
                        mm,
                    ) < distance(e, k as int, mm) || (distance(below, k as int, mm) == distance(
                        e,
                        k as int,
                        mm,
                    ) && e <= below) by {
                        closest_are_around(mm, below, k as int, e);
                    }
                }
            }
            return (digits, k);
        }
        proof {
            if k == -1074 {
                last_power_is_exact(mm, below);
            }
            assert forall|e: nat, j: int| j >= k implies !#[trigger] reads_as(e, j, mm) by {
                if j == k && reads_as(e, j, mm) {
                    closest_are_around(mm, below, k as int, e);
                }
            }
        }
        n = sum;
    }
}

// -- writing it down --------------------------------------------------------

fn push_digits(out: &mut String, digits: &Vec<u8>, from: usize, to: usize)
    requires
        from <= to <= digits@.len(),
        forall|i: int| 0 <= i < digits@.len() ==> digits@[i] < 10,
    ensures
        final(out)@ == old(out)@ + digit_chars(digits@.subrange(from as int, to as int)),
{
    let ghost start = out@;
    let mut i: usize = from;
    assert(start =~= start + digit_chars(digits@.subrange(from as int, from as int)));
    while i < to
        invariant
            from <= i <= to <= digits@.len(),
            forall|i: int| 0 <= i < digits@.len() ==> digits@[i] < 10,
            out@ == start + digit_chars(digits@.subrange(from as int, i as int)),
        decreases to - i,
    {
        let c: char = (48u8 + digits[i]) as char;
        out.push(c);
        proof {
            assert(c == digit_char(digits@[i as int] as nat));
            assert(digit_chars(digits@.subrange(from as int, i + 1)) =~= digit_chars(
                digits@.subrange(from as int, i as int),
            ).push(c));
            assert(out@ =~= start + digit_chars(digits@.subrange(from as int, i + 1)));
        }
        i = i + 1;
    }
}

fn push_zeroes(out: &mut String, count: usize)
    ensures
        final(out)@ == old(out)@ + zeroes(count as int),
{
    let ghost start = out@;
    let mut i: usize = 0;
    assert(start =~= start + zeroes(0));
    while i < count
        invariant
            i <= count,
            out@ == start + zeroes(i as int),
        decreases count - i,
    {
        out.push('0');
        assert(out@ =~= start + zeroes(i + 1));
        i = i + 1;
    }
}

/// Write digits with the point where ten to the `k` puts it.
fn push_pointed(out: &mut String, digits: &Vec<u8>, k: i64)
    requires
        digits@.len() <= 2000,
        -2000 <= k <= 2000,
        forall|i: int| 0 <= i < digits@.len() ==> digits@[i] < 10,
    ensures
        final(out)@ == old(out)@ + pointed(digit_chars(digits@), k as int),
{
    let ghost start = out@;
    let ghost chars = digit_chars(digits@);
    let len: usize = digits.len();
    let whole: i64 = len as i64 + k;
    if k >= 0 {
        push_digits(out, digits, 0, len);
        push_zeroes(out, k as usize);
        proof {
            assert(digits@.subrange(0, len as int) =~= digits@);
            assert(start + chars + zeroes(k as int) =~= start + (chars + zeroes(k as int)));
        }
    } else if whole > 0 {
        push_digits(out, digits, 0, whole as usize);
        out.append(".");
        push_digits(out, digits, whole as usize, len);
        proof {
            assert(digit_chars(digits@.subrange(0, whole as int)) =~= chars.take(whole as int));
            assert(digit_chars(digits@.subrange(whole as int, len as int)) =~= chars.skip(
                whole as int,
            ));
            assert(start + chars.take(whole as int) + "."@ + chars.skip(whole as int) =~= start + (
            chars.take(whole as int) + "."@ + chars.skip(whole as int)));
        }
    } else {
        out.append("0.");
        push_zeroes(out, (-whole) as usize);
        push_digits(out, digits, 0, len);
        proof {
            assert(digits@.subrange(0, len as int) =~= digits@);
            assert(start + "0."@ + zeroes(-whole as int) + chars =~= start + ("0."@ + zeroes(
                -whole as int,
            ) + chars));
        }
    }
}

/// A double in decimal: the fewest digits that read back as it, and of those the
/// closest to it.
pub fn text_of(bits: u64) -> (text: String)
    ensures
        text@ == float_text(bits),
{
    let m: u64 = without_sign(bits);
    if m > INFINITY {
        return "NaN".to_owned();
    }
    let mut text: String = if negative(bits) {
        "-".to_owned()
    } else {
        "".to_owned()
    };
    if m == INFINITY {
        text.append("inf");
    } else if m == 0 {
        text.append("0");
    } else {
        let (digits, k) = shortest(m);
        push_pointed(&mut text, &digits, k);
        proof {
            shortest_is(m as int, number(digits@), k as int);
            digits_are_decimal(digits@);
        }
    }
    text
}

} // verus!
