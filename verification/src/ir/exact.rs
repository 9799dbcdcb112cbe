//! What a folded operation answers, said of the numbers it was asked about.

use vstd::arithmetic::power2::{lemma_pow2_pos, pow2};
use vstd::prelude::*;

use crate::ast::{BinOp, CmpOp, LogicOp};
use crate::float::{
    bare, is_infinite, is_nan, is_nearest, is_negative, is_zero, middles_increase, nearest_is,
    past_middle, signed_worth, unit, worth, worth_increases, INFINITY, NAN, SIGN,
};
use crate::ir::fold::{bits, folded_bin, folded_comparison, folded_logic, negation, word, zero_of};
use crate::ir::value::{Num, Value};

verus! {

/// A word read as a double's bits and put back is the word, and the other way round.
pub proof fn bits_and_words(w: i64, b: u64)
    ensures
        word(bits(w)) == w,
        bits(word(b)) == b,
{
    assert((w as u64) as i64 == w) by (bit_vector);
    assert((b as i64) as u64 == b) by (bit_vector);
}

// -- rounding ---------------------------------------------------------------

/// Every ratio has a nearest double.
pub proof fn nearest_exists(n: int, d: int)
    requires
        d > 0,
    ensures
        is_nearest(n, d, crate::float::nearest(n, d) as int),
{
    let m = first_not_past(n, d, 0);
    assert forall|k: int| m <= k < INFINITY implies !#[trigger] past_middle(n, d, k) by {
        if past_middle(n, d, k) && m < k {
            middles_increase(n, d, m, k);
        }
    }
    assert(is_nearest(n, d, m as u64 as int));
    nearest_is(n, d, m as u64);
}

proof fn first_not_past(n: int, d: int, from: int) -> (m: int)
    requires
        d > 0,
        0 <= from <= INFINITY,
        forall|k: int| 0 <= k < from ==> #[trigger] past_middle(n, d, k),
    ensures
        0 <= m <= INFINITY,
        forall|k: int| 0 <= k < m ==> #[trigger] past_middle(n, d, k),
        m < INFINITY ==> !past_middle(n, d, m),
    decreases INFINITY - from,
{
    if from < INFINITY && past_middle(n, d, from) {
        first_not_past(n, d, from + 1)
    } else {
        from
    }
}

/// The magnitude of a number.
pub open spec fn size(n: int) -> int {
    if n < 0 {
        -n
    } else {
        n
    }
}

/// Whether a double is a number and not an infinity.
pub open spec fn is_finite(b: u64) -> bool {
    bare(b) < INFINITY
}

/// Whether an answer is the double nearest to `n / d` units, `n` taken with its sign.
pub open spec fn rounds_to(answer: i64, n: int, d: int) -> bool {
    &&& n < 0 ==> is_nearest(-n, d, bare(bits(answer)) as int) && is_negative(bits(answer))
    &&& n > 0 ==> is_nearest(n, d, bare(bits(answer)) as int) && !is_negative(bits(answer))
    &&& n == 0 ==> is_zero(bits(answer))
}

proof fn bare_of_nearest(m: u64)
    requires
        m <= INFINITY,
    ensures
        bare(m) == m,
        !is_negative(m),
        bare((m + SIGN) as u64) == m,
        is_negative((m + SIGN) as u64),
{
}

/// A double is worth nothing exactly where it is a zero.
pub proof fn worth_of_nothing(b: u64)
    requires
        is_finite(b),
    ensures
        signed_worth(b) == 0 <==> is_zero(b),
        signed_worth(b) < 0 ==> is_negative(b),
        signed_worth(b) > 0 ==> !is_negative(b),
{
    if bare(b) > 0 {
        worth_increases(0, bare(b) as int);
    }
}

/// **Adding and taking away are done on the numbers and rounded once.** Of two doubles
/// that are finite, the sum is the double nearest to what the two are worth together,
/// and the difference the one nearest to what is left of the first.
pub proof fn sums_are_nearest(a: i64, b: i64)
    requires
        is_finite(bits(a)),
        is_finite(bits(b)),
    ensures
        folded_bin(Num::Float, BinOp::Add, Value::Const(a), Value::Const(b)) matches Some(sum)
            && rounds_to(sum, signed_worth(bits(a)) + signed_worth(bits(b)), 1),
        folded_bin(Num::Float, BinOp::Sub, Value::Const(a), Value::Const(b)) matches Some(left)
            && rounds_to(left, signed_worth(bits(a)) - signed_worth(bits(b)), 1),
{
    let x = bits(a);
    let y = bits(b);
    let z = crate::float::negated(y);
    assert(signed_worth(z) == -signed_worth(y));
    assert(is_finite(z));
    sum_rounds(x, y);
    sum_rounds(x, z);
}

proof fn sum_rounds(x: u64, y: u64)
    requires
        is_finite(x),
        is_finite(y),
    ensures
        rounds_to(word(crate::float::sum_of(x, y)), signed_worth(x) + signed_worth(y), 1),
{
    let exact = signed_worth(x) + signed_worth(y);
    nearest_exists(exact, 1);
    nearest_exists(-exact, 1);
    bits_and_words(0, crate::float::sum_of(x, y));
    bare_of_nearest(crate::float::nearest(exact, 1));
    bare_of_nearest(crate::float::nearest(-exact, 1));
    bare_of_nearest(0);
}

/// **A product is done on the numbers and rounded once**: of two doubles that are
/// finite, it is the double nearest to what the one is worth times what the other is.
pub proof fn products_are_nearest(a: i64, b: i64)
    requires
        is_finite(bits(a)),
        is_finite(bits(b)),
    ensures
        folded_bin(Num::Float, BinOp::Mul, Value::Const(a), Value::Const(b)) matches Some(product)
            && rounds_to(
            product,
            signed_worth(bits(a)) * signed_worth(bits(b)),
            unit() as int,
        ) && is_negative(bits(product)) == (is_negative(bits(a)) != is_negative(bits(b))),
{
    let x = bits(a);
    let y = bits(b);
    let p = worth(bare(x) as int) as int;
    let q = worth(bare(y) as int) as int;
    lemma_pow2_pos(1074);
    nearest_exists(p * q, unit() as int);
    let m = crate::float::nearest(p * q, unit() as int);
    bare_of_nearest(m);
    bits_and_words(0, crate::float::product_of(x, y));
    let n = signed_worth(x) * signed_worth(y);
    assert(n == p * q || n == -(p * q)) by (nonlinear_arith)
        requires
            n == signed_worth(x) * signed_worth(y),
            signed_worth(x) == p || signed_worth(x) == -p,
            signed_worth(y) == q || signed_worth(y) == -q,
    ;
    worth_of_nothing(x);
    worth_of_nothing(y);
    assert(0 <= p * q) by (nonlinear_arith)
        requires
            p >= 0,
            q >= 0,
    ;
    if is_negative(x) == is_negative(y) {
        assert(n == p * q) by (nonlinear_arith)
            requires
                n == signed_worth(x) * signed_worth(y),
                signed_worth(x) == p && signed_worth(y) == q || signed_worth(x) == -p
                    && signed_worth(y) == -q,
        ;
    } else {
        assert(n == -(p * q)) by (nonlinear_arith)
            requires
                n == signed_worth(x) * signed_worth(y),
                signed_worth(x) == p && signed_worth(y) == -q || signed_worth(x) == -p
                    && signed_worth(y) == q,
        ;
    }
    if n == 0 {
        zero_is_nearest_to_nothing(unit() as int);
    }
}

proof fn zero_is_nearest_to_nothing(d: int)
    requires
        d > 0,
    ensures
        crate::float::nearest(0, d) == 0,
{
    assert forall|k: int| 0 <= k < INFINITY implies !#[trigger] past_middle(0, d, k) by {
        worth_increases(k, k + 1);
        let x = worth(k) + worth(k + 1);
        assert(d * x > 0) by (nonlinear_arith)
            requires
                d > 0,
                x > 0,
        ;
    }
    nearest_is(0, d, 0);
}

/// **A quotient is what the first is worth by what the second is**, rounded once: of two
/// doubles that are finite, the second no zero, it is the double nearest to the exact
/// quotient.
pub proof fn quotients_are_nearest(a: i64, b: i64)
    requires
        is_finite(bits(a)),
        is_finite(bits(b)),
        !is_zero(bits(b)),
    ensures
        folded_bin(Num::Float, BinOp::Div, Value::Const(a), Value::Const(b)) matches Some(quotient)
            && (signed_worth(bits(b)) > 0 ==> rounds_to(
            quotient,
            signed_worth(bits(a)) * unit(),
            signed_worth(bits(b)),
        )) && (signed_worth(bits(b)) < 0 ==> rounds_to(
            quotient,
            -signed_worth(bits(a)) * unit(),
            -signed_worth(bits(b)),
        )) && is_negative(bits(quotient)) == (is_negative(bits(a)) != is_negative(bits(b))),
{
    let x = bits(a);
    let y = bits(b);
    let p = worth(bare(x) as int) as int;
    let q = worth(bare(y) as int) as int;
    let u = unit() as int;
    lemma_pow2_pos(1074);
    worth_of_nothing(x);
    worth_of_nothing(y);
    nearest_exists(p * u, q);
    let m = crate::float::nearest(p * u, q);
    bare_of_nearest(m);
    bits_and_words(0, crate::float::quotient_of(x, y));
    assert((-p) * u == -(p * u)) by (nonlinear_arith);
    assert(p > 0 ==> p * u > 0) by (nonlinear_arith)
        requires
            u > 0,
    ;
    assert(p == 0 ==> p * u == 0) by (nonlinear_arith);
    if p == 0 {
        zero_is_nearest_to_nothing(q);
    }
}

/// **What is no number, and what is past every number**: a NaN on either side gives the
/// NaN; infinities add up unless they pull apart; nothing times an infinity, an infinity
/// by an infinity and nothing by nothing are NaN; what is not nothing by nothing is an
/// infinity, and a number by an infinity is nothing.
pub proof fn past_every_number(a: i64, b: i64)
    ensures
        ({
            let x = bits(a);
            let y = bits(b);
            let apart = is_negative(x) != is_negative(y);
            let answer = |op: BinOp|
                bits(folded_bin(Num::Float, op, Value::Const(a), Value::Const(b))->0);
            &&& is_nan(x) || is_nan(y) ==> is_nan(answer(BinOp::Add)) && is_nan(
                answer(BinOp::Sub),
            ) && is_nan(answer(BinOp::Mul)) && is_nan(answer(BinOp::Div))
            &&& is_infinite(x) && is_finite(y) ==> answer(BinOp::Add) == x && answer(BinOp::Sub)
                == x
            &&& is_finite(x) && is_infinite(y) ==> answer(BinOp::Add) == y && is_infinite(
                answer(BinOp::Sub),
            ) && is_negative(answer(BinOp::Sub)) != is_negative(y)
            &&& is_infinite(x) && is_infinite(y) ==> {
                &&& apart ==> is_nan(answer(BinOp::Add)) && answer(BinOp::Sub) == x
                &&& !apart ==> answer(BinOp::Add) == x && is_nan(answer(BinOp::Sub))
                &&& is_nan(answer(BinOp::Div))
            }
            &&& is_infinite(x) && is_zero(y) || is_zero(x) && is_infinite(y) ==> is_nan(
                answer(BinOp::Mul),
            )
            &&& is_infinite(x) && !is_nan(y) && !is_zero(y) || !is_nan(x) && !is_zero(x)
                && is_infinite(y) ==> is_infinite(answer(BinOp::Mul)) && is_negative(
                answer(BinOp::Mul),
            ) == apart
            &&& is_zero(x) && is_zero(y) ==> is_nan(answer(BinOp::Div))
            &&& is_infinite(x) && is_finite(y) || is_finite(x) && !is_zero(x) && is_zero(y)
                ==> is_infinite(answer(BinOp::Div)) && is_negative(answer(BinOp::Div)) == apart
            &&& is_finite(x) && is_infinite(y) ==> is_zero(answer(BinOp::Div)) && is_negative(
                answer(BinOp::Div),
            ) == apart
        }),
{
    let x = bits(a);
    let y = bits(b);
    bits_and_words(a, NAN);
    bits_and_words(a, x);
    bits_and_words(b, y);
    bits_and_words(0, crate::float::negated(y));
    bits_and_words(0, INFINITY);
    bits_and_words(0, (INFINITY + SIGN) as u64);
    bits_and_words(0, 0);
    bits_and_words(0, SIGN);
}

// -- whole numbers ----------------------------------------------------------

/// **A sum, a difference and a product of whole numbers are exact, or there is no
/// answer**: an answer exists exactly where the exact one fits in a word.
pub proof fn whole_sums_are_exact(a: i64, b: i64)
    ensures
        ({
            let sum = folded_bin(Num::Int, BinOp::Add, Value::Const(a), Value::Const(b));
            let left = folded_bin(Num::Int, BinOp::Sub, Value::Const(a), Value::Const(b));
            let product = folded_bin(Num::Int, BinOp::Mul, Value::Const(a), Value::Const(b));
            &&& sum is Some <==> -0x8000_0000_0000_0000 <= a + b < 0x8000_0000_0000_0000
            &&& sum is Some ==> sum->0 == a + b
            &&& left is Some <==> -0x8000_0000_0000_0000 <= a - b < 0x8000_0000_0000_0000
            &&& left is Some ==> left->0 + b == a
            &&& product is Some <==> -0x8000_0000_0000_0000 <= a * b < 0x8000_0000_0000_0000
            &&& product is Some ==> product->0 == a * b
        }),
{
}

/// **A division leaves what its remainder says**: the quotient times the divisor and the
/// remainder make up the number divided, the remainder is smaller than the divisor and
/// on the side of zero the number is on. There is an answer exactly where the divisor is
/// not zero and the quotient fits in a word.
pub proof fn divisions_make_up_the_whole(a: i64, b: i64)
    ensures
        ({
            let quotient = folded_bin(Num::Int, BinOp::Div, Value::Const(a), Value::Const(b));
            let rest = folded_bin(Num::Int, BinOp::Rem, Value::Const(a), Value::Const(b));
            &&& quotient is Some <==> b != 0 && !(a == i64::MIN && b == -1)
            &&& rest is Some <==> quotient is Some
            &&& quotient is Some ==> {
                let (q, r) = (quotient->0, rest->0);
                &&& q * b + r == a
                &&& -size(b as int) < r < size(b as int)
                &&& a >= 0 ==> r >= 0
                &&& a <= 0 ==> r <= 0
            }
        }),
{
    if b != 0 {
        let p = size(a as int);
        let d = size(b as int);
        let k = p / d;
        let m = p % d;
        assert(p == k * d + m && 0 <= m < d) by (nonlinear_arith)
            requires
                d > 0,
                p >= 0,
                k == p / d,
                m == p % d,
        ;
        assert(0 <= k <= p) by (nonlinear_arith)
            requires
                p == k * d + m,
                0 <= m < d,
                d > 0,
                p >= 0,
        ;
        assert(d >= 2 && p > 0 ==> k < p) by (nonlinear_arith)
            requires
                p == k * d + m,
                0 <= m < d,
                k >= 0,
        ;
        assert((-k) * (b as int) == -(k * b)) by (nonlinear_arith);
        assert(k * (-d) == -(k * d)) by (nonlinear_arith);
    }
}

// -- comparing --------------------------------------------------------------

/// **A comparison says how its left side stands to its right**, as a one or a zero: of
/// whole numbers the words themselves, of doubles what they are worth. A NaN stands to
/// nothing in any way but that of being different.
pub proof fn comparisons_say_how_they_stand(a: i64, b: i64)
    ensures
        ({
            let whole = |op: CmpOp|
                folded_comparison(Num::Int, op, Value::Const(a), Value::Const(b)) == Some(1i64);
            let double = |op: CmpOp|
                folded_comparison(Num::Float, op, Value::Const(a), Value::Const(b)) == Some(1i64);
            let x = signed_worth(bits(a));
            let y = signed_worth(bits(b));
            let numbers = !is_nan(bits(a)) && !is_nan(bits(b));
            &&& whole(CmpOp::Eq) <==> a == b
            &&& whole(CmpOp::Ne) <==> a != b
            &&& whole(CmpOp::Lt) <==> a < b
            &&& whole(CmpOp::Le) <==> a <= b
            &&& whole(CmpOp::Gt) <==> b < a
            &&& whole(CmpOp::Ge) <==> b <= a
            &&& double(CmpOp::Eq) <==> numbers && x == y
            &&& double(CmpOp::Ne) <==> !numbers || x != y
            &&& double(CmpOp::Lt) <==> numbers && x < y
            &&& double(CmpOp::Le) <==> numbers && x <= y
            &&& double(CmpOp::Gt) <==> numbers && y < x
            &&& double(CmpOp::Ge) <==> numbers && y <= x
        }),
        forall|num: Num, op: CmpOp|
            #[trigger] folded_comparison(num, op, Value::Const(a), Value::Const(b)) == Some(0i64)
                || folded_comparison(num, op, Value::Const(a), Value::Const(b)) == Some(1i64),
{
}

/// **What is not known is not folded**: an operation one of whose operands is a register
/// has no answer yet.
pub proof fn only_what_is_known_is_folded(num: Num, op: BinOp, by: CmpOp, a: Value, b: Value)
    requires
        a is Reg || b is Reg,
    ensures
        folded_bin(num, op, a, b) is None,
        folded_comparison(num, by, a, b) is None,
{
}

/// **A left side decides `&&` by being false and `||` by being true**, and then it is the
/// answer; otherwise the right side is still to be asked.
pub proof fn left_sides_decide(c: i64)
    ensures
        folded_logic(LogicOp::And, Value::Const(c)) == (if c == 0 {
            Some(0i64)
        } else {
            None
        }),
        folded_logic(LogicOp::Or, Value::Const(c)) == (if c != 0 {
            Some(1i64)
        } else {
            None
        }),
        forall|op: LogicOp, reg: crate::ir::value::VReg|
            #[trigger] folded_logic(op, Value::Reg(reg)) is None,
{
}

// -- the other sign ---------------------------------------------------------

/// **Negating is taking away from the zero it is taken away from**, whichever kind of
/// number it is, and twice is not at all. Of whole numbers, what is negated and what it
/// was come to nothing but for the one that has no opposite; of doubles, it is worth as
/// much on the other side.
pub proof fn negating_is_taking_from_zero(value: i64)
    ensures
        negation(Num::Int, negation(Num::Int, value)) == value,
        negation(Num::Float, negation(Num::Float, value)) == value,
        value != i64::MIN ==> value + negation(Num::Int, value) == 0,
        value != i64::MIN ==> folded_bin(
            Num::Int,
            BinOp::Sub,
            zero_of(Num::Int),
            Value::Const(value),
        ) == Some(negation(Num::Int, value)),
        signed_worth(bits(negation(Num::Float, value))) == -signed_worth(bits(value)),
        is_negative(bits(negation(Num::Float, value))) != is_negative(bits(value)),
        !is_nan(bits(value)) ==> folded_bin(
            Num::Float,
            BinOp::Sub,
            zero_of(Num::Float),
            Value::Const(value),
        ) == Some(negation(Num::Float, value)),
{
    let x = bits(value);
    let y = crate::float::negated(x);
    bits_and_words(value, y);
    bits_and_words(value, SIGN);
    bits_and_words(negation(Num::Float, value), x);
    assert(crate::float::negated(y) == x);
    if !is_nan(x) {
        let exact = signed_worth(SIGN) + signed_worth(y);
        assert(worth(0) == 0);
        assert(exact == -signed_worth(x));
        if is_finite(x) {
            worth_of_nothing(x);
            worth_of_nothing(y);
            crate::float::nearest_to_itself(bare(x));
        }
    }
}

// -- what nearest means -----------------------------------------------------

/// How far a double is from `n / d` units, times `d`.
pub open spec fn off_by(n: int, d: int, m: int) -> int {
    size(n - d * worth(m))
}

/// **The nearest double is no further off than any other**, and where another is just as
/// near, it is the even one.
pub proof fn the_nearest_is_nearest(n: int, d: int, m: int, k: int)
    requires
        d > 0,
        n >= 0,
        is_nearest(n, d, m),
        m < INFINITY,
        0 <= k < INFINITY,
    ensures
        off_by(n, d, m) <= off_by(n, d, k),
        k != m && off_by(n, d, m) == off_by(n, d, k) ==> m % 2 == 0,
{
    let w = worth(m) as int;
    let v = worth(k) as int;
    if k < m {
        assert(past_middle(n, d, m - 1));
        let u = worth(m - 1) as int;
        worth_increases(m - 1, m);
        if k < m - 1 {
            worth_increases(k, m - 1);
        }
        assert(d * (u + w) == d * u + d * w) by (nonlinear_arith);
        assert(d * v <= d * u < d * w) by (nonlinear_arith)
            requires
                d > 0,
                v <= u < w,
        ;
        if k < m - 1 {
            assert(d * v < d * u) by (nonlinear_arith)
                requires
                    d > 0,
                    v < u,
            ;
        }
    } else if k > m {
        assert(!past_middle(n, d, m));
        let u = worth(m + 1) as int;
        worth_increases(m, m + 1);
        if k > m + 1 {
            worth_increases(m + 1, k);
        }
        assert(d * (w + u) == d * w + d * u) by (nonlinear_arith);
        assert(d * w < d * u <= d * v) by (nonlinear_arith)
            requires
                d > 0,
                w < u <= v,
        ;
        if k > m + 1 {
            assert(d * u < d * v) by (nonlinear_arith)
                requires
                    d > 0,
                    u < v,
            ;
        }
    }
}

/// **What is too far past the greatest double is infinite**: half a step past it, or more.
pub proof fn what_is_too_great_is_infinite(n: int, d: int, m: int)
    requires
        d > 0,
        is_nearest(n, d, m),
    ensures
        m == INFINITY <==> 2 * n >= d * (worth(INFINITY - 1) + worth(INFINITY as int)),
{
    let greatest = INFINITY - 1;
    assert(greatest % 2 == 1);
    if m < INFINITY {
        assert(!past_middle(n, d, greatest));
    } else {
        assert(past_middle(n, d, greatest));
    }
}

/// **A double is a fraction of fifty-two bits and an exponent.** One more in the exponent
/// is worth twice as much; the double after is worth one unit in the last place more; and
/// one is worth as many units as there are in one.
pub proof fn exponents_double(m: int)
    requires
        0 <= m < INFINITY,
    ensures
        worth(0) == 0,
        worth(1023int * 0x10_0000_0000_0000int) == unit(),
        0x10_0000_0000_0000 <= m && m + 0x10_0000_0000_0000 < INFINITY ==> worth(
            m + 0x10_0000_0000_0000,
        ) == 2 * worth(m),
        m < 0x20_0000_0000_0000 ==> worth(m) == m,
{
    let f = 0x10_0000_0000_0000int;
    let e = m / f;
    let r = m % f;
    vstd::arithmetic::power2::lemma2_to64();
    vstd::arithmetic::power2::lemma2_to64_rest();
    assert(pow2(52) == f);
    assert(1023 * f / f == 1023 && 1023 * f % f == 0);
    vstd::arithmetic::power2::lemma_pow2_adds(52, 1022);
    assert(worth(1023 * f) == f * pow2(1022));
    if f <= m && m + f < INFINITY {
        assert((m + f) / f == e + 1 && (m + f) % f == r) by (nonlinear_arith)
            requires
                e == m / f,
                r == m % f,
                f == 0x10_0000_0000_0000,
        ;
        assert(e >= 1) by (nonlinear_arith)
            requires
                e == m / f,
                f <= m,
                f == 0x10_0000_0000_0000,
        ;
        vstd::arithmetic::power2::lemma_pow2_unfold(e as nat);
        let p = pow2((e - 1) as nat) as int;
        assert((f + r) * (2 * p) == 2 * ((f + r) * p)) by (nonlinear_arith);
    }
    if m < 2 * f {
        if e <= 0 {
            assert(m == r);
        } else {
            assert(e == 1 && m == f + r);
            assert((f + r) * pow2(0) == f + r) by (nonlinear_arith)
                requires
                    pow2(0) == 1,
            ;
        }
    }
}

/// **A sum that comes to nothing is below nothing only where both were.**
pub proof fn nothing_has_a_sign(a: i64, b: i64)
    requires
        is_finite(bits(a)),
        is_finite(bits(b)),
        signed_worth(bits(a)) + signed_worth(bits(b)) == 0,
    ensures
        folded_bin(Num::Float, BinOp::Add, Value::Const(a), Value::Const(b)) matches Some(sum)
            && is_negative(bits(sum)) == (is_negative(bits(a)) && is_negative(bits(b))),
{
    let x = bits(a);
    let y = bits(b);
    bits_and_words(0, crate::float::sum_of(x, y));
    worth_of_nothing(x);
    worth_of_nothing(y);
    bare_of_nearest(0);
}

/// **An integer becomes the double nearest to it.**
pub proof fn whole_numbers_are_nearest(c: i64)
    ensures
        rounds_to(word(crate::float::float_of(c)), c * unit(), 1),
{
    let n = size(c as int) * unit();
    lemma_pow2_pos(1074);
    assert(n >= 0 && (c > 0 ==> c * unit() > 0 && n == c * unit()) && (c < 0 ==> c * unit() < 0
        && n == -(c * unit())) && (c == 0 ==> n == 0 && c * unit() == 0)) by (nonlinear_arith)
        requires
            n == size(c as int) * unit(),
            unit() > 0,
            size(c as int) == (if c < 0 {
                -(c as int)
            } else {
                c as int
            }),
    ;
    nearest_exists(n, 1);
    bare_of_nearest(crate::float::nearest(n, 1));
    bits_and_words(0, crate::float::float_of(c));
    if c == 0 {
        zero_is_nearest_to_nothing(1);
    }
}

/// What a double is cut down to is as many whole units as there are in it.
pub proof fn whole_parts_are_cut_down(b: u64)
    requires
        is_finite(b),
    ensures
        crate::ir::lower::pieces::cut_down(b, crate::float::whole_part(b)),
{
    let w = worth(bare(b) as int) as int;
    let u = unit() as int;
    lemma_pow2_pos(1074);
    let q = w / u;
    vstd::arithmetic::div_mod::lemma_fundamental_div_mod(w, u);
    vstd::arithmetic::div_mod::lemma_mod_bound(w, u);
    assert(q * u <= w < (q + 1) * u && q >= 0) by (nonlinear_arith)
        requires
            w == u * q + w % u,
            0 <= w % u < u,
            w >= 0,
            u > 0,
            q == w / u,
    ;
    assert((-q) * u == -(q * u) && (-q - 1) * u == -((q + 1) * u)) by (nonlinear_arith);
    worth_of_nothing(b);
    if w == 0 {
        assert(q == 0) by (nonlinear_arith)
            requires
                q * u <= 0,
                q >= 0,
                u > 0,
        ;
    }
}

/// And it is the only integer that is.
pub proof fn one_whole_part(b: u64, v: int)
    requires
        crate::ir::lower::pieces::cut_down(b, v),
    ensures
        v == crate::float::whole_part(b),
{
    whole_parts_are_cut_down(b);
    let w = crate::float::whole_part(b);
    let u = unit() as int;
    let n = signed_worth(b);
    lemma_pow2_pos(1074);
    if n >= 0 {
        assert(v == w) by (nonlinear_arith)
            requires
                u > 0,
                v * u <= n < (v + 1) * u,
                w * u <= n < (w + 1) * u,
        ;
    } else {
        assert(v == w) by (nonlinear_arith)
            requires
                u > 0,
                (v - 1) * u < n <= v * u,
                (w - 1) * u < n <= w * u,
        ;
    }
}

} // verus!
