//! Evaluating an operation now, when its operands are already known.

use vstd::prelude::*;

use crate::ast::{BinOp, CmpOp, LogicOp};
use crate::float;
use crate::ir::value::{Num, Value};

verus! {

/// The bits of a machine word, read as a double's.
pub open spec fn bits(word: i64) -> u64 {
    word as u64
}

/// A double's bits, as the machine word that carries them.
pub open spec fn word(bits: u64) -> i64 {
    bits as i64
}

pub fn bits_of(word: i64) -> (b: u64)
    ensures
        b == bits(word),
{
    word as u64
}

pub fn word_of(bits: u64) -> (w: i64)
    ensures
        w == word(bits),
{
    bits as i64
}

pub open spec fn zero_of(num: Num) -> Value {
    match num {
        Num::Int => Value::Const(0),
        Num::Float => Value::Const(word(float::SIGN)),
    }
}

/// What `-x` subtracts `x` from, which is the zero of whichever kind of number
/// it is.
///
/// A float's is **negative** zero: `-0.0 - x` is exactly `-x` for every value
/// there is, while `0.0 - x` answers `+0.0` where `x` was `+0.0` and `-0.0` was
/// meant.
pub fn zero_to_subtract_from(num: Num) -> (zero: Value)
    ensures
        zero == zero_of(num),
{
    match num {
        Num::Int => Value::Const(0),
        Num::Float => Value::Const(word_of(float::SIGN)),
    }
}

pub open spec fn negation(num: Num, value: i64) -> i64 {
    match num {
        // `-i64::MIN` does not fit, and wrapping is what the machine does with
        // it.
        Num::Int => if value == i64::MIN {
            value
        } else {
            (-value) as i64
        },
        Num::Float => word(float::negated(bits(value))),
    }
}

/// The same negation, done here because the operand was already known.
pub fn negate_const(num: Num, value: i64) -> (negated: i64)
    ensures
        negated == negation(num, value),
{
    match num {
        Num::Int => if value == i64::MIN {
            value
        } else {
            -value
        },
        Num::Float => word_of(float::negate(bits_of(value))),
    }
}

/// What `lhs op rhs` is, when both are already known and the machine would
/// answer.
pub open spec fn folded_bin(num: Num, op: BinOp, lhs: Value, rhs: Value) -> Option<i64> {
    match (lhs, rhs) {
        (Value::Const(a), Value::Const(b)) => match num {
            Num::Int => op.answer(a, b),
            Num::Float => Some(
                word(
                    match op {
                        BinOp::Add => float::sum_of(bits(a), bits(b)),
                        BinOp::Sub => float::difference_of(bits(a), bits(b)),
                        BinOp::Mul => float::product_of(bits(a), bits(b)),
                        _ => float::quotient_of(bits(a), bits(b)),
                    },
                ),
            ),
        },
        _ => None,
    }
}

/// Evaluate `lhs op rhs` now, when both are already known.
///
/// Answers `None` whenever the machine would not agree with the answer: an
/// operation the CPU would trap on stays an instruction, so the program still
/// fails where it was written instead of in the compiler.
///
/// A float folds by the same arithmetic the machine would do, IEEE-754 in
/// double precision, so folding one cannot come to a different answer from
/// running it. It never refuses: too large is an infinity and zero into zero is
/// a NaN, and both are values. There is no `%` on a float.
pub fn fold_bin(num: Num, op: BinOp, lhs: Value, rhs: Value) -> (folded: Option<i64>)
    requires
        !(num is Float && op is Rem && lhs is Const && rhs is Const),
    ensures
        folded == folded_bin(num, op, lhs, rhs),
{
    match (lhs, rhs) {
        (Value::Const(a), Value::Const(b)) => match num {
            Num::Int => op.apply(a, b),
            Num::Float => {
                let (a, b): (u64, u64) = (bits_of(a), bits_of(b));
                let answer: u64 = match op {
                    BinOp::Add => float::plus(a, b),
                    BinOp::Sub => float::minus(a, b),
                    BinOp::Mul => float::times(a, b),
                    _ => float::over(a, b),
                };
                Some(word_of(answer))
            },
        },
        _ => None,
    }
}

pub open spec fn folded_logic(op: LogicOp, lhs: Value) -> Option<i64> {
    match lhs {
        Value::Const(c) => if (c != 0) == (op.settled() != 0) {
            Some(op.settled())
        } else {
            None
        },
        Value::Reg(_) => None,
    }
}

/// What a short-circuiting operator answers when its left operand alone decides.
///
/// `false && x` is false and `true || x` is true whatever `x` would have been.
/// `None` means the right operand still has to run, and covers both "the left
/// one is unknown" and "the left one is known but decided nothing".
pub fn fold_logic(op: LogicOp, lhs: Value) -> (folded: Option<i64>)
    ensures
        folded == folded_logic(op, lhs),
{
    match lhs {
        Value::Const(c) => {
            let settled: i64 = op.short_circuit();
            if (c != 0) == (settled != 0) {
                Some(settled)
            } else {
                None
            }
        },
        Value::Reg(_) => None,
    }
}

/// Whether a comparison holds of two words.
pub open spec fn holds(num: Num, op: CmpOp, a: i64, b: i64) -> bool {
    match num {
        Num::Int => match op {
            CmpOp::Eq => a == b,
            CmpOp::Ne => a != b,
            CmpOp::Lt => a < b,
            CmpOp::Le => a <= b,
            CmpOp::Gt => a > b,
            CmpOp::Ge => a >= b,
        },
        Num::Float => {
            let less = float::less_floats(bits(a), bits(b));
            let more = float::less_floats(bits(b), bits(a));
            let same = float::equal_floats(bits(a), bits(b));
            match op {
                CmpOp::Eq => same,
                CmpOp::Ne => !same,
                CmpOp::Lt => less,
                CmpOp::Le => less || same,
                CmpOp::Gt => more,
                CmpOp::Ge => more || same,
            }
        },
    }
}

/// What a comparison answers when both sides are already known.
pub open spec fn folded_comparison(num: Num, op: CmpOp, lhs: Value, rhs: Value) -> Option<i64> {
    match (lhs, rhs) {
        (Value::Const(a), Value::Const(b)) => Some(
            if holds(num, op, a, b) {
                1
            } else {
                0
            },
        ),
        _ => None,
    }
}

/// The same for a comparison, whose result is the 0 or 1 a `bool` is.
///
/// Comparing two floats is **not** comparing their bits: `-0.0` and `0.0` are
/// equal and spelled differently, and a NaN is equal to nothing including
/// itself.
pub fn fold_cmp(num: Num, op: CmpOp, lhs: Value, rhs: Value) -> (folded: Option<i64>)
    ensures
        folded == folded_comparison(num, op, lhs, rhs),
{
    match (lhs, rhs) {
        (Value::Const(a), Value::Const(b)) => {
            let answer: bool = match num {
                Num::Int => match op {
                    CmpOp::Eq => a == b,
                    CmpOp::Ne => a != b,
                    CmpOp::Lt => a < b,
                    CmpOp::Le => a <= b,
                    CmpOp::Gt => a > b,
                    CmpOp::Ge => a >= b,
                },
                Num::Float => {
                    let (a, b): (u64, u64) = (bits_of(a), bits_of(b));
                    match op {
                        CmpOp::Eq => float::equal(a, b),
                        CmpOp::Ne => !float::equal(a, b),
                        CmpOp::Lt => float::less(a, b),
                        CmpOp::Le => float::less(a, b) || float::equal(a, b),
                        CmpOp::Gt => float::less(b, a),
                        CmpOp::Ge => float::less(b, a) || float::equal(a, b),
                    }
                },
            };
            if answer {
                Some(1)
            } else {
                Some(0)
            }
        },
        _ => None,
    }
}

/// Turning a comparison round answers the opposite, unless a NaN is compared:
/// an ordering against one holds neither way.
pub proof fn negated_comparison(num: Num, op: CmpOp, a: i64, b: i64)
    requires
        num is Float && !(op is Eq || op is Ne) ==> !float::is_nan(bits(a)) && !float::is_nan(
            bits(b),
        ),
    ensures
        holds(num, op.spec_negate(), a, b) == !holds(num, op, a, b),
{
}

} // verus!
