//! That nothing is left that could have been worked out.

use vstd::prelude::*;

use super::again::{elimination_ends, propagation_ends};
use super::dead::{is_read, staying, stays};
use super::facts::{meet, Facts, Known};
use super::optimise::{fully_propagated, optimised};
use super::rewrite::{known_replaced, rewritten_instr, rewritten_instrs, rewritten_term};
use crate::ast::BinOp;
use crate::ir::block::{BlockView, TermView};
use crate::ir::fold::{folded_bin, folded_comparison};
use crate::ir::func::{well_formed, FunctionView};
use crate::ir::instr::InstrView;
use crate::ir::value::{Num, VReg, Value};

verus! {

/// Whether an operand is a number, or a register known to hold it.
pub open spec fn is_known(value: Value, facts: Facts, word: i64) -> bool {
    match value {
        Value::Const(c) => c == word,
        Value::Reg(reg) => facts[reg.0 as int] == Some(Known::Const(word)),
    }
}

/// **An operation on what is known is worked out**, where it has an answer; and what it
/// leaves is known from there on.
pub proof fn known_operations_are_worked_out(
    facts: Facts,
    num: Num,
    op: BinOp,
    by: crate::ast::CmpOp,
    dst: VReg,
    lhs: Value,
    rhs: Value,
    a: i64,
    b: i64,
)
    requires
        dst.0 < facts.len(),
        is_known(lhs, facts, a),
        is_known(rhs, facts, b),
    ensures
        ({
            let (after, then) = rewritten_instr(
                InstrView::Bin { num, op, dst, lhs, rhs },
                facts,
            );
            let answer = folded_bin(num, op, Value::Const(a), Value::Const(b));
            !(num is Float && op is Rem) && answer is Some ==> {
                &&& after == (InstrView::Const { dst, val: answer->0 })
                &&& is_known(Value::Reg(dst), then, answer->0)
            }
        }),
        ({
            let (after, then) = rewritten_instr(
                InstrView::Cmp { num, op: by, dst, lhs, rhs },
                facts,
            );
            let answer = folded_comparison(num, by, Value::Const(a), Value::Const(b));
            answer is Some ==> {
                &&& after == (InstrView::Const { dst, val: answer->0 })
                &&& is_known(Value::Reg(dst), then, answer->0)
            }
        }),
        ({
            let (after, then) = rewritten_instr(InstrView::Copy { dst, src: lhs }, facts);
            &&& after == (InstrView::Const { dst, val: a })
            &&& is_known(Value::Reg(dst), then, a)
        }),
        is_known(Value::Reg(dst), rewritten_instr(InstrView::Const { dst, val: a }, facts).1, a),
{
    let both = seq![lhs, rhs];
    let bin = InstrView::Bin { num, op, dst, lhs, rhs };
    let cmp = InstrView::Cmp { num, op: by, dst, lhs, rhs };
    let copy = InstrView::Copy { dst, src: lhs };
    let put = super::rewrite::folded_operands(bin, facts);
    assert(put.len() == 2 && put[0] == Value::Const(a) && put[1] == Value::Const(b));
    let also = super::rewrite::folded_operands(cmp, facts);
    assert(also.len() == 2 && also[0] == Value::Const(a) && also[1] == Value::Const(b));
    let one = super::rewrite::folded_operands(copy, facts);
    assert(one.len() == 1 && one[0] == Value::Const(a));
}

/// **A branch on what is known is not a branch any more**, and a value known is returned
/// as itself.
pub proof fn known_branches_are_taken(term: TermView, facts: Facts, c: i64)
    ensures
        match term {
            TermView::Branch { cond, then_blk, else_blk } => is_known(cond, facts, c)
                ==> rewritten_term(term, facts) == TermView::Jump(
                if c != 0 {
                    then_blk
                } else {
                    else_blk
                },
            ),
            TermView::Return(Some(value)) => is_known(value, facts, c) ==> rewritten_term(
                term,
                facts,
            ) == TermView::Return(Some(Value::Const(c))),
            _ => rewritten_term(term, facts) == term,
        },
{
}

/// **Ways that agree keep what they say; ways that do not lose it**; and one that has not
/// come to a register yet says nothing of it.
pub proof fn ways_keep_what_they_agree_on(a: Facts, b: Facts, r: int, x: i64, y: i64)
    requires
        0 <= r < a.len(),
    ensures
        a[r] == Some(Known::Const(x)) && b[r] == Some(Known::Const(x)) ==> meet(a, b)[r] == Some(
            Known::Const(x),
        ),
        a[r] == Some(Known::Const(x)) && b[r] == Some(Known::Const(y)) && x != y ==> meet(a, b)[r]
            == Some(Known::Unknown),
        a[r] == Some(Known::Unknown) && b[r] is Some ==> meet(a, b)[r] == Some(Known::Unknown),
        a[r] is Some && b[r] == Some(Known::Unknown) ==> meet(a, b)[r] == Some(Known::Unknown),
        a[r] is None ==> meet(a, b)[r] == b[r],
        b[r] is None ==> meet(a, b)[r] == a[r],
{
}

proof fn rewritten_in_place(facts: Facts, instrs: Seq<InstrView>, n: int, k: int)
    requires
        0 <= k < n,
    ensures
        rewritten_instrs(facts, instrs, n).0.len() == n,
        rewritten_instrs(facts, instrs, n).0[k] == rewritten_instr(
            instrs[k],
            rewritten_instrs(facts, instrs, k).1,
        ).0,
    decreases n,
{
    rewritten_length(facts, instrs, n - 1);
    if k < n - 1 {
        rewritten_in_place(facts, instrs, n - 1, k);
    }
}

proof fn rewritten_length(facts: Facts, instrs: Seq<InstrView>, n: int)
    requires
        0 <= n,
    ensures
        rewritten_instrs(facts, instrs, n).0.len() == n,
    decreases n,
{
    if n > 0 {
        rewritten_length(facts, instrs, n - 1);
    }
}

proof fn what_stays_stays(blocks: Seq<BlockView>, instrs: Seq<InstrView>, n: int, k: int)
    requires
        0 <= n <= instrs.len(),
        0 <= k < staying(blocks, instrs, n).len(),
    ensures
        stays(blocks, staying(blocks, instrs, n)[k]),
    decreases n,
{
    if n > 0 {
        let fewer = staying(blocks, instrs, n - 1);
        if k < fewer.len() {
            what_stays_stays(blocks, instrs, n - 1, k);
        }
    }
}

/// **Nothing is left that could have been worked out or left out.** In an optimised
/// function no operation that has an answer is done on two constants, no constant is
/// compared with another or copied, and nothing branches on one; and every instruction
/// writes nothing, or writes what something reads, or may stop the program, or calls, or
/// says where an argument arrives.
pub proof fn nothing_is_left_to_do(function: FunctionView, b: int, k: int)
    requires
        well_formed(function),
        0 <= b < optimised(function).blocks.len(),
        0 <= k < optimised(function).blocks[b].instrs.len(),
    ensures
        ({
            let done = optimised(function);
            let instr = done.blocks[b].instrs[k];
            &&& instr matches InstrView::Bin {
                num,
                op,
                lhs: Value::Const(x),
                rhs: Value::Const(y),
                ..
            } ==> num is Float && op is Rem || folded_bin(
                num,
                op,
                Value::Const(x),
                Value::Const(y),
            ) is None
            &&& !(instr matches InstrView::Cmp { lhs: Value::Const(_), rhs: Value::Const(_), .. })
            &&& !(instr matches InstrView::Copy { src: Value::Const(_), .. })
            &&& !(done.blocks[b].term matches TermView::Branch { cond: Value::Const(_), .. })
            &&& instr.written() is None || is_read(done.blocks, instr.written()->0)
                || instr.may_fail() || instr.calls() || instr is Param
        }),
{
    let middle = fully_propagated(function);
    let done = optimised(function);
    propagation_ends(function);
    elimination_ends(middle);
    let instrs = done.blocks[b].instrs;
    let n = instrs.len() as int;
    let instr = instrs[k];
    let facts = super::facts::analysed(done).entries[b];
    assert(known_replaced(done).blocks[b] == done.blocks[b]);
    rewritten_in_place(facts, instrs, n, k);
    let at = rewritten_instrs(facts, instrs, k).1;
    assert(rewritten_instr(instr, at).0 == instr);
    constants_are_worked_out(instr, at);
    assert(super::dead::without_dead(done).blocks[b] == done.blocks[b]);
    what_stays_stays(done.blocks, instrs, n, k);
}

/// What works on constants alone does not come out as it was.
proof fn constants_are_worked_out(instr: InstrView, facts: Facts)
    requires
        rewritten_instr(instr, facts).0 == instr,
    ensures
        instr matches InstrView::Bin { num, op, lhs: Value::Const(x), rhs: Value::Const(y), .. }
            ==> num is Float && op is Rem || folded_bin(
            num,
            op,
            Value::Const(x),
            Value::Const(y),
        ) is None,
        !(instr matches InstrView::Cmp { lhs: Value::Const(_), rhs: Value::Const(_), .. }),
        !(instr matches InstrView::Copy { src: Value::Const(_), .. }),
{
    let put = super::rewrite::folded_operands(instr, facts);
    match instr {
        InstrView::Bin { lhs: Value::Const(x), rhs: Value::Const(y), .. } => {
            assert(put.len() == 2 && put[0] == Value::Const(x) && put[1] == Value::Const(y));
        },
        InstrView::Cmp { lhs: Value::Const(x), rhs: Value::Const(y), .. } => {
            assert(put.len() == 2 && put[0] == Value::Const(x) && put[1] == Value::Const(y));
        },
        InstrView::Copy { src: Value::Const(x), .. } => {
            assert(put.len() == 1 && put[0] == Value::Const(x));
        },
        _ => {},
    }
}

} // verus!
