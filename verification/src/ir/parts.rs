//! What is said of an instruction in one place agrees with what is said in another, and what
//! a type takes in room.

use vstd::prelude::*;

use crate::ast::{CmpOp, Prim, Ty, TypeTable};
use crate::ir::block::{Block, TargetView, TermView, Terminator};
use crate::ir::func::Function;
use crate::ir::instr::{DivGuards, Instr, InstrView};
use crate::ir::lower::machine::{does, Machine};
use crate::ir::lower::program::ENTRY_POINT;
use crate::ir::lower::state::LoopFrame;
use crate::ir::value::{VReg, Value, CHAR_BYTES, MAX_FRAME_BYTES, STR_HEADER};

verus! {

/// **Operands put in are the operands there are.** An instruction given its own operands
/// is itself; given others, it has those, and writes what it wrote.
pub proof fn operands_come_back(instr: InstrView, operands: Seq<Value>)
    ensures
        instr.with_operands(instr.operands()) == instr,
        operands.len() == instr.operands().len() ==> {
            &&& instr.with_operands(operands).operands() == operands
            &&& instr.with_operands(operands).written() == instr.written()
        },
{
    let own = instr.operands();
    if let InstrView::CallVirtual { dst, slot, receiver, args } = instr {
        assert(own.subrange(1, own.len() as int) =~= args);
    }
    assert(instr.with_operands(own) == instr);
    if operands.len() == own.len() {
        assert(instr.with_operands(operands).operands() =~= operands);
    }
}

/// **The register put in is the one that is written**, and nothing else changes.
pub proof fn written_registers_come_back(instr: InstrView, reg: VReg)
    ensures
        instr.written() is None ==> instr.with_def(reg) == instr || instr.calls(),
        instr.written() is Some ==> {
            &&& instr.with_def(reg).written() == Some(reg)
            &&& instr.with_def(instr.written()->0) == instr
            &&& instr.with_def(reg).operands() == instr.operands()
        },
{
}

/// **An instruction changes no register but the one it is said to write**, and what it
/// leaves rests on its operands alone: another that reads the same leaves the same there.
pub proof fn only_what_is_written_changes(instr: InstrView, a: Machine, b: Machine, reg: VReg)
    requires
        does(instr, a, b),
        instr.written() != Some(reg),
    ensures
        b.regs[reg] == a.regs[reg],
{
}

/// **A division keeps exactly the checks it may need.** The check for zero is left out
/// only where the divisor is never zero, and kept only where it may be; and so with the
/// check for a quotient that does not fit.
pub proof fn guards_are_kept_where_needed(lhs: Value, rhs: Value, m: Machine)
    ensures
        !DivGuards::spec_of(lhs, rhs).zero ==> m.worth(rhs) != 0,
        !DivGuards::spec_of(lhs, rhs).overflow ==> !(m.worth(lhs) == i64::MIN && m.worth(rhs)
            == -1),
        DivGuards::spec_of(lhs, rhs).zero ==> exists|n: Machine| #[trigger] n.worth(rhs) == 0,
        DivGuards::spec_of(lhs, rhs).overflow && lhs != rhs ==> exists|n: Machine|
            #[trigger] n.worth(lhs) == i64::MIN && n.worth(rhs) == -1,
        DivGuards::spec_of(lhs, rhs).needed() <==> DivGuards::spec_of(lhs, rhs).zero
            || DivGuards::spec_of(lhs, rhs).overflow,
{
    if DivGuards::spec_of(lhs, rhs).zero {
        let n = match rhs {
            Value::Reg(reg) => m.with(reg, 0),
            Value::Const(_) => m,
        };
        assert(n.worth(rhs) == 0);
    }
    if DivGuards::spec_of(lhs, rhs).overflow && lhs != rhs {
        let one = match lhs {
            Value::Reg(reg) => m.with(reg, i64::MIN),
            Value::Const(_) => m,
        };
        let two = match rhs {
            Value::Reg(reg) => one.with(reg, -1i64),
            Value::Const(_) => one,
        };
        assert(two.worth(lhs) == i64::MIN && two.worth(rhs) == -1);
    }
}

/// **Comparisons are written as they are in the source**, and the opposite of an opposite
/// is what it was.
pub proof fn comparisons_are_written(op: CmpOp)
    ensures
        CmpOp::Eq.spec_symbol() == "=="@,
        CmpOp::Ne.spec_symbol() == "!="@,
        CmpOp::Lt.spec_symbol() == "<"@,
        CmpOp::Le.spec_symbol() == "<="@,
        CmpOp::Gt.spec_symbol() == ">"@,
        CmpOp::Ge.spec_symbol() == ">="@,
        op.spec_negate() != op,
        op.spec_negate().spec_negate() == op,
{
}

/// **Types are written as they are in the source.**
pub proof fn simple_types_are_written()
    ensures
        Prim::Int.spec_name() == "int"@,
        Prim::Float.spec_name() == "float"@,
        Prim::Bool.spec_name() == "bool"@,
        Prim::Char.spec_name() == "char"@,
        Prim::Str.spec_name() == "string"@,
{
}

/// **An instruction is seen as what it is**, every part of it in its own place.
pub proof fn instructions_are_seen_as_they_are(instr: Instr)
    ensures
        match instr {
            Instr::Const { dst, val } => instr@ == (InstrView::Const { dst, val }),
            Instr::StrAddr { dst, id } => instr@ == (InstrView::StrAddr { dst, id }),
            Instr::Copy { dst, src } => instr@ == (InstrView::Copy { dst, src }),
            Instr::Bin { num, op, dst, lhs, rhs } => instr@ == (InstrView::Bin { num, op, dst, lhs, rhs }),
            Instr::Cmp { num, op, dst, lhs, rhs } => instr@ == (InstrView::Cmp { num, op, dst, lhs, rhs }),
            Instr::Cast { dst, to, src } => instr@ == (InstrView::Cast { dst, to, src }),
            Instr::Frame { dst, offset } => instr@ == (InstrView::Frame { dst, offset }),
            Instr::Field { dst, base, offset } => instr@ == (InstrView::Field { dst, base, offset }),
            Instr::Elem { dst, base, index, len, scale } => instr@ == (InstrView::Elem { dst, base, index, len, scale }),
            Instr::Count { dst, of } => instr@ == (InstrView::Count { dst, of }),
            Instr::LoadChar { dst, addr } => instr@ == (InstrView::LoadChar { dst, addr }),
            Instr::CopyBytes { dst, src, bytes } => instr@ == (InstrView::CopyBytes { dst, src, bytes }),
            Instr::Fixup { at, count, stride } => instr@ == (InstrView::Fixup { at, count, stride }),
            Instr::Load { dst, addr } => instr@ == (InstrView::Load { dst, addr }),
            Instr::Store { addr, value } => instr@ == (InstrView::Store { addr, value }),
            Instr::Param { dst, index } => instr@ == (InstrView::Param { dst, index }),
            Instr::VTable { dst, class } => instr@ == (InstrView::VTable { dst, class }),
            Instr::VariantAddr { dst, id, tag } => instr@ == (InstrView::VariantAddr { dst, id, tag }),
            Instr::Call { dst, callee, args } => instr@ == (InstrView::Call { dst, callee, args: args@ }),
            Instr::CallVirtual { dst, slot, receiver, args } => instr@ == (InstrView::CallVirtual { dst, slot, receiver, args: args@ }),
            Instr::RtCall { dst, callee, args } => instr@ == (InstrView::RtCall { dst, callee, args: args@ }),
            Instr::Print { ty, val, newline } => instr@ == (InstrView::Print { ty, val, newline }),
            Instr::PrintText { id } => instr@ == (InstrView::PrintText { id }),
        },
{
}

/// **So are a function, its blocks and their endings**, and a loop that is still open.
pub proof fn functions_are_seen_as_they_are(
    function: Function,
    block: Block,
    term: Terminator,
    frame: LoopFrame,
)
    ensures
        function@.name == function.name@,
        function@.params == function.params@,
        function@.ret == function.ret,
        function@.frame_bytes == function.frame_bytes,
        function@.blocks.len() == function.blocks@.len(),
        forall|i: int|
            0 <= i < function.blocks@.len() ==> #[trigger] function@.blocks[i]
                == function.blocks@[i]@,
        function@.names.len() == function.vreg_names@.len(),
        forall|i: int|
            0 <= i < function.vreg_names@.len() ==> #[trigger] function@.names[i]
                == function.vreg_names@[i]@,
        block@.kind == block.kind,
        block@.params == block.params@,
        block@.index == block.index,
        block@.term == block.term@,
        block@.instrs.len() == block.instrs@.len(),
        forall|i: int|
            0 <= i < block.instrs@.len() ==> #[trigger] block@.instrs[i] == block.instrs@[i]@,
        match term {
            Terminator::Jump(target) => term@ == TermView::Jump(
                (TargetView { block: target.block, args: target.args@ }),
            ),
            Terminator::Branch { cond, then_blk, else_blk } => term@ == (TermView::Branch {
                cond,
                then_blk: TargetView { block: then_blk.block, args: then_blk.args@ },
                else_blk: TargetView { block: else_blk.block, args: else_blk.args@ },
            }),
            Terminator::Return(value) => term@ == TermView::Return(value),
        },
        frame@.breaks == frame.breaks@,
        frame@.continues == frame.continues@,
{
}

/// **A value takes the room its type has**: an array its own, an object enough for any
/// class below its own, and everything else a word; and what holds a list is a list, or an
/// array or an object that is said to. A character takes four bytes and the head of a
/// string eight, a frame holds no more than 256 kilobytes, and what runs first is `main`.
pub proof fn types_take_their_room(table: TypeTable, ty: Ty)
    ensures
        match ty {
            Ty::Array(id) => {
                &&& table.bytes_of(ty) == table.arrays@[id.0 as int].bytes
                &&& table.may_hold_a_list(ty) == table.arrays@[id.0 as int].holds_list
                &&& !ty.in_a_register()
            },
            Ty::Class(id) => {
                &&& table.bytes_of(ty) == table.classes@[id.0 as int].storage
                &&& table.may_hold_a_list(ty) == table.classes@[id.0 as int].holds_list
                &&& !ty.in_a_register()
            },
            Ty::List(_) => {
                &&& table.bytes_of(ty) == table.layout.word
                &&& table.may_hold_a_list(ty)
                &&& ty.in_a_register()
            },
            _ => {
                &&& table.bytes_of(ty) == table.layout.word
                &&& !table.may_hold_a_list(ty)
                &&& ty.in_a_register()
            },
        },
        CHAR_BYTES == 4,
        STR_HEADER == 8,
        MAX_FRAME_BYTES == 256 * 1024,
        ENTRY_POINT@ == "main"@,
{
}

} // verus!
