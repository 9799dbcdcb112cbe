//! The instruction set, and what each instruction reads, writes and can refuse.

use vstd::prelude::*;

use crate::ast::{BinOp, Builtin, ClassId, CmpOp, EnumId, Ty};
use crate::ir::value::{
    push_registers, registers, value_within, FuncId, Num, StrId, TextId, VReg, Value,
};

verus! {

#[allow(inconsistent_fields)]
#[derive(Clone, Debug)]
pub enum Instr {
    /// `dst = val`
    Const { dst: VReg, val: i64 },
    /// `dst = &strings[id]`
    StrAddr { dst: VReg, id: StrId },
    /// `dst = src`
    Copy { dst: VReg, src: Value },
    /// `dst = lhs op rhs`, with `num` saying how the operands are read.
    Bin { num: Num, op: BinOp, dst: VReg, lhs: Value, rhs: Value },
    /// `dst = (lhs op rhs)`, producing 0 or 1.
    Cmp { num: Num, op: CmpOp, dst: VReg, lhs: Value, rhs: Value },
    /// `dst = src`, read as one kind of number and written as the other.
    ///
    /// The only instruction that changes a word's *meaning* rather than its
    /// value. `to` is the direction, because there are only two. One of them
    /// can fail: a float too large, or no number at all, has no `int`.
    Cast { dst: VReg, to: Num, src: Value },
    /// `dst = &frame[offset]`: the address of a run of bytes this function owns.
    ///
    /// The frame region is reserved once, in the prologue, so this is an
    /// address computation and never an allocation.
    Frame { dst: VReg, offset: u32 },
    /// `dst = base + offset`: the address of a field.
    ///
    /// A field's place is settled before lowering and cannot be out of range,
    /// so there is nothing to check, and the offset is in bytes, not elements.
    Field { dst: VReg, base: Value, offset: u32 },
    /// `dst = base + index * scale`, the address of one element.
    ///
    /// `len` travels with it so the backend can bounds check, and *only* so it
    /// can: an index and a length both known at compile time need none.
    Elem { dst: VReg, base: Value, index: Value, len: Value, scale: u32 },
    /// `dst = len(of)`: the count that a string or a list carries in the word
    /// in front of its elements.
    Count { dst: VReg, of: Value },
    /// `dst = *addr`, reading four bytes and widening them.
    LoadChar { dst: VReg, addr: Value },
    /// `*dst = *src` for `bytes` bytes: what copying an aggregate *is*.
    CopyBytes { dst: Value, src: Value, bytes: u32 },
    /// The bytes of an aggregate have just been copied; now give the copy its
    /// own elements: `count` objects of `stride` bytes each, starting at `at`.
    Fixup { at: Value, count: Value, stride: u32 },
    /// `dst = *addr`
    Load { dst: VReg, addr: Value },
    /// `*addr = value`
    Store { addr: Value, value: Value },
    /// `dst = arg(index)`: the incoming parameter that arrived in the ABI's
    /// register for `index`.
    ///
    /// These are the first instructions of the entry block, so that a parameter
    /// has a *definition point* at the top of the function.
    Param { dst: VReg, index: u32 },
    /// `dst = &vtable(class)`: the address of a class's method table.
    VTable { dst: VReg, class: ClassId },
    /// `dst = &value(enum::variant)`: the one value a variant that carries
    /// nothing has, for an enum some other variant of which carries something.
    VariantAddr { dst: VReg, id: EnumId, tag: u32 },
    /// `dst = callee(args)`, with `dst` absent when the result is discarded.
    Call { dst: Option<VReg>, callee: FuncId, args: Vec<Value> },
    /// `dst = receiver.vtable[slot](args)`: a call whose target is decided by
    /// the object rather than by the program text.
    ///
    /// The receiver is named on its own as well as appearing in `args`, because
    /// where it sits among them moves: a call that returns an aggregate leads
    /// with the address it fills.
    CallVirtual { dst: Option<VReg>, slot: u32, receiver: Value, args: Vec<Value> },
    /// `dst = callee(args)`, where the callee is one of the compiler's own
    /// routines rather than anything the program declared.
    RtCall { dst: Option<VReg>, callee: Runtime, args: Vec<Value> },
    /// Write one value out, rendered according to its type.
    ///
    /// `newline` is set when this write is the last thing a `println` does, so
    /// that ending the line costs nothing.
    Print { ty: Ty, val: Value, newline: bool },
    /// Write out a run of text the program settled at compile time: the words
    /// around the specifiers in a format string, and the line ending a
    /// `println` adds.
    PrintText { id: TextId },
}

/// An [`Instr`] as what it says, its arguments a sequence.
#[allow(inconsistent_fields)]
#[verifier::ext_equal]
pub enum InstrView {
    Const { dst: VReg, val: i64 },
    StrAddr { dst: VReg, id: StrId },
    Copy { dst: VReg, src: Value },
    Bin { num: Num, op: BinOp, dst: VReg, lhs: Value, rhs: Value },
    Cmp { num: Num, op: CmpOp, dst: VReg, lhs: Value, rhs: Value },
    Cast { dst: VReg, to: Num, src: Value },
    Frame { dst: VReg, offset: u32 },
    Field { dst: VReg, base: Value, offset: u32 },
    Elem { dst: VReg, base: Value, index: Value, len: Value, scale: u32 },
    Count { dst: VReg, of: Value },
    LoadChar { dst: VReg, addr: Value },
    CopyBytes { dst: Value, src: Value, bytes: u32 },
    Fixup { at: Value, count: Value, stride: u32 },
    Load { dst: VReg, addr: Value },
    Store { addr: Value, value: Value },
    Param { dst: VReg, index: u32 },
    VTable { dst: VReg, class: ClassId },
    VariantAddr { dst: VReg, id: EnumId, tag: u32 },
    Call { dst: Option<VReg>, callee: FuncId, args: Seq<Value> },
    CallVirtual { dst: Option<VReg>, slot: u32, receiver: Value, args: Seq<Value> },
    RtCall { dst: Option<VReg>, callee: Runtime, args: Seq<Value> },
    Print { ty: Ty, val: Value, newline: bool },
    PrintText { id: TextId },
}

impl View for Instr {
    type V = InstrView;

    open spec fn view(&self) -> InstrView {
        match *self {
            Instr::Const { dst, val } => InstrView::Const { dst, val },
            Instr::StrAddr { dst, id } => InstrView::StrAddr { dst, id },
            Instr::Copy { dst, src } => InstrView::Copy { dst, src },
            Instr::Bin { num, op, dst, lhs, rhs } => InstrView::Bin { num, op, dst, lhs, rhs },
            Instr::Cmp { num, op, dst, lhs, rhs } => InstrView::Cmp { num, op, dst, lhs, rhs },
            Instr::Cast { dst, to, src } => InstrView::Cast { dst, to, src },
            Instr::Frame { dst, offset } => InstrView::Frame { dst, offset },
            Instr::Field { dst, base, offset } => InstrView::Field { dst, base, offset },
            Instr::Elem { dst, base, index, len, scale } => InstrView::Elem { dst, base, index, len, scale },
            Instr::Count { dst, of } => InstrView::Count { dst, of },
            Instr::LoadChar { dst, addr } => InstrView::LoadChar { dst, addr },
            Instr::CopyBytes { dst, src, bytes } => InstrView::CopyBytes { dst, src, bytes },
            Instr::Fixup { at, count, stride } => InstrView::Fixup { at, count, stride },
            Instr::Load { dst, addr } => InstrView::Load { dst, addr },
            Instr::Store { addr, value } => InstrView::Store { addr, value },
            Instr::Param { dst, index } => InstrView::Param { dst, index },
            Instr::VTable { dst, class } => InstrView::VTable { dst, class },
            Instr::VariantAddr { dst, id, tag } => InstrView::VariantAddr { dst, id, tag },
            Instr::Call { dst, callee, args } => InstrView::Call { dst, callee, args: args@ },
            Instr::CallVirtual { dst, slot, receiver, args } => InstrView::CallVirtual { dst, slot, receiver, args: args@ },
            Instr::RtCall { dst, callee, args } => InstrView::RtCall { dst, callee, args: args@ },
            Instr::Print { ty, val, newline } => InstrView::Print { ty, val, newline },
            Instr::PrintText { id } => InstrView::PrintText { id },
        }
    }
}

impl InstrView {
    /// Every operand, in the order it is written.
    pub open spec fn operands(self) -> Seq<Value> {
        match self {
            InstrView::Copy { src, .. } => seq![src],
            InstrView::Bin { lhs, rhs, .. } => seq![lhs, rhs],
            InstrView::Cmp { lhs, rhs, .. } => seq![lhs, rhs],
            InstrView::Cast { src, .. } => seq![src],
            InstrView::Field { base, .. } => seq![base],
            InstrView::Elem { base, index, len, .. } => seq![base, index, len],
            InstrView::Count { of, .. } => seq![of],
            InstrView::LoadChar { addr, .. } => seq![addr],
            InstrView::CopyBytes { dst, src, .. } => seq![dst, src],
            InstrView::Fixup { at, count, .. } => seq![at, count],
            InstrView::Load { addr, .. } => seq![addr],
            InstrView::Store { addr, value, .. } => seq![addr, value],
            InstrView::Call { args, .. } => args,
            InstrView::CallVirtual { receiver, args, .. } => seq![receiver] + args,
            InstrView::RtCall { args, .. } => args,
            InstrView::Print { val, .. } => seq![val],
            _ => seq![],
        }
    }

    /// The same instruction with other operands, one for each it has.
    pub open spec fn with_operands(self, operands: Seq<Value>) -> InstrView {
        match self {
            InstrView::Copy { dst, .. } => InstrView::Copy { dst, src: operands[0] },
            InstrView::Bin { num, op, dst, .. } => InstrView::Bin { num, op, dst, lhs: operands[0], rhs: operands[1] },
            InstrView::Cmp { num, op, dst, .. } => InstrView::Cmp { num, op, dst, lhs: operands[0], rhs: operands[1] },
            InstrView::Cast { dst, to, .. } => InstrView::Cast { dst, to, src: operands[0] },
            InstrView::Field { dst, offset, .. } => InstrView::Field { dst, offset, base: operands[0] },
            InstrView::Elem { dst, scale, .. } => InstrView::Elem { dst, scale, base: operands[0], index: operands[1], len: operands[2] },
            InstrView::Count { dst, .. } => InstrView::Count { dst, of: operands[0] },
            InstrView::LoadChar { dst, .. } => InstrView::LoadChar { dst, addr: operands[0] },
            InstrView::CopyBytes { bytes, .. } => InstrView::CopyBytes { bytes, dst: operands[0], src: operands[1] },
            InstrView::Fixup { stride, .. } => InstrView::Fixup { stride, at: operands[0], count: operands[1] },
            InstrView::Load { dst, .. } => InstrView::Load { dst, addr: operands[0] },
            InstrView::Store { .. } => InstrView::Store { addr: operands[0], value: operands[1] },
            InstrView::Call { dst, callee, .. } => InstrView::Call { dst, callee, args: operands },
            InstrView::CallVirtual { dst, slot, .. } => InstrView::CallVirtual { dst, slot, receiver: operands[0], args: operands.subrange(1, operands.len() as int) },
            InstrView::RtCall { dst, callee, .. } => InstrView::RtCall { dst, callee, args: operands },
            InstrView::Print { ty, newline, .. } => InstrView::Print { ty, newline, val: operands[0] },
            _ => self,
        }
    }

    /// The virtual register written, if any.
    pub open spec fn written(self) -> Option<VReg> {
        match self {
            InstrView::Const { dst, .. } => Some(dst),
            InstrView::StrAddr { dst, .. } => Some(dst),
            InstrView::Copy { dst, .. } => Some(dst),
            InstrView::Bin { dst, .. } => Some(dst),
            InstrView::Cmp { dst, .. } => Some(dst),
            InstrView::Cast { dst, .. } => Some(dst),
            InstrView::Frame { dst, .. } => Some(dst),
            InstrView::Field { dst, .. } => Some(dst),
            InstrView::Elem { dst, .. } => Some(dst),
            InstrView::Count { dst, .. } => Some(dst),
            InstrView::LoadChar { dst, .. } => Some(dst),
            InstrView::Load { dst, .. } => Some(dst),
            InstrView::Param { dst, .. } => Some(dst),
            InstrView::VTable { dst, .. } => Some(dst),
            InstrView::VariantAddr { dst, .. } => Some(dst),
            InstrView::Call { dst, .. } => dst,
            InstrView::CallVirtual { dst, .. } => dst,
            InstrView::RtCall { dst, .. } => dst,
            _ => None,
        }
    }

    /// The same instruction writing another register.
    pub open spec fn with_def(self, reg: VReg) -> InstrView {
        match self {
            InstrView::Const { dst, val } => InstrView::Const { dst: reg, val },
            InstrView::StrAddr { dst, id } => InstrView::StrAddr { dst: reg, id },
            InstrView::Copy { dst, src } => InstrView::Copy { dst: reg, src },
            InstrView::Bin { dst, num, op, lhs, rhs } => InstrView::Bin { dst: reg, num, op, lhs, rhs },
            InstrView::Cmp { dst, num, op, lhs, rhs } => InstrView::Cmp { dst: reg, num, op, lhs, rhs },
            InstrView::Cast { dst, to, src } => InstrView::Cast { dst: reg, to, src },
            InstrView::Frame { dst, offset } => InstrView::Frame { dst: reg, offset },
            InstrView::Field { dst, base, offset } => InstrView::Field { dst: reg, base, offset },
            InstrView::Elem { dst, base, index, len, scale } => InstrView::Elem { dst: reg, base, index, len, scale },
            InstrView::Count { dst, of } => InstrView::Count { dst: reg, of },
            InstrView::LoadChar { dst, addr } => InstrView::LoadChar { dst: reg, addr },
            InstrView::Load { dst, addr } => InstrView::Load { dst: reg, addr },
            InstrView::Param { dst, index } => InstrView::Param { dst: reg, index },
            InstrView::VTable { dst, class } => InstrView::VTable { dst: reg, class },
            InstrView::VariantAddr { dst, id, tag } => InstrView::VariantAddr { dst: reg, id, tag },
            InstrView::Call { dst, callee, args } => InstrView::Call { dst: Some(reg), callee, args },
            InstrView::CallVirtual { dst, slot, receiver, args } => InstrView::CallVirtual { dst: Some(reg), slot, receiver, args },
            InstrView::RtCall { dst, callee, args } => InstrView::RtCall { dst: Some(reg), callee, args },
            _ => self,
        }
    }

    /// Whether the instruction can stop the program rather than answer.
    pub open spec fn may_fail(self) -> bool {
        match self {
            InstrView::Elem { index, len, .. } => !(index is Const && len is Const),
            InstrView::Bin { num: Num::Float, .. } => false,
            InstrView::Bin { op, lhs, rhs, .. } => op.spec_divides() ==> DivGuards::spec_of(
                lhs,
                rhs,
            ).needed(),
            InstrView::Cast { to, .. } => to is Int,
            InstrView::RtCall { .. } => true,
            _ => false,
        }
    }

    /// Whether the instruction performs a call.
    pub open spec fn calls(self) -> bool {
        match self {
            InstrView::Print { .. } => true,
            InstrView::PrintText { .. } => true,
            InstrView::Call { .. } => true,
            InstrView::CallVirtual { .. } => true,
            InstrView::RtCall { .. } => true,
            InstrView::Fixup { .. } => true,
            _ => false,
        }
    }
}

impl Instr {
    /// Every operand, in the order it is written.
    pub fn values(&self) -> (values: Vec<Value>)
        ensures
            values@ == self@.operands(),
    {
        match self {
            Instr::Copy { src, .. } => vec![*src],
            Instr::Bin { lhs, rhs, .. } => vec![*lhs, *rhs],
            Instr::Cmp { lhs, rhs, .. } => vec![*lhs, *rhs],
            Instr::Cast { src, .. } => vec![*src],
            Instr::Field { base, .. } => vec![*base],
            Instr::Elem { base, index, len, .. } => vec![*base, *index, *len],
            Instr::Count { of, .. } => vec![*of],
            Instr::LoadChar { addr, .. } => vec![*addr],
            Instr::CopyBytes { dst, src, .. } => vec![*dst, *src],
            Instr::Fixup { at, count, .. } => vec![*at, *count],
            Instr::Load { addr, .. } => vec![*addr],
            Instr::Store { addr, value, .. } => vec![*addr, *value],
            Instr::Call { args, .. } => {
                let mut out: Vec<Value> = Vec::new();
                let mut i: usize = 0;
                let ghost head = out@;
                while i < args.len()
                    invariant
                        i <= args@.len(),
                        out@ == head + args@.subrange(0, i as int),
                    decreases args@.len() - i,
                {
                    out.push(args[i]);
                    i = i + 1;
                    assert(args@.subrange(0, i as int) =~= args@.subrange(0, i - 1).push(
                        args@[i - 1],
                    ));
                }
                assert(args@.subrange(0, i as int) =~= args@);
                out
            },
            Instr::CallVirtual { receiver, args, .. } => {
                let mut out: Vec<Value> = vec![*receiver];
                let mut i: usize = 0;
                let ghost head = out@;
                while i < args.len()
                    invariant
                        i <= args@.len(),
                        out@ == head + args@.subrange(0, i as int),
                    decreases args@.len() - i,
                {
                    out.push(args[i]);
                    i = i + 1;
                    assert(args@.subrange(0, i as int) =~= args@.subrange(0, i - 1).push(
                        args@[i - 1],
                    ));
                }
                assert(args@.subrange(0, i as int) =~= args@);
                out
            },
            Instr::RtCall { args, .. } => {
                let mut out: Vec<Value> = Vec::new();
                let mut i: usize = 0;
                let ghost head = out@;
                while i < args.len()
                    invariant
                        i <= args@.len(),
                        out@ == head + args@.subrange(0, i as int),
                    decreases args@.len() - i,
                {
                    out.push(args[i]);
                    i = i + 1;
                    assert(args@.subrange(0, i as int) =~= args@.subrange(0, i - 1).push(
                        args@[i - 1],
                    ));
                }
                assert(args@.subrange(0, i as int) =~= args@);
                out
            },
            Instr::Print { val, .. } => vec![*val],
            _ => Vec::new(),
        }
    }

    /// Every virtual register this instruction reads, in the order it is
    /// written.
    pub fn uses(&self) -> (used: Vec<VReg>)
        ensures
            used@ == registers(self@.operands()),
    {
        let values = self.values();
        let mut used: Vec<VReg> = Vec::new();
        push_registers(&mut used, &values);
        proof {
            assert(Seq::<VReg>::empty() + registers(values@) =~= registers(values@));
        }
        used
    }

    /// Replace every operand, in the order [`Self::values`] lists them.
    pub fn values_mut(&mut self, operands: Vec<Value>)
        requires
            operands@.len() == old(self)@.operands().len(),
        ensures
            final(self)@ == old(self)@.with_operands(operands@),
    {
        match self {
            Instr::Copy { src, .. } => {
                *src = operands[0];
            },
            Instr::Bin { lhs: left, rhs: right, .. } => {
                *left = operands[0];
                *right = operands[1];
            },
            Instr::Cmp { lhs: left, rhs: right, .. } => {
                *left = operands[0];
                *right = operands[1];
            },
            Instr::Cast { src, .. } => {
                *src = operands[0];
            },
            Instr::Field { base, .. } => {
                *base = operands[0];
            },
            Instr::Elem { base, index, len, .. } => {
                *base = operands[0];
                *index = operands[1];
                *len = operands[2];
            },
            Instr::Count { of, .. } => {
                *of = operands[0];
            },
            Instr::LoadChar { addr, .. } => {
                *addr = operands[0];
            },
            Instr::CopyBytes { dst, src, .. } => {
                *dst = operands[0];
                *src = operands[1];
            },
            Instr::Fixup { at, count, .. } => {
                *at = operands[0];
                *count = operands[1];
            },
            Instr::Load { addr, .. } => {
                *addr = operands[0];
            },
            Instr::Store { addr, value, .. } => {
                *addr = operands[0];
                *value = operands[1];
            },
            Instr::Call { args, .. } => {
                *args = operands;
            },
            Instr::CallVirtual { receiver, args, .. } => {
                let mut rest = operands;
                let head = rest.remove(0);
                *receiver = head;
                *args = rest;
            },
            Instr::RtCall { args, .. } => {
                *args = operands;
            },
            Instr::Print { val, .. } => {
                *val = operands[0];
            },
            _ => {},
        }
    }

    /// The virtual register written by this instruction, if any.
    pub fn def(&self) -> (reg: Option<VReg>)
        ensures
            reg == self@.written(),
    {
        match self {
            Instr::Const { dst, .. } => Some(*dst),
            Instr::StrAddr { dst, .. } => Some(*dst),
            Instr::Copy { dst, .. } => Some(*dst),
            Instr::Bin { dst, .. } => Some(*dst),
            Instr::Cmp { dst, .. } => Some(*dst),
            Instr::Cast { dst, .. } => Some(*dst),
            Instr::Frame { dst, .. } => Some(*dst),
            Instr::Field { dst, .. } => Some(*dst),
            Instr::Elem { dst, .. } => Some(*dst),
            Instr::Count { dst, .. } => Some(*dst),
            Instr::LoadChar { dst, .. } => Some(*dst),
            Instr::Load { dst, .. } => Some(*dst),
            Instr::Param { dst, .. } => Some(*dst),
            Instr::VTable { dst, .. } => Some(*dst),
            Instr::VariantAddr { dst, .. } => Some(*dst),
            Instr::Call { dst, .. } => *dst,
            Instr::CallVirtual { dst, .. } => *dst,
            Instr::RtCall { dst, .. } => *dst,
            _ => None,
        }
    }

    /// Write another register.
    pub fn set_def(&mut self, to: VReg)
        requires
            old(self)@.written() is Some,
        ensures
            final(self)@ == old(self)@.with_def(to),
    {
        match self {
            Instr::Const { dst, .. } => *dst = to,
            Instr::StrAddr { dst, .. } => *dst = to,
            Instr::Copy { dst, .. } => *dst = to,
            Instr::Bin { dst, .. } => *dst = to,
            Instr::Cmp { dst, .. } => *dst = to,
            Instr::Cast { dst, .. } => *dst = to,
            Instr::Frame { dst, .. } => *dst = to,
            Instr::Field { dst, .. } => *dst = to,
            Instr::Elem { dst, .. } => *dst = to,
            Instr::Count { dst, .. } => *dst = to,
            Instr::LoadChar { dst, .. } => *dst = to,
            Instr::Load { dst, .. } => *dst = to,
            Instr::Param { dst, .. } => *dst = to,
            Instr::VTable { dst, .. } => *dst = to,
            Instr::VariantAddr { dst, .. } => *dst = to,
            Instr::Call { dst, .. } => *dst = Some(to),
            Instr::CallVirtual { dst, .. } => *dst = Some(to),
            Instr::RtCall { dst, .. } => *dst = Some(to),
            _ => {},
        }
    }

    /// Whether this instruction can stop the program rather than answer.
    ///
    /// A fact about the *language*, not about a machine: it is the list of
    /// places TinyC promised to refuse rather than answer wrongly.
    pub fn can_fail(&self) -> (fails: bool)
        ensures
            fails == self@.may_fail(),
    {
        match self {
            // A constant index into a length known here needs no check;
            // anything else is checked where it lands.
            Instr::Elem { index, len, .. } => match (index, len) {
                (Value::Const(_), Value::Const(_)) => false,
                _ => true,
            },
            // Float arithmetic answers whatever it is given: too large is an
            // infinity and zero into zero is a NaN, both of which are values.
            Instr::Bin { num: Num::Float, .. } => false,
            Instr::Bin { op, lhs, rhs, .. } => {
                if op.divides() {
                    DivGuards::of(lhs, rhs).any()
                } else {
                    // Addition, subtraction and multiplication are all guarded.
                    true
                }
            },
            // Every `int` has a `float` nearest it, while a float too large, or
            // no number at all, has no `int`.
            Instr::Cast { to, .. } => match to {
                Num::Int => true,
                Num::Float => false,
            },
            Instr::RtCall { .. } => true,
            _ => false,
        }
    }

    /// Whether this instruction performs a call, and therefore destroys the
    /// caller-saved registers.
    pub fn is_call(&self) -> (calls: bool)
        ensures
            calls == self@.calls(),
    {
        match self {
            Instr::Print { .. }
            | Instr::PrintText { .. }
            | Instr::Call { .. }
            | Instr::CallVirtual { .. }
            | Instr::RtCall { .. }
            | Instr::Fixup { .. } => true,
            _ => false,
        }
    }
}

/// Whether an instruction names only registers there are.
pub open spec fn instr_within(instr: InstrView, registers: nat) -> bool {
    &&& forall|i: int|
        0 <= i < instr.operands().len() ==> value_within(#[trigger] instr.operands()[i], registers)
    &&& match instr.written() {
        Some(reg) => reg.0 < registers,
        None => true,
    }
}

/// The compiler's own routines, called like functions but declared by nobody.
#[derive(Clone, Copy, Debug, PartialEq, Eq, Structural)]
pub enum Runtime {
    /// `(a, b) -> string`: a new string holding a's characters then b's.
    Concat,
    /// `(a, b, own) -> string`: the same answer as [`Runtime::Concat`], made in
    /// place where it can be.
    ///
    /// Emitted only for `s = s + e`, and only where lowering has established
    /// that **nothing else can be holding `s`**.
    Append,
    /// `(a, b) -> bool`: same length, same characters.
    StrEq,
    /// `(n) -> char`: `n` itself, having refused one that names no character.
    CheckChar,
    /// `(c) -> string`: a string holding that one character.
    CharToStr,
    /// `(n) -> string`: the number written out in decimal.
    IntToStr,
    /// `(n, bytes) -> list`: room for `n` elements of `bytes` each, with the
    /// length already set.
    ListNew,
    /// `(list, value) -> list`: one more element on the end, **answering where
    /// the list now is**.
    ListPush,
    /// `(list, from, bytes) -> list`: the same push for an element too big for
    /// a register, which therefore arrives as an *address* and is copied in.
    ListPushBig,
    /// `(s) -> int`: the number a string spells, refusing anything else.
    StrToInt,
    /// `(s) -> bool`: whether [`Runtime::StrToInt`] would answer rather than
    /// stop the program.
    IsInt,
    /// `() -> string`: one line of input, without its line ending.
    ReadLine,
    /// `() -> bool`: whether the input has run out.
    Eof,
    /// `(chars) -> string`: the characters of a `char[]`, sealed into a string.
    CharsToStr,
    /// `(list, bytes) -> list`: a new list holding the same elements.
    ListClone,
    /// `(bytes) -> address`: room in the arena, uninitialised.
    Alloc,
}

impl Runtime {
    pub open spec fn spec_name(self) -> Seq<char> {
        match self {
            Runtime::Concat => "concat"@,
            Runtime::Append => "append"@,
            Runtime::StrEq => "str_eq"@,
            Runtime::CheckChar => "check_char"@,
            Runtime::CharToStr => "char_str"@,
            Runtime::IntToStr => "int_str"@,
            Runtime::ListNew => "list_new"@,
            Runtime::ListPush => "list_push"@,
            Runtime::ListPushBig => "list_push_big"@,
            Runtime::StrToInt => "str_int"@,
            Runtime::IsInt => "is_int"@,
            Runtime::ReadLine => "read_line"@,
            Runtime::Eof => "eof"@,
            Runtime::CharsToStr => "chars_str"@,
            Runtime::ListClone => "list_clone"@,
            Runtime::Alloc => "alloc"@,
        }
    }

    /// What this routine is called, without the prefix a backend adds.
    pub fn name(self) -> (name: &'static str)
        ensures
            name@ == self.spec_name(),
    {
        match self {
            Runtime::Concat => "concat",
            Runtime::Append => "append",
            Runtime::StrEq => "str_eq",
            Runtime::CheckChar => "check_char",
            Runtime::CharToStr => "char_str",
            Runtime::IntToStr => "int_str",
            Runtime::ListNew => "list_new",
            Runtime::ListPush => "list_push",
            Runtime::ListPushBig => "list_push_big",
            Runtime::StrToInt => "str_int",
            Runtime::IsInt => "is_int",
            Runtime::ReadLine => "read_line",
            Runtime::Eof => "eof",
            Runtime::CharsToStr => "chars_str",
            Runtime::ListClone => "list_clone",
            Runtime::Alloc => "alloc",
        }
    }

    pub open spec fn spec_of(builtin: Builtin) -> Runtime {
        match builtin {
            Builtin::ReadLine => Runtime::ReadLine,
            Builtin::Eof => Runtime::Eof,
            Builtin::IsInt => Runtime::IsInt,
        }
    }

    /// The routine a built-in function is.
    pub fn of(builtin: Builtin) -> (routine: Runtime)
        ensures
            routine == Runtime::spec_of(builtin),
    {
        match builtin {
            Builtin::ReadLine => Runtime::ReadLine,
            Builtin::Eof => Runtime::Eof,
            Builtin::IsInt => Runtime::IsInt,
        }
    }
}

/// Which of division's two faults a division still has to rule out.
///
/// Division traps on a zero divisor, and also on `i64::MIN / -1`, whose
/// quotient does not fit in the width it would have to come back in. Every
/// check an operand already known here answers is one the emitted code does not
/// carry.
#[derive(Clone, Copy, PartialEq, Eq, Debug, Structural)]
pub struct DivGuards {
    pub zero: bool,
    pub overflow: bool,
}

impl DivGuards {
    /// A guard is left out exactly where the operands known here rule its fault
    /// out.
    pub open spec fn spec_of(lhs: Value, rhs: Value) -> DivGuards {
        DivGuards {
            zero: !(rhs is Const && rhs->Const_0 != 0),
            overflow: !(lhs is Const && lhs->Const_0 != i64::MIN) && !(rhs is Const
                && rhs->Const_0 != -1),
        }
    }

    pub open spec fn needed(self) -> bool {
        self.zero || self.overflow
    }

    pub fn of(lhs: &Value, rhs: &Value) -> (guards: DivGuards)
        ensures
            guards == DivGuards::spec_of(*lhs, *rhs),
    {
        let zero: bool = match rhs {
            Value::Const(c) => *c == 0,
            Value::Reg(_) => true,
        };
        // Only `i64::MIN` can overflow, and only when divided by -1.
        let lowest: bool = match lhs {
            Value::Const(dividend) => *dividend == i64::MIN,
            Value::Reg(_) => true,
        };
        let minus_one: bool = match rhs {
            Value::Const(divisor) => *divisor == -1,
            Value::Reg(_) => true,
        };
        DivGuards { zero, overflow: lowest && minus_one }
    }

    pub fn any(self) -> (any: bool)
        ensures
            any == self.needed(),
    {
        self.zero || self.overflow
    }
}

} // verus!
