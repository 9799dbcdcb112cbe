//! Names: virtual registers, operands, and the indices that address a program.

use vstd::prelude::*;

use crate::ast::Ty;

verus! {

/// A virtual register: a value name, not yet a machine register. Scoped to one
/// [`crate::ir::Function`].
#[derive(Clone, Copy, Debug, PartialEq, Eq, PartialOrd, Ord, Hash, Structural)]
pub struct VReg(pub u32);

/// Bytes one character of a string occupies.
///
/// Four, because a character is a Unicode scalar value and they run to
/// `0x10FFFF`. Storing them at a fixed width is what makes `s[i]` an address
/// computation rather than a walk from the start.
pub const CHAR_BYTES: u32 = 4;

/// Bytes of header in front of a string's characters, holding the count.
pub const STR_HEADER: u32 = 8;

/// Bytes of frame one function's locals may take.
///
/// The stack is the one resource a program is handed rather than asking for. A
/// single function that wants more than this is not a program that will run and
/// be unlucky: it is one that cannot recurse at all.
pub const MAX_FRAME_BYTES: u32 = 262144;

/// Index into [`crate::ir::Program::strings`].
#[derive(Clone, Copy, Debug, PartialEq, Eq, Structural)]
pub struct StrId(pub u32);

/// Index into [`crate::ir::Program::texts`].
#[derive(Clone, Copy, Debug, PartialEq, Eq, Structural)]
pub struct TextId(pub u32);

/// Index into [`crate::ir::Function::blocks`].
#[derive(Clone, Copy, Debug, PartialEq, Eq, PartialOrd, Ord, Hash, Structural)]
pub struct BlockId(pub u32);

/// Index into [`crate::ir::Program::functions`].
#[derive(Clone, Copy, Debug, PartialEq, Eq, PartialOrd, Ord, Hash, Structural)]
pub struct FuncId(pub u32);

/// An instruction operand: either an immediate or a virtual register.
///
/// The immediate is an `i64` whatever it stands for. A `float` travels as the
/// *bits* of its double (see [`Num`]), so this is a machine word rather than a
/// number, and only the instruction reading it knows which.
#[derive(Clone, Copy, Debug, PartialEq, Eq, Structural)]
pub enum Value {
    Const(i64),
    Reg(VReg),
}

/// Which arithmetic an instruction reads its operands as.
///
/// Every value in the IR is a machine word: an `int` is its two's complement
/// and a `float` is the bits of its IEEE-754 double. Nothing about the word says
/// which, so the instructions that *interpret* one say so themselves.
#[derive(Clone, Copy, Debug, PartialEq, Eq, Hash, Structural)]
pub enum Num {
    Int,
    Float,
}

impl Num {
    pub open spec fn spec_of(ty: Ty) -> Num {
        if ty is Float {
            Num::Float
        } else {
            Num::Int
        }
    }

    /// How a value of this type is read. Everything that is not a `float` is a
    /// whole number of some width: a character's code point, an enum's tag, a
    /// bool's 0 or 1, an address.
    pub fn of(ty: Ty) -> (num: Num)
        ensures
            num == Num::spec_of(ty),
    {
        match ty {
            Ty::Float => Num::Float,
            _ => Num::Int,
        }
    }

    pub open spec fn spec_suffix(self) -> Seq<char> {
        match self {
            Num::Int => ""@,
            Num::Float => ".f"@,
        }
    }

    /// What the dump calls it, which is nothing at all for the ordinary case.
    pub fn suffix(self) -> (suffix: &'static str)
        ensures
            suffix@ == self.spec_suffix(),
    {
        match self {
            Num::Int => "",
            Num::Float => ".f",
        }
    }
}

/// Whether an operand names a register there is.
pub open spec fn value_within(value: Value, registers: nat) -> bool {
    match value {
        Value::Const(_) => true,
        Value::Reg(reg) => reg.0 < registers,
    }
}

/// The registers among a run of operands, in order.
pub open spec fn registers(values: Seq<Value>) -> Seq<VReg>
    decreases values.len(),
{
    if values.len() == 0 {
        seq![]
    } else {
        let rest = registers(values.drop_last());
        match values.last() {
            Value::Reg(reg) => rest.push(reg),
            Value::Const(_) => rest,
        }
    }
}

/// Put the registers among a run of operands on the end of a list.
pub fn push_registers(out: &mut Vec<VReg>, values: &Vec<Value>)
    ensures
        final(out)@ == old(out)@ + registers(values@),
{
    let mut i: usize = 0;
    assert(old(out)@ + registers(values@.subrange(0, 0)) =~= old(out)@);
    while i < values.len()
        invariant
            i <= values@.len(),
            out@ == old(out)@ + registers(values@.subrange(0, i as int)),
        decreases values@.len() - i,
    {
        proof {
            let upto = values@.subrange(0, i + 1);
            assert(upto.drop_last() =~= values@.subrange(0, i as int));
            assert(upto.last() == values@[i as int]);
        }
        if let Value::Reg(reg) = values[i] {
            let ghost before = registers(values@.subrange(0, i as int));
            assert(old(out)@ + before.push(reg) =~= (old(out)@ + before).push(reg));
            out.push(reg);
        }
        i = i + 1;
    }
    assert(values@.subrange(0, i as int) =~= values@);
}

/// A register is among the registers of a run of operands exactly when one of
/// the operands is that register.
pub proof fn registers_contain(values: Seq<Value>, reg: VReg)
    ensures
        registers(values).contains(reg) <==> values.contains(Value::Reg(reg)),
    decreases values.len(),
{
    if values.len() > 0 {
        let rest = values.drop_last();
        registers_contain(rest, reg);
        if values.contains(Value::Reg(reg)) {
            let i = choose|i: int| 0 <= i < values.len() && values[i] == Value::Reg(reg);
            if i < rest.len() {
                assert(rest[i] == Value::Reg(reg));
                let j = choose|j: int| 0 <= j < registers(rest).len() && registers(rest)[j] == reg;
                assert(registers(values)[j] == reg);
            } else {
                assert(registers(values).last() == reg);
            }
        }
        if registers(values).contains(reg) {
            let j = choose|j: int| 0 <= j < registers(values).len() && registers(values)[j] == reg;
            if j < registers(rest).len() {
                assert(registers(rest)[j] == reg);
                let i = choose|i: int| 0 <= i < rest.len() && rest[i] == Value::Reg(reg);
                assert(values[i] == Value::Reg(reg));
            } else {
                assert(values[values.len() - 1] == Value::Reg(reg));
            }
        }
    }
}

} // verus!
