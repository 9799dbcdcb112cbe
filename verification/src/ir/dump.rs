//! Rendering the IR as text, for `--emit ir` and for the comments the backend echoes.

use vstd::prelude::*;

use crate::ast::{nests, ty_text, BinOp, Prim, TypeTable};
use crate::decimal::{float_text, text_of};
use crate::ir::block::{Block, BlockView, TargetView, TermView, Terminator};
use crate::ir::fold::{bits, bits_of};
use crate::ir::func::{
    instr_known, program_limits, program_well_formed, well_formed, Function, FunctionView, Program,
    ProgramView,
};
use crate::ir::instr::{instr_within, Instr, InstrView};
use crate::ir::value::{value_within, Num, VReg, Value};
use crate::text::{decimal, decimal_nat, joined, push_decimal, push_decimal_u64, text_between};

verus! {

/// What `{:?}` writes for a string: the text in quotes, with what would not
/// print, a quote or a backslash escaped.
pub uninterp spec fn quoted(text: Seq<char>) -> Seq<char>;

/// `format!("{:?}", text)`, which is `<str as std::fmt::Debug>::fmt`. What it
/// writes depends on the text alone and is called [`quoted`]; which characters
/// it escapes is left unsaid.
#[verifier::external_body]
fn quote(text: &str) -> (out: String)
    ensures
        out@ == quoted(text@),
{
    format!("{:?}", text)
}

// -- operands ---------------------------------------------------------------

/// How an operand is written, where its instruction says how to read it.
pub open spec fn named_as(function: FunctionView, num: Num, value: Value) -> Seq<char> {
    match value {
        Value::Const(c) => match num {
            Num::Float => float_text(bits(c)) + "f"@,
            Num::Int => decimal(c as int),
        },
        Value::Reg(reg) => "%"@ + function.names[reg.0 as int],
    }
}

/// How an operand that is a whole number is written.
pub open spec fn named(function: FunctionView, value: Value) -> Seq<char> {
    named_as(function, Num::Int, value)
}

/// Operands with a comma between them.
pub open spec fn listed(function: FunctionView, values: Seq<Value>) -> Seq<char> {
    joined(values.map_values(|value: Value| named(function, value)), ", "@)
}

/// Registers with a comma between them.
pub open spec fn registers_listed(function: FunctionView, regs: Seq<VReg>) -> Seq<char> {
    listed(function, regs.map_values(|reg: VReg| Value::Reg(reg)))
}

/// The line that says what a function takes and gives.
pub open spec fn signature_text(function: FunctionView, table: TypeTable) -> Seq<char> {
    let head = "fn "@ + function.name + "("@ + registers_listed(function, function.params) + ")"@;
    match function.ret {
        Some(ty) => head + " -> "@ + ty_text(table, ty),
        None => head,
    }
}

impl Function {
    /// Write one more operand behind those there are.
    fn push_listed(&self, out: &mut String, values: Ghost<Seq<Value>>, start: Ghost<Seq<char>>, i: usize, value: Value)
        requires
            i < values@.len(),
            value == values@[i as int],
            value_within(value, self@.names.len()),
            old(out)@ == start@ + listed(self@, values@.take(i as int)),
        ensures
            final(out)@ == start@ + listed(self@, values@.take(i + 1)),
    {
        let ghost before = values@.take(i as int).map_values(|value: Value| named(self@, value));
        let ghost after = values@.take(i + 1).map_values(|value: Value| named(self@, value));
        if i > 0 {
            out.append(", ");
        }
        let name = self.value_name(&value);
        out.append(name.as_str());
        proof {
            assert(after.drop_last() =~= before);
            assert(after.last() == name@);
            assert(out@ =~= start@ + listed(self@, values@.take(i + 1)));
        }
    }

    /// Write operands with a comma between them.
    fn push_values(&self, out: &mut String, values: &Vec<Value>)
        requires
            forall|i: int|
                0 <= i < values@.len() ==> value_within(#[trigger] values@[i], self@.names.len()),
        ensures
            final(out)@ == old(out)@ + listed(self@, values@),
    {
        let ghost start = out@;
        let mut i: usize = 0;
        assert(out@ =~= start + listed(self@, values@.take(0)));
        while i < values.len()
            invariant
                i <= values@.len(),
                forall|i: int|
                    0 <= i < values@.len() ==> value_within(
                        #[trigger] values@[i],
                        self@.names.len(),
                    ),
                out@ == start + listed(self@, values@.take(i as int)),
            decreases values@.len() - i,
        {
            self.push_listed(out, Ghost(values@), Ghost(start), i, values[i]);
            i = i + 1;
        }
        assert(values@.take(i as int) =~= values@);
    }

    /// Write registers with a comma between them.
    fn push_registers(&self, out: &mut String, regs: &Vec<VReg>)
        requires
            forall|i: int| 0 <= i < regs@.len() ==> (#[trigger] regs@[i]).0 < self@.names.len(),
        ensures
            final(out)@ == old(out)@ + registers_listed(self@, regs@),
    {
        let ghost start = out@;
        let ghost values = regs@.map_values(|reg: VReg| Value::Reg(reg));
        let mut i: usize = 0;
        assert(out@ =~= start + listed(self@, values.take(0)));
        while i < regs.len()
            invariant
                i <= regs@.len(),
                values == regs@.map_values(|reg: VReg| Value::Reg(reg)),
                forall|i: int|
                    0 <= i < regs@.len() ==> (#[trigger] regs@[i]).0 < self@.names.len(),
                out@ == start + listed(self@, values.take(i as int)),
            decreases regs@.len() - i,
        {
            self.push_listed(out, Ghost(values), Ghost(start), i, Value::Reg(regs[i]));
            i = i + 1;
        }
        assert(values.take(i as int) =~= values);
    }

    pub fn value_name(&self, value: &Value) -> (name: String)
        requires
            value_within(*value, self@.names.len()),
        ensures
            name@ == named(self@, *value),
    {
        self.value_name_as(Num::Int, value)
    }

    /// The same, for an operand whose instruction says how to read it.
    ///
    /// A float constant is the bits of a double, and `4620974692658839552` in
    /// the dump beside a `printf` says nothing a reader could check. Written
    /// back out as `8.5` it does, and the `f` on the end says the number is what
    /// the word means rather than what it holds.
    pub fn value_name_as(&self, num: Num, value: &Value) -> (name: String)
        requires
            value_within(*value, self@.names.len()),
        ensures
            name@ == named_as(self@, num, *value),
    {
        match *value {
            Value::Const(c) => match num {
                Num::Float => {
                    let mut name = text_of(bits_of(c));
                    name.append("f");
                    name
                },
                Num::Int => {
                    let mut name = String::new();
                    push_decimal(&mut name, c);
                    assert(name@ =~= decimal(c as int));
                    name
                },
            },
            Value::Reg(reg) => {
                let mut name = "%".to_owned();
                name.append(self.name_of(reg));
                name
            },
        }
    }

    /// The signature line used by the IR dump and by assembly comments.
    pub fn signature(&self, table: &TypeTable) -> (line: String)
        requires
            forall|i: int|
                0 <= i < self.params@.len() ==> (#[trigger] self.params@[i]).0 < self@.names.len(),
            self.ret is Some ==> nests(*table, self.ret->0, table.deepest()),
        ensures
            line@ == signature_text(self@, *table),
    {
        let mut line = "fn ".to_owned();
        line.append(self.name.as_str());
        line.append("(");
        self.push_registers(&mut line, &self.params);
        line.append(")");
        if let Some(ty) = self.ret {
            line.append(" -> ");
            line.append(ty.name(table).as_str());
        }
        line
    }
}

// -- one instruction --------------------------------------------------------

/// What the dump calls an operation.
pub open spec fn op_text(op: BinOp) -> Seq<char> {
    match op {
        BinOp::Add => "add"@,
        BinOp::Sub => "sub"@,
        BinOp::Mul => "mul"@,
        BinOp::Div => "div"@,
        BinOp::Rem => "rem"@,
    }
}

fn op_name(op: BinOp) -> (name: &'static str)
    ensures
        name@ == op_text(op),
{
    match op {
        BinOp::Add => "add",
        BinOp::Sub => "sub",
        BinOp::Mul => "mul",
        BinOp::Div => "div",
        BinOp::Rem => "rem",
    }
}

/// What stands in front of an instruction that writes a register.
pub open spec fn set(function: FunctionView, dst: VReg) -> Seq<char> {
    "%"@ + function.names[dst.0 as int] + " = "@
}

/// What stands in front of a call.
pub open spec fn set_if(function: FunctionView, dst: Option<VReg>) -> Seq<char> {
    match dst {
        Some(dst) => set(function, dst),
        None => ""@,
    }
}

/// One instruction, in the form `--emit ir` prints it.
pub open spec fn instr_line(
    program: ProgramView,
    function: FunctionView,
    instr: InstrView,
) -> Seq<char> {
    match instr {
        InstrView::Const { dst, val } => set(function, dst) + "const "@ + decimal(val as int),
        InstrView::StrAddr { dst, id } => set(function, dst) + "straddr str"@ + decimal_nat(
            id.0 as nat,
        ),
        InstrView::Copy { dst, src } => set(function, dst) + "copy "@ + named(function, src),
        InstrView::Bin { num, op, dst, lhs, rhs } => set(function, dst) + op_text(op)
            + num.spec_suffix() + " "@ + named_as(function, num, lhs) + ", "@ + named_as(
            function,
            num,
            rhs,
        ),
        InstrView::Cmp { num, op, dst, lhs, rhs } => set(function, dst) + "cmp"@
            + num.spec_suffix() + " "@ + op.spec_symbol() + " "@ + named_as(function, num, lhs)
            + ", "@ + named_as(function, num, rhs),
        // Named as the conversion the program wrote, `int(f)` or `float(n)`, and
        // the operand is read the other way round from what the instruction
        // produces.
        InstrView::Cast { dst, to, src } => match to {
            Num::Int => set(function, dst) + "int"@ + " "@ + named_as(function, Num::Float, src),
            Num::Float => set(function, dst) + "float"@ + " "@ + named_as(function, Num::Int, src),
        },
        InstrView::Param { dst, index } => set(function, dst) + "param "@ + decimal_nat(
            index as nat,
        ),
        InstrView::Frame { dst, offset } => set(function, dst) + "frame "@ + decimal_nat(
            offset as nat,
        ),
        InstrView::Field { dst, base, offset } => set(function, dst) + "field "@ + named(
            function,
            base,
        ) + " + "@ + decimal_nat(offset as nat),
        InstrView::Elem { dst, base, index, len, scale } => set(function, dst) + "elem "@ + named(
            function,
            base,
        ) + "["@ + named(function, index) + "] of "@ + named(function, len) + " by "@
            + decimal_nat(scale as nat),
        InstrView::Count { dst, of } => set(function, dst) + "count "@ + named(function, of),
        InstrView::LoadChar { dst, addr } => set(function, dst) + "loadchar "@ + named(
            function,
            addr,
        ),
        InstrView::RtCall { dst, callee, args } => set_if(function, dst) + "rt."@
            + callee.spec_name() + "("@ + listed(function, args) + ")"@,
        InstrView::Fixup { at, count, stride } => "fixup "@ + named(function, count) + " of "@
            + decimal_nat(stride as nat) + " bytes at "@ + named(function, at),
        InstrView::CopyBytes { dst, src, bytes } => "copy "@ + decimal_nat(bytes as nat)
            + " bytes to "@ + named(function, dst) + ", from "@ + named(function, src),
        InstrView::Load { dst, addr } => set(function, dst) + "load "@ + named(function, addr),
        InstrView::Store { addr, value } => "store "@ + named(function, addr) + ", "@ + named(
            function,
            value,
        ),
        InstrView::Call { dst, callee, args } => set_if(function, dst) + "call "@
            + program.functions[callee.0 as int].name + "("@ + listed(function, args) + ")"@,
        InstrView::VariantAddr { dst, id, tag } => {
            let info = program.table.enums@[id.0 as int];
            set(function, dst) + "value "@ + info.name@ + "::"@ + info.variants@[tag as int].name@
        },
        InstrView::VTable { dst, class } => set(function, dst) + "vtable "@
            + program.table.classes@[class.0 as int].name@,
        InstrView::CallVirtual { dst, slot, receiver, args } => set_if(function, dst) + "callv "@
            + named(function, receiver) + "["@ + decimal_nat(slot as nat) + "]("@ + listed(
            function,
            args,
        ) + ")"@,
        InstrView::Print { ty, val, newline } => (if newline {
            "println "@
        } else {
            "print "@
        }) + ty_text(program.table, ty) + " "@ + named_as(function, Num::spec_of(ty), val),
        InstrView::PrintText { id } => "print text"@ + decimal_nat(id.0 as nat) + " "@ + quoted(
            program.texts[id.0 as int],
        ),
    }
}

/// Whether everything an instruction says can be written out.
pub open spec fn can_be_written(
    program: ProgramView,
    function: FunctionView,
    instr: InstrView,
) -> bool {
    &&& instr_within(instr, function.names.len())
    &&& instr_known(instr, program_limits(program), program.strings.len(), program.texts.len())
    &&& match instr {
        InstrView::Print { ty, .. } => nests(program.table, ty, program.table.deepest()),
        _ => true,
    }
}

fn set_text(function: &Function, dst: VReg) -> (out: String)
    requires
        dst.0 < function@.names.len(),
    ensures
        out@ == set(function@, dst),
{
    let mut out = "%".to_owned();
    out.append(function.name_of(dst));
    out.append(" = ");
    out
}

fn set_if_text(function: &Function, dst: Option<VReg>) -> (out: String)
    requires
        dst is Some ==> (dst->0).0 < function@.names.len(),
    ensures
        out@ == set_if(function@, dst),
{
    match dst {
        Some(dst) => set_text(function, dst),
        None => "".to_owned(),
    }
}

fn push_named_as(out: &mut String, function: &Function, num: Num, value: &Value)
    requires
        value_within(*value, function@.names.len()),
    ensures
        final(out)@ == old(out)@ + named_as(function@, num, *value),
{
    let name = function.value_name_as(num, value);
    out.append(name.as_str());
}

fn push_named(out: &mut String, function: &Function, value: &Value)
    requires
        value_within(*value, function@.names.len()),
    ensures
        final(out)@ == old(out)@ + named(function@, *value),
{
    push_named_as(out, function, Num::Int, value);
}

impl Program {
    /// One instruction, in the form `--emit ir` prints it. The backend echoes
    /// these as comments, so a reader can line the assembly up against the IR
    /// dump instruction by instruction.
    pub fn instr_text(&self, function: &Function, instr: &Instr) -> (text: String)
        requires
            can_be_written(self@, function@, instr@),
        ensures
            text@ == instr_line(self@, function@, instr@),
    {
        let ghost operands = instr@.operands();
        let ghost count = function@.names.len();
        assert(forall|i: int| 0 <= i < operands.len() ==> value_within(#[trigger] operands[i], count));
        match instr {
            Instr::Const { dst, val } => {
                let mut out = set_text(function, *dst);
                out.append("const ");
                push_decimal(&mut out, *val);
                out
            },
            Instr::StrAddr { dst, id } => {
                let mut out = set_text(function, *dst);
                out.append("straddr str");
                push_decimal_u64(&mut out, id.0 as u64);
                out
            },
            Instr::Copy { dst, src } => {
                assert(operands[0] == *src);
                let mut out = set_text(function, *dst);
                out.append("copy ");
                push_named(&mut out, function, src);
                out
            },
            Instr::Bin { num, op, dst, lhs, rhs } => {
                assert(operands[0] == *lhs && operands[1] == *rhs);
                let mut out = set_text(function, *dst);
                out.append(op_name(*op));
                out.append(num.suffix());
                out.append(" ");
                push_named_as(&mut out, function, *num, lhs);
                out.append(", ");
                push_named_as(&mut out, function, *num, rhs);
                out
            },
            Instr::Cmp { num, op, dst, lhs, rhs } => {
                assert(operands[0] == *lhs && operands[1] == *rhs);
                let mut out = set_text(function, *dst);
                out.append("cmp");
                out.append(num.suffix());
                out.append(" ");
                out.append(op.symbol());
                out.append(" ");
                push_named_as(&mut out, function, *num, lhs);
                out.append(", ");
                push_named_as(&mut out, function, *num, rhs);
                out
            },
            Instr::Cast { dst, to, src } => {
                assert(operands[0] == *src);
                let mut out = set_text(function, *dst);
                match to {
                    Num::Int => {
                        out.append(Prim::Int.name());
                        out.append(" ");
                        push_named_as(&mut out, function, Num::Float, src);
                    },
                    Num::Float => {
                        out.append(Prim::Float.name());
                        out.append(" ");
                        push_named_as(&mut out, function, Num::Int, src);
                    },
                }
                out
            },
            Instr::Param { dst, index } => {
                let mut out = set_text(function, *dst);
                out.append("param ");
                push_decimal_u64(&mut out, *index as u64);
                out
            },
            Instr::Frame { dst, offset } => {
                let mut out = set_text(function, *dst);
                out.append("frame ");
                push_decimal_u64(&mut out, *offset as u64);
                out
            },
            Instr::Field { dst, base, offset } => {
                assert(operands[0] == *base);
                let mut out = set_text(function, *dst);
                out.append("field ");
                push_named(&mut out, function, base);
                out.append(" + ");
                push_decimal_u64(&mut out, *offset as u64);
                out
            },
            Instr::Elem { dst, base, index, len, scale } => {
                assert(operands[0] == *base && operands[1] == *index && operands[2] == *len);
                let mut out = set_text(function, *dst);
                out.append("elem ");
                push_named(&mut out, function, base);
                out.append("[");
                push_named(&mut out, function, index);
                out.append("] of ");
                push_named(&mut out, function, len);
                out.append(" by ");
                push_decimal_u64(&mut out, *scale as u64);
                out
            },
            Instr::Count { dst, of } => {
                assert(operands[0] == *of);
                let mut out = set_text(function, *dst);
                out.append("count ");
                push_named(&mut out, function, of);
                out
            },
            Instr::LoadChar { dst, addr } => {
                assert(operands[0] == *addr);
                let mut out = set_text(function, *dst);
                out.append("loadchar ");
                push_named(&mut out, function, addr);
                out
            },
            Instr::RtCall { dst, callee, args } => {
                assert(operands == args@);
                let mut out = set_if_text(function, *dst);
                out.append("rt.");
                out.append(callee.name());
                out.append("(");
                function.push_values(&mut out, args);
                out.append(")");
                out
            },
            Instr::Fixup { at, count: objects, stride } => {
                assert(operands[0] == *at && operands[1] == *objects);
                let mut out = "fixup ".to_owned();
                push_named(&mut out, function, objects);
                out.append(" of ");
                push_decimal_u64(&mut out, *stride as u64);
                out.append(" bytes at ");
                push_named(&mut out, function, at);
                out
            },
            Instr::CopyBytes { dst, src, bytes } => {
                assert(operands[0] == *dst && operands[1] == *src);
                let mut out = "copy ".to_owned();
                push_decimal_u64(&mut out, *bytes as u64);
                out.append(" bytes to ");
                push_named(&mut out, function, dst);
                out.append(", from ");
                push_named(&mut out, function, src);
                out
            },
            Instr::Load { dst, addr } => {
                assert(operands[0] == *addr);
                let mut out = set_text(function, *dst);
                out.append("load ");
                push_named(&mut out, function, addr);
                out
            },
            Instr::Store { addr, value } => {
                assert(operands[0] == *addr && operands[1] == *value);
                let mut out = "store ".to_owned();
                push_named(&mut out, function, addr);
                out.append(", ");
                push_named(&mut out, function, value);
                out
            },
            Instr::Call { dst, callee, args } => {
                assert(operands == args@);
                let mut out = set_if_text(function, *dst);
                out.append("call ");
                out.append(self.function(*callee).name.as_str());
                out.append("(");
                function.push_values(&mut out, args);
                out.append(")");
                out
            },
            Instr::VariantAddr { dst, id, tag } => {
                let mut out = set_text(function, *dst);
                let info = self.table.enum_info(*id);
                out.append("value ");
                out.append(info.name.as_str());
                out.append("::");
                out.append(info.variants[*tag as usize].name.as_str());
                out
            },
            Instr::VTable { dst, class } => {
                let mut out = set_text(function, *dst);
                out.append("vtable ");
                out.append(self.table.class(*class).name.as_str());
                out
            },
            Instr::CallVirtual { dst, slot, receiver, args } => {
                proof {
                    assert(operands[0] == *receiver);
                    assert forall|i: int| 0 <= i < args@.len() implies value_within(
                        #[trigger] args@[i],
                        count,
                    ) by {
                        assert(operands[i + 1] == args@[i]);
                    }
                }
                let mut out = set_if_text(function, *dst);
                out.append("callv ");
                push_named(&mut out, function, receiver);
                out.append("[");
                push_decimal_u64(&mut out, *slot as u64);
                out.append("](");
                function.push_values(&mut out, args);
                out.append(")");
                out
            },
            Instr::Print { ty, val, newline } => {
                assert(operands[0] == *val);
                let mut out = if *newline {
                    "println ".to_owned()
                } else {
                    "print ".to_owned()
                };
                out.append(ty.name(&self.table).as_str());
                out.append(" ");
                push_named_as(&mut out, function, Num::of(*ty), val);
                out
            },
            Instr::PrintText { id } => {
                let mut out = "print text".to_owned();
                push_decimal_u64(&mut out, id.0 as u64);
                out.append(" ");
                let text = quote(self.texts[id.0 as usize].as_str());
                out.append(text.as_str());
                out
            },
        }
    }
}

// -- a whole program --------------------------------------------------------

/// A block's label with what it is handed, or a target's with what it hands.
pub open spec fn label_with(label: Seq<char>, function: FunctionView, handed: Seq<Value>) -> Seq<
    char,
> {
    if handed.len() == 0 {
        label
    } else {
        label + "("@ + listed(function, handed) + ")"@
    }
}

/// The line a block starts with.
pub open spec fn block_head(function: FunctionView, block: BlockView) -> Seq<char> {
    label_with(block.label(), function, block.params.map_values(|reg: VReg| Value::Reg(reg)))
}

/// Where a terminator goes, and with what.
pub open spec fn target_text(function: FunctionView, target: TargetView) -> Seq<char> {
    label_with(function.blocks[target.block.0 as int].label(), function, target.args)
}

/// How a block ends.
pub open spec fn term_text(function: FunctionView, term: TermView) -> Seq<char> {
    match term {
        TermView::Jump(target) => "jump "@ + target_text(function, target),
        TermView::Branch { cond, then_blk, else_blk } => "branch "@ + named(function, cond)
            + " ? "@ + target_text(function, then_blk) + " : "@ + target_text(function, else_blk),
        TermView::Return(None) => "return"@,
        TermView::Return(Some(value)) => "return "@ + named(function, value),
    }
}

/// How many lines are numbered before a block: its instructions and its end each
/// take a number.
pub open spec fn steps_before(blocks: Seq<BlockView>, n: int) -> nat
    decreases n,
{
    if n <= 0 {
        0
    } else {
        steps_before(blocks, n - 1) + blocks[n - 1].instrs.len() + 1
    }
}

/// What a line number is padded with.
pub open spec fn padding(index: nat) -> Seq<char> {
    if index < 10 {
        "  "@
    } else if index < 100 {
        " "@
    } else {
        ""@
    }
}

/// Text with a numbered line behind it.
pub open spec fn numbered(out: Seq<char>, index: nat, line: Seq<char>) -> Seq<char> {
    out + padding(index) + decimal_nat(index) + "  "@ + line + "\n"@
}

/// Text with a block's head and its first `k` instructions behind it.
pub open spec fn with_instrs(
    out: Seq<char>,
    program: ProgramView,
    function: FunctionView,
    b: int,
    k: int,
) -> Seq<char>
    decreases k,
{
    if k <= 0 {
        out + block_head(function, function.blocks[b]) + ":\n"@
    } else {
        numbered(
            with_instrs(out, program, function, b, k - 1),
            (steps_before(function.blocks, b) + (k - 1)) as nat,
            instr_line(program, function, function.blocks[b].instrs[k - 1]),
        )
    }
}

/// Text with a function's signature and its first `n` blocks behind it.
pub open spec fn with_blocks(
    out: Seq<char>,
    program: ProgramView,
    function: FunctionView,
    n: int,
) -> Seq<char>
    decreases n,
{
    if n <= 0 {
        out + signature_text(function, program.table) + ":\n"@
    } else {
        let block = function.blocks[n - 1];
        numbered(
            with_instrs(
                with_blocks(out, program, function, n - 1),
                program,
                function,
                n - 1,
                block.instrs.len() as int,
            ),
            steps_before(function.blocks, n - 1) + block.instrs.len(),
            term_text(function, block.term),
        )
    }
}

/// The first `n` string literals, a line each.
pub open spec fn string_lines(strings: Seq<Seq<char>>, n: int) -> Seq<char>
    decreases n,
{
    if n <= 0 {
        seq![]
    } else {
        string_lines(strings, n - 1) + "str"@ + decimal_nat((n - 1) as nat) + " = "@ + quoted(
            strings[n - 1],
        ) + "\n"@
    }
}

/// The string literals and the first `n` functions.
pub open spec fn with_functions(program: ProgramView, n: int) -> Seq<char>
    decreases n,
{
    if n <= 0 {
        let lines = string_lines(program.strings, program.strings.len() as int);
        if program.strings.len() > 0 {
            lines + "\n"@
        } else {
            lines
        }
    } else {
        let function = program.functions[n - 1];
        with_blocks(
            with_functions(program, n - 1),
            program,
            function,
            function.blocks.len() as int,
        ) + "\n"@
    }
}

/// A program, in the form `--emit ir` prints it.
pub open spec fn dump_text(program: ProgramView) -> Seq<char> {
    with_functions(program, program.functions.len() as int)
}

/// Whether a function's lines can be numbered and its types named.
pub open spec fn can_be_dumped(function: FunctionView, table: TypeTable) -> bool {
    &&& steps_before(function.blocks, function.blocks.len() as int) <= u64::MAX
    &&& function.ret is Some ==> table.knows(function.ret->0)
}

proof fn steps_add_up(blocks: Seq<BlockView>, a: int, b: int)
    requires
        0 <= a < b <= blocks.len(),
    ensures
        steps_before(blocks, a) + blocks[a].instrs.len() + 1 <= steps_before(blocks, b),
    decreases b,
{
    if a < b - 1 {
        steps_add_up(blocks, a, b - 1);
    }
}

fn push_line(out: &mut String, index: u64, line: &String)
    ensures
        final(out)@ == numbered(old(out)@, index as nat, line@),
{
    out.append(
        if index < 10 {
            "  "
        } else if index < 100 {
            " "
        } else {
            ""
        },
    );
    push_decimal_u64(out, index);
    out.append("  ");
    out.append(line.as_str());
    out.append("\n");
}

impl Function {
    fn push_target(&self, out: &mut String, target: &crate::ir::block::Target)
        requires
            target.block.0 < self.blocks@.len(),
            forall|i: int|
                0 <= i < target.args@.len() ==> value_within(
                    #[trigger] target.args@[i],
                    self@.names.len(),
                ),
        ensures
            final(out)@ == old(out)@ + target_text(self@, target@),
    {
        let ghost start = out@;
        let label = self.block(target.block).label();
        out.append(label.as_str());
        if target.args.len() > 0 {
            out.append("(");
            self.push_values(out, &target.args);
            out.append(")");
        }
        assert(out@ =~= start + target_text(self@, target@));
    }

    fn push_head(&self, out: &mut String, block: &Block)
        requires
            forall|i: int|
                0 <= i < block.params@.len() ==> (#[trigger] block.params@[i]).0
                    < self@.names.len(),
        ensures
            final(out)@ == old(out)@ + block_head(self@, block@),
    {
        let ghost start = out@;
        let label = block.label();
        out.append(label.as_str());
        if block.params.len() > 0 {
            out.append("(");
            self.push_registers(out, &block.params);
            out.append(")");
        }
        assert(out@ =~= start + block_head(self@, block@));
    }

    /// How a block ends, in the form `--emit ir` prints it.
    fn term_line(&self, term: &Terminator) -> (line: String)
        requires
            forall|i: int|
                0 <= i < term@.operands().len() ==> value_within(
                    #[trigger] term@.operands()[i],
                    self@.names.len(),
                ),
            forall|i: int|
                0 <= i < term@.targets().len() ==> (#[trigger] term@.targets()[i]).block.0
                    < self.blocks@.len(),
        ensures
            line@ == term_text(self@, term@),
    {
        let ghost operands = term@.operands();
        let ghost count = self@.names.len();
        match term {
            Terminator::Jump(target) => {
                proof {
                    assert(term@.targets()[0] == target@);
                    assert forall|i: int| 0 <= i < target.args@.len() implies value_within(
                        #[trigger] target.args@[i],
                        count,
                    ) by {
                        assert(operands[i] == target.args@[i]);
                    }
                }
                let mut line = "jump ".to_owned();
                self.push_target(&mut line, target);
                line
            },
            Terminator::Branch { cond, then_blk, else_blk } => {
                proof {
                    assert(term@.targets()[0] == then_blk@);
                    assert(term@.targets()[1] == else_blk@);
                    assert(operands[0] == *cond);
                    assert forall|i: int| 0 <= i < then_blk.args@.len() implies value_within(
                        #[trigger] then_blk.args@[i],
                        count,
                    ) by {
                        assert(operands[i + 1] == then_blk.args@[i]);
                    }
                    assert forall|i: int| 0 <= i < else_blk.args@.len() implies value_within(
                        #[trigger] else_blk.args@[i],
                        count,
                    ) by {
                        assert(operands[i + 1 + then_blk.args@.len()] == else_blk.args@[i]);
                    }
                }
                let mut line = "branch ".to_owned();
                push_named(&mut line, self, cond);
                line.append(" ? ");
                self.push_target(&mut line, then_blk);
                line.append(" : ");
                self.push_target(&mut line, else_blk);
                line
            },
            Terminator::Return(None) => "return".to_owned(),
            Terminator::Return(Some(value)) => {
                assert(operands[0] == *value);
                let mut line = "return ".to_owned();
                push_named(&mut line, self, value);
                line
            },
        }
    }
}

impl Program {
    /// Render the IR for `--emit ir`.
    pub fn dump(&self) -> (out: String)
        requires
            program_well_formed(self@),
            self.table.grounded(),
            forall|f: int|
                0 <= f < self@.functions.len() ==> can_be_dumped(
                    #[trigger] self@.functions[f],
                    self.table,
                ),
        ensures
            out@ == dump_text(self@),
    {
        let ghost program = self@;
        let mut out = String::new();
        let mut s: usize = 0;
        assert(out@ =~= string_lines(program.strings, 0));
        while s < self.strings.len()
            invariant
                program == self@,
                s <= self.strings@.len(),
                out@ == string_lines(program.strings, s as int),
            decreases self.strings@.len() - s,
        {
            let literal = &self.strings[s];
            let text = text_between(literal, 0, literal.len());
            proof {
                assert(text@ =~= program.strings[s as int]);
            }
            out.append("str");
            push_decimal_u64(&mut out, s as u64);
            out.append(" = ");
            let quoted_text = quote(text.as_str());
            out.append(quoted_text.as_str());
            out.append("\n");
            s = s + 1;
        }
        if self.strings.len() > 0 {
            out.append("\n");
        }
        let mut f: usize = 0;
        while f < self.functions.len()
            invariant
                program == self@,
                f <= self.functions@.len(),
                program_well_formed(program),
                self.table.grounded(),
                forall|f: int|
                    0 <= f < program.functions.len() ==> can_be_dumped(
                        #[trigger] program.functions[f],
                        self.table,
                    ),
                out@ == with_functions(program, f as int),
            decreases self.functions@.len() - f,
        {
            assert(program.functions[f as int] == self.functions@[f as int]@);
            assert(well_formed(program.functions[f as int]));
            out = self.function_text(out, f);
            f = f + 1;
        }
        out
    }

    /// Write one function behind what there is.
    fn function_text(&self, before: String, f: usize) -> (out: String)
        requires
            f < self.functions@.len(),
            program_well_formed(self@),
            self.table.grounded(),
            can_be_dumped(self@.functions[f as int], self.table),
        ensures
            out@ == with_blocks(
                before@,
                self@,
                self@.functions[f as int],
                self@.functions[f as int].blocks.len() as int,
            ) + "\n"@,
    {
        let ghost program = self@;
        let ghost start = before@;
        let function = &self.functions[f];
        let ghost view = function@;
        let ghost count = view.names.len();
        assert(view == program.functions[f as int]);
        assert(well_formed(view));
        let mut out = before;
        proof {
            assert(view.params == function.params@);
            assert forall|i: int| 0 <= i < function.params@.len() implies (
            #[trigger] function.params@[i]).0 < count by {
                assert(view.params[i].0 < count);
            }
        }
        let line = function.signature(&self.table);
        out.append(line.as_str());
        out.append(":\n");
        // Numbering restarts per function, matching the indices the allocator
        // works with.
        let mut index: u64 = 0;
        let mut b: usize = 0;
        while b < function.blocks.len()
            invariant
                program == self@,
                f < self.functions@.len(),
                *function == self.functions@[f as int],
                view == function@,
                view == program.functions[f as int],
                count == view.names.len(),
                program_well_formed(program),
                self.table.grounded(),
                can_be_dumped(view, self.table),
                b <= function.blocks@.len(),
                index == steps_before(view.blocks, b as int),
                out@ == with_blocks(start, program, view, b as int),
            decreases function.blocks@.len() - b,
        {
            let block = &function.blocks[b];
            let ghost before_block = out@;
            let ghost first = index as nat;
            proof {
                assert(well_formed(view));
                assert(view.blocks[b as int] == block@);
                assert(crate::ir::func::block_within(block@, count, view.blocks.len()));
                assert forall|i: int| 0 <= i < block.params@.len() implies (
                #[trigger] block.params@[i]).0 < count by {
                    assert(block@.params[i].0 < count);
                }
                steps_add_up(view.blocks, b as int, view.blocks.len() as int);
            }
            function.push_head(&mut out, block);
            out.append(":\n");
            let mut k: usize = 0;
            while k < block.instrs.len()
                invariant
                    program == self@,
                    f < self.functions@.len(),
                    b < view.blocks.len(),
                    *function == self.functions@[f as int],
                    view == function@,
                    view == program.functions[f as int],
                    view.blocks[b as int] == block@,
                    count == view.names.len(),
                    program_well_formed(program),
                    self.table.grounded(),
                    crate::ir::func::block_within(block@, count, view.blocks.len()),
                    first == steps_before(view.blocks, b as int),
                    first + block@.instrs.len() + 1 <= u64::MAX,
                    k <= block.instrs@.len(),
                    index == first + k,
                    out@ == with_instrs(before_block, program, view, b as int, k as int),
                decreases block.instrs@.len() - k,
            {
                proof {
                    let instr = view.blocks[b as int].instrs[k as int];
                    assert(instr == block.instrs@[k as int]@);
                    assert(block@.instrs[k as int] == instr);
                    assert(instr_within(instr, count));
                    assert(crate::ir::func::function_known(
                        program.functions[f as int],
                        program_limits(program),
                        program.strings.len(),
                        program.texts.len(),
                    )) by {
                        assert(well_formed(program.functions[f as int]));
                    }
                    assert(instr_known(
                        instr,
                        program_limits(program),
                        program.strings.len(),
                        program.texts.len(),
                    ));
                }
                let line = self.instr_text(function, &block.instrs[k]);
                push_line(&mut out, index, &line);
                index = index + 1;
                k = k + 1;
            }
            let line = function.term_line(&block.term);
            push_line(&mut out, index, &line);
            index = index + 1;
            b = b + 1;
        }
        out.append("\n");
        out
    }
}

} // verus!
