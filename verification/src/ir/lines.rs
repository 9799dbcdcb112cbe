//! What the lines of a dump say, in the words they say it in.

use vstd::prelude::*;

use crate::ast::{ty_text, ty_text_within, BinOp, Builtin, CmpOp, Ty};
use crate::decimal::float_text;
use crate::ir::block::{BlockKind, BlockView, TargetView, TermView};
use crate::ir::dump::{
    block_head, instr_line, listed, numbered, padding, registers_listed, signature_text,
    steps_before, string_lines, term_text, with_blocks, with_functions, with_instrs,
};
use crate::ir::fold::bits;
use crate::ir::func::{FunctionView, ProgramView};
use crate::ir::instr::{InstrView, Runtime};
use crate::ir::value::{Num, StrId, TextId, VReg, Value};
use crate::text::{decimal, decimal_nat};

verus! {

/// What an operand looks like: a register by its name behind a `%`, a whole number in
/// decimal, a float as the shortest decimal that reads back with an `f` behind it.
pub open spec fn operand(function: FunctionView, num: Num, value: Value) -> Seq<char> {
    match value {
        Value::Reg(reg) => "%"@ + function.names[reg.0 as int],
        Value::Const(c) => match num {
            Num::Int => decimal(c as int),
            Num::Float => float_text(bits(c)) + "f"@,
        },
    }
}

/// Operands one behind the other, a comma and a space in between.
pub open spec fn operands(function: FunctionView, values: Seq<Value>) -> Seq<char>
    decreases values.len(),
{
    if values.len() == 0 {
        seq![]
    } else if values.len() == 1 {
        operand(function, Num::Int, values[0])
    } else {
        operands(function, values.drop_last()) + ", "@ + operand(
            function,
            Num::Int,
            values.last(),
        )
    }
}

/// **Operands are listed in order**, each as it looks on its own.
pub proof fn operands_are_listed(function: FunctionView, values: Seq<Value>)
    ensures
        listed(function, values) == operands(function, values),
    decreases values.len(),
{
    let parts = values.map_values(|value: Value| crate::ir::dump::named(function, value));
    if values.len() > 1 {
        operands_are_listed(function, values.drop_last());
        assert(parts.drop_last() =~= values.drop_last().map_values(
            |value: Value| crate::ir::dump::named(function, value),
        ));
    }
}

/// **The line of an operation names that operation**, and its operands in the order they
/// are written, the left one first.
pub proof fn operations_are_named(
    program: ProgramView,
    function: FunctionView,
    num: Num,
    dst: VReg,
    lhs: Value,
    rhs: Value,
)
    ensures
        ({
            let before = "%"@ + function.names[dst.0 as int] + " = "@;
            let after = (if num is Float {
                ".f"@
            } else {
                ""@
            });
            let a = operand(function, num, lhs);
            let b = operand(function, num, rhs);
            let bin = |op: BinOp|
                instr_line(program, function, InstrView::Bin { num, op, dst, lhs, rhs });
            let asked = |op: CmpOp|
                instr_line(program, function, InstrView::Cmp { num, op, dst, lhs, rhs });
            &&& bin(BinOp::Add) == before + "add"@ + after + " "@ + a + ", "@ + b
            &&& bin(BinOp::Sub) == before + "sub"@ + after + " "@ + a + ", "@ + b
            &&& bin(BinOp::Mul) == before + "mul"@ + after + " "@ + a + ", "@ + b
            &&& bin(BinOp::Div) == before + "div"@ + after + " "@ + a + ", "@ + b
            &&& bin(BinOp::Rem) == before + "rem"@ + after + " "@ + a + ", "@ + b
            &&& asked(CmpOp::Eq) == before + "cmp"@ + after + " "@ + "=="@ + " "@ + a + ", "@ + b
            &&& asked(CmpOp::Ne) == before + "cmp"@ + after + " "@ + "!="@ + " "@ + a + ", "@ + b
            &&& asked(CmpOp::Lt) == before + "cmp"@ + after + " "@ + "<"@ + " "@ + a + ", "@ + b
            &&& asked(CmpOp::Le) == before + "cmp"@ + after + " "@ + "<="@ + " "@ + a + ", "@ + b
            &&& asked(CmpOp::Gt) == before + "cmp"@ + after + " "@ + ">"@ + " "@ + a + ", "@ + b
            &&& asked(CmpOp::Ge) == before + "cmp"@ + after + " "@ + ">="@ + " "@ + a + ", "@ + b
        }),
{
}

/// **The line of a move says what goes where**: constants, copies, conversions, arguments
/// and the literals of the program.
pub proof fn moves_are_named(
    program: ProgramView,
    function: FunctionView,
    dst: VReg,
    src: Value,
    val: i64,
    index: u32,
    id: StrId,
)
    ensures
        ({
            let before = "%"@ + function.names[dst.0 as int] + " = "@;
            let line = |instr: InstrView| instr_line(program, function, instr);
            &&& line(InstrView::Const { dst, val }) == before + "const "@ + decimal(val as int)
            &&& line(InstrView::Copy { dst, src }) == before + "copy "@ + operand(
                function,
                Num::Int,
                src,
            )
            &&& line(InstrView::Cast { dst, to: Num::Int, src }) == before + "int"@ + " "@
                + operand(function, Num::Float, src)
            &&& line(InstrView::Cast { dst, to: Num::Float, src }) == before + "float"@ + " "@
                + operand(function, Num::Int, src)
            &&& line(InstrView::Param { dst, index }) == before + "param "@ + decimal_nat(
                index as nat,
            )
            &&& line(InstrView::StrAddr { dst, id }) == before + "straddr str"@ + decimal_nat(
                id.0 as nat,
            )
        }),
{
}

/// **The line of an access says where it goes**: the room, the address it is about, the
/// offset, index and length, and what is read or written there.
pub proof fn accesses_are_named(
    program: ProgramView,
    function: FunctionView,
    dst: VReg,
    a: Value,
    b: Value,
    c: Value,
    n: u32,
)
    ensures
        ({
            let before = "%"@ + function.names[dst.0 as int] + " = "@;
            let line = |instr: InstrView| instr_line(program, function, instr);
            let x = operand(function, Num::Int, a);
            let y = operand(function, Num::Int, b);
            let z = operand(function, Num::Int, c);
            let bytes = decimal_nat(n as nat);
            &&& line(InstrView::Frame { dst, offset: n }) == before + "frame "@ + bytes
            &&& line(InstrView::Field { dst, base: a, offset: n }) == before + "field "@ + x
                + " + "@ + bytes
            &&& line(InstrView::Elem { dst, base: a, index: b, len: c, scale: n }) == before
                + "elem "@ + x + "["@ + y + "] of "@ + z + " by "@ + bytes
            &&& line(InstrView::Count { dst, of: a }) == before + "count "@ + x
            &&& line(InstrView::LoadChar { dst, addr: a }) == before + "loadchar "@ + x
            &&& line(InstrView::Load { dst, addr: a }) == before + "load "@ + x
            &&& line(InstrView::Store { addr: a, value: b }) == "store "@ + x + ", "@ + y
            &&& line(InstrView::Fixup { at: a, count: b, stride: n }) == "fixup "@ + y + " of "@
                + bytes + " bytes at "@ + x
            &&& line(InstrView::CopyBytes { dst: a, src: b, bytes: n }) == "copy "@ + bytes
                + " bytes to "@ + x + ", from "@ + y
        }),
{
}

/// What a routine is called.
pub open spec fn routine_word(callee: Runtime, word: Seq<char>) -> bool {
    &&& callee is Concat ==> word == "concat"@
    &&& callee is Append ==> word == "append"@
    &&& callee is StrEq ==> word == "str_eq"@
    &&& callee is CheckChar ==> word == "check_char"@
    &&& callee is CharToStr ==> word == "char_str"@
    &&& callee is IntToStr ==> word == "int_str"@
    &&& callee is ListNew ==> word == "list_new"@
    &&& callee is ListPush ==> word == "list_push"@
    &&& callee is ListPushBig ==> word == "list_push_big"@
    &&& callee is StrToInt ==> word == "str_int"@
    &&& callee is IsInt ==> word == "is_int"@
    &&& callee is ReadLine ==> word == "read_line"@
    &&& callee is Eof ==> word == "eof"@
    &&& callee is CharsToStr ==> word == "chars_str"@
    &&& callee is ListClone ==> word == "list_clone"@
    &&& callee is Alloc ==> word == "alloc"@
}

/// **The line of a call says what is called and with what**, and which register takes the
/// answer where one does: a function by its name, a method by its slot in what its
/// receiver points at, a routine by the word for it.
pub proof fn calls_are_named(
    program: ProgramView,
    function: FunctionView,
    dst: Option<VReg>,
    callee: crate::ir::value::FuncId,
    routine: Runtime,
    slot: u32,
    receiver: Value,
    args: Seq<Value>,
)
    ensures
        ({
            let before = (if dst is Some {
                "%"@ + function.names[(dst->0).0 as int] + " = "@
            } else {
                ""@
            });
            let line = |instr: InstrView| instr_line(program, function, instr);
            let handed = operands(function, args);
            &&& line(InstrView::Call { dst, callee, args }) == before + "call "@
                + program.functions[callee.0 as int].name + "("@ + handed + ")"@
            &&& line(InstrView::CallVirtual { dst, slot, receiver, args }) == before + "callv "@
                + operand(function, Num::Int, receiver) + "["@ + decimal_nat(slot as nat) + "]("@
                + handed + ")"@
            &&& exists|word: Seq<char>| #[trigger]
                routine_word(routine, word) && line(
                    InstrView::RtCall { dst, callee: routine, args },
                ) == before + "rt."@ + word + "("@ + handed + ")"@
        }),
{
    operands_are_listed(function, args);
    assert(routine_word(routine, routine.spec_name()));
}

/// **A built-in function is the routine of its own name.**
pub proof fn builtins_are_routines(builtin: Builtin)
    ensures
        Runtime::spec_of(builtin).spec_name() == builtin.spec_name(),
        Builtin::named(builtin.spec_name()) == Some(builtin),
        builtin is ReadLine ==> builtin.spec_name() == "read_line"@,
        builtin is Eof ==> builtin.spec_name() == "eof"@,
        builtin is IsInt ==> builtin.spec_name() == "is_int"@,
{
    reveal_strlit("read_line");
    reveal_strlit("eof");
    reveal_strlit("is_int");
    assert("read_line"@.len() != "eof"@.len());
    assert("read_line"@.len() != "is_int"@.len());
    assert("eof"@.len() != "is_int"@.len());
}

/// **The line of a value of a type names the type**: a variant under its enum, a vtable
/// under its class, and something printed under its own type, on a line of its own where
/// the program asked for one.
pub proof fn values_are_named(
    program: ProgramView,
    function: FunctionView,
    dst: VReg,
    id: crate::ast::EnumId,
    tag: u32,
    class: crate::ast::ClassId,
    ty: Ty,
    val: Value,
    text: TextId,
)
    ensures
        ({
            let before = "%"@ + function.names[dst.0 as int] + " = "@;
            let line = |instr: InstrView| instr_line(program, function, instr);
            let shown = ty_text(program.table, ty) + " "@ + operand(
                function,
                if ty is Float {
                    Num::Float
                } else {
                    Num::Int
                },
                val,
            );
            let info = program.table.enums@[id.0 as int];
            &&& line(InstrView::VariantAddr { dst, id, tag }) == before + "value "@ + info.name@
                + "::"@ + info.variants@[tag as int].name@
            &&& line(InstrView::VTable { dst, class }) == before + "vtable "@
                + program.table.classes@[class.0 as int].name@
            &&& line(InstrView::Print { ty, val, newline: true }) == "println "@ + shown
            &&& line(InstrView::Print { ty, val, newline: false }) == "print "@ + shown
            &&& line(InstrView::PrintText { id: text }) == "print text"@ + decimal_nat(
                text.0 as nat,
            ) + " "@ + crate::ir::dump::quoted(program.texts[text.0 as int])
        }),
{
    let num = (if ty is Float {
        Num::Float
    } else {
        Num::Int
    });
    let a = ty_text(program.table, ty);
    let b = operand(function, num, val);
    assert("println "@ + a + " "@ + b =~= "println "@ + (a + " "@ + b));
    assert("print "@ + a + " "@ + b =~= "print "@ + (a + " "@ + b));
}

/// What a kind of block is called.
pub open spec fn kind_word(kind: BlockKind, word: Seq<char>) -> bool {
    &&& kind is Entry ==> word == "entry"@
    &&& kind is Edge ==> word == "edge"@
    &&& kind is Then ==> word == "then"@
    &&& kind is Else ==> word == "else"@
    &&& kind is Join ==> word == "join"@
    &&& kind is Loop ==> word == "loop"@
    &&& kind is Body ==> word == "body"@
    &&& kind is Step ==> word == "step"@
    &&& kind is Done ==> word == "done"@
    &&& kind is Arm ==> word == "arm"@
    &&& kind is Case ==> word == "case"@
    &&& kind is Rhs ==> word == "rhs"@
    &&& kind is Short ==> word == "short"@
    &&& kind is Unreachable ==> word == "unreachable"@
}

/// What a block is called: what it is for, and its number.
pub open spec fn is_label(block: BlockView, label: Seq<char>) -> bool {
    exists|word: Seq<char>| #[trigger]
        kind_word(block.kind, word) && label == word + decimal_nat(block.index as nat)
}

/// Something behind a block's name: nothing, or what is in brackets.
pub open spec fn bracketed(function: FunctionView, values: Seq<Value>) -> Seq<char> {
    if values.len() == 0 {
        seq![]
    } else {
        "("@ + operands(function, values) + ")"@
    }
}

/// **An ending says where control goes**: a branch to the first where its condition holds
/// and to the second otherwise, each with what it hands over.
pub proof fn endings_are_named(
    function: FunctionView,
    cond: Value,
    one: TargetView,
    other: TargetView,
) -> (labels: (Seq<char>, Seq<char>))
    ensures
        is_label(function.blocks[one.block.0 as int], labels.0),
        is_label(function.blocks[other.block.0 as int], labels.1),
        term_text(function, TermView::Jump(one)) == "jump "@ + (labels.0 + bracketed(
            function,
            one.args,
        )),
        term_text(
            function,
            TermView::Branch { cond, then_blk: one, else_blk: other },
        ) == "branch "@ + operand(function, Num::Int, cond) + " ? "@ + (labels.0 + bracketed(
            function,
            one.args,
        )) + " : "@ + (labels.1 + bracketed(function, other.args)),
        term_text(function, TermView::Return(None)) == "return"@,
        term_text(function, TermView::Return(Some(cond))) == "return "@ + operand(
            function,
            Num::Int,
            cond,
        ),
{
    let a = function.blocks[one.block.0 as int];
    let b = function.blocks[other.block.0 as int];
    operands_are_listed(function, one.args);
    operands_are_listed(function, other.args);
    assert(kind_word(a.kind, a.kind.spec_prefix()));
    assert(kind_word(b.kind, b.kind.spec_prefix()));
    assert(crate::ir::dump::target_text(function, one) =~= a.label() + bracketed(
        function,
        one.args,
    ));
    assert(crate::ir::dump::target_text(function, other) =~= b.label() + bracketed(
        function,
        other.args,
    ));
    (a.label(), b.label())
}

/// **A block starts with its name and what it is handed, a function with its name, what
/// it takes and what it gives.**
pub proof fn heads_are_named(
    function: FunctionView,
    block: BlockView,
    table: crate::ast::TypeTable,
) -> (label: Seq<char>)
    ensures
        is_label(block, label),
        block_head(function, block) == label + bracketed(
            function,
            block.params.map_values(|reg: VReg| Value::Reg(reg)),
        ),
        signature_text(function, table) == "fn "@ + function.name + "("@ + operands(
            function,
            function.params.map_values(|reg: VReg| Value::Reg(reg)),
        ) + ")"@ + (match function.ret {
            Some(ty) => " -> "@ + ty_text(table, ty),
            None => seq![],
        }),
{
    operands_are_listed(function, block.params.map_values(|reg: VReg| Value::Reg(reg)));
    operands_are_listed(function, function.params.map_values(|reg: VReg| Value::Reg(reg)));
    assert(kind_word(block.kind, block.kind.spec_prefix()));
    assert(block_head(function, block) =~= block.label() + bracketed(
        function,
        block.params.map_values(|reg: VReg| Value::Reg(reg)),
    ));
    let head = "fn "@ + function.name + "("@ + registers_listed(function, function.params) + ")"@;
    match function.ret {
        Some(ty) => {
            assert(head + " -> "@ + ty_text(table, ty) =~= head + (" -> "@ + ty_text(table, ty)));
        },
        None => {
            assert(head =~= head + Seq::<char>::empty());
        },
    }
    block.label()
}

/// **Lines are numbered in threes**: three characters hold the number of any line before
/// the thousandth, spaces in front.
pub proof fn numbers_are_padded(out: Seq<char>, index: nat, line: Seq<char>)
    ensures
        numbered(out, index, line) == out + padding(index) + decimal_nat(index) + "  "@ + line
            + "\n"@,
        forall|i: int| 0 <= i < padding(index).len() ==> #[trigger] padding(index)[i] == ' ',
        index < 1000 ==> padding(index).len() + decimal_nat(index).len() == 3,
        index >= 1000 ==> padding(index).len() == 0,
{
    reveal_strlit("  ");
    reveal_strlit(" ");
    reveal_strlit("");
    if index >= 10 {
        assert(decimal_nat(index).len() == decimal_nat(index / 10).len() + 1);
        if index >= 100 {
            assert(decimal_nat(index / 10).len() == decimal_nat(index / 10 / 10).len() + 1);
        }
    }
}

/// **String literals are listed by number**, quoted, a line each.
pub proof fn literals_are_listed(strings: Seq<Seq<char>>, n: int)
    requires
        0 <= n < strings.len(),
    ensures
        string_lines(strings, 0) == Seq::<char>::empty(),
        string_lines(strings, n + 1) == string_lines(strings, n) + "str"@ + decimal_nat(n as nat)
            + " = "@ + crate::ir::dump::quoted(strings[n]) + "\n"@,
{
}

/// **Every step has a number of its own**: a block's instructions and its ending take the
/// numbers from where the block before it left off.
pub proof fn steps_are_counted(blocks: Seq<BlockView>, b: int)
    requires
        0 <= b < blocks.len(),
    ensures
        steps_before(blocks, 0) == 0,
        steps_before(blocks, b + 1) == steps_before(blocks, b) + blocks[b].instrs.len() + 1,
{
}

/// **A type is written the way a program writes it.**
pub proof fn types_are_named(table: crate::ast::TypeTable, ty: Ty)
    ensures
        ty is Int ==> ty_text(table, ty) == "int"@,
        ty is Float ==> ty_text(table, ty) == "float"@,
        ty is Bool ==> ty_text(table, ty) == "bool"@,
        ty is Char ==> ty_text(table, ty) == "char"@,
        ty is Str ==> ty_text(table, ty) == "string"@,
        ty matches Ty::Class(id) ==> ty_text(table, ty) == table.classes@[id.0 as int].name@,
        ty matches Ty::Enum(id) ==> ty_text(table, ty) == table.enums@[id.0 as int].name@,
        forall|depth: nat|
            depth > 0 ==> (ty matches Ty::Array(id) ==> #[trigger] ty_text_within(table, ty, depth)
                == ty_text_within(
                table,
                table.arrays@[id.0 as int].elem,
                (depth - 1) as nat,
            ) + "["@ + decimal_nat(table.arrays@[id.0 as int].len as nat) + "]"@),
        forall|depth: nat|
            depth > 0 ==> (ty matches Ty::List(id) ==> #[trigger] ty_text_within(table, ty, depth)
                == ty_text_within(table, table.lists@[id.0 as int], (depth - 1) as nat) + "[]"@),
        table.deepest() >= table.arrays@.len() + table.lists@.len(),
{
}

/// **A dump is its sections, in order.** First the literals, with a line left free behind
/// them where there are any; then every function in turn, with a line left free behind
/// it: its head, and every block in turn, with its head, its instructions and its ending,
/// each under the next number.
pub proof fn sections_are_listed(
    program: ProgramView,
    function: FunctionView,
    out: Seq<char>,
    n: int,
    b: int,
    k: int,
)
    ensures
        crate::ir::dump::dump_text(program) == with_functions(
            program,
            program.functions.len() as int,
        ),
        with_functions(program, 0) == string_lines(program.strings, program.strings.len() as int)
            + (if program.strings.len() > 0 {
            "\n"@
        } else {
            seq![]
        }),
        0 <= n < program.functions.len() ==> with_functions(program, n + 1) == with_blocks(
            with_functions(program, n),
            program,
            program.functions[n],
            program.functions[n].blocks.len() as int,
        ) + "\n"@,
        with_blocks(out, program, function, 0) == out + signature_text(function, program.table)
            + ":\n"@,
        0 <= b < function.blocks.len() ==> with_blocks(out, program, function, b + 1) == numbered(
            with_instrs(
                with_blocks(out, program, function, b),
                program,
                function,
                b,
                function.blocks[b].instrs.len() as int,
            ),
            steps_before(function.blocks, b) + function.blocks[b].instrs.len(),
            term_text(function, function.blocks[b].term),
        ),
        with_instrs(out, program, function, b, 0) == out + block_head(function, function.blocks[b])
            + ":\n"@,
        0 <= k < function.blocks[b].instrs.len() ==> with_instrs(out, program, function, b, k + 1)
            == numbered(
            with_instrs(out, program, function, b, k),
            (steps_before(function.blocks, b) + k) as nat,
            instr_line(program, function, function.blocks[b].instrs[k]),
        ),
{
    let lines = string_lines(program.strings, program.strings.len() as int);
    assert(lines + Seq::<char>::empty() =~= lines);
}

} // verus!
