//! Lowering expressions to a value in a virtual register.

use vstd::prelude::*;

use crate::ast::{BinOp, Builtin, CmpOp, Expr, ExprKind, LogicOp, NodeId, Ty};
use crate::ir::block::{BlockKind, Terminator};
use crate::ir::fold::{
    fold_bin, fold_cmp, fold_logic, holds, negate_const, negated_comparison, word_of,
    zero_to_subtract_from,
};
use crate::ir::func::leading;
use crate::ir::instr::{Instr, Runtime};
use crate::ir::lower::builder::Lowering;
use crate::ir::lower::flow::both_hold;
use crate::ir::lower::meaning::{
    array_into_of, bin_instr, bin_into_of, bin_value, bin_value_of, builtin_call_of, builtin_of,
    call_into_of, call_parts_of, callee_of, compared, comparison_instr, comparison_into_of,
    comparison_value, comparison_value_of, diamond, element_read, expr_body, expr_into_body,
    expr_into_of, expr_of, field_into_of, has_operation, index_into_of, index_value_of,
    length_into_of, length_value_of, logic_branch_of, logic_expr_into_of, logic_into_of,
    logic_value_of, neg_into_of, neg_value_of, negated_of, not_into_of, not_value_of, number_of,
    object_into_of, operands_of, room_handed, short_opened, takes, temp_of, turned_round,
    variant_value_of,
};
use crate::ir::lower::place::{element_of, flag_of, is_string_op};
use crate::ir::lower::state::{
    emitted, first_at, follows, has, has_at, held_at, held_here, here_rests, is_set, limits,
    rests_on, sound, stands, still_rests, writable, Context, State,
};
use crate::ir::value::{BlockId, FuncId, Num, VReg, Value};

verus! {

/// How an expression's value is read, which is a question about its type.
pub fn num_of(cx: &Context<'_>, id: NodeId) -> (num: Num)
    requires
        number_of(cx@, id) is Some,
    ensures
        Some(num) == number_of(cx@, id),
{
    Num::of(cx.types.of(id))
}

/// Which function a name means: the first declared with it.
fn callee_named(cx: &Context<'_>, name: &String) -> (callee: FuncId)
    requires
        callee_of(cx@, name@) is Some,
    ensures
        Some(callee) == callee_of(cx@, name@),
        callee.0 < cx@.names.len(),
{
    let ghost names = cx@.names;
    let mut i: usize = 0;
    while i < cx.names.len()
        invariant
            i <= cx.names@.len(),
            names == cx@.names,
            first_at(names, name@, 0) == first_at(names, name@, i as nat),
        decreases cx.names@.len() - i,
    {
        if cx.names[i] == *name {
            return FuncId(i as u32);
        }
        i = i + 1;
    }
    assert(false);
    FuncId(0)
}

/// The built-in function a call calls, if it calls one.
pub fn called_builtin(e: &Expr) -> (builtin: Option<Builtin>)
    ensures
        builtin == builtin_of(*e),
{
    match &e.kind {
        ExprKind::Call { name, .. } => Builtin::from_name(name.as_str()),
        _ => None,
    }
}

/// Which of two ways is named first does not matter to what holds where both end.
proof fn common_either_way(st: State, one: BlockId, other: BlockId)
    ensures
        held_at(st, one).intersect(held_at(st, other)) == held_at(st, other).intersect(
            held_at(st, one),
        ),
{
    assert(held_at(st, one).intersect(held_at(st, other)) =~= held_at(st, other).intersect(
        held_at(st, one),
    ));
}

/// Whether turning a comparison round is the opposite of it.
fn inverts(cx: &Context<'_>, op: CmpOp, operand: NodeId, e: &Expr) -> (turned: bool)
    requires
        cx.types.has(operand),
        e.kind matches ExprKind::Cmp { op: written, lhs, .. } && written == op && lhs.id
            == operand,
    ensures
        turned == turned_round(cx@, *e),
{
    let ty = cx.types.of(operand);
    let text: bool = match ty {
        Ty::Str => true,
        _ => false,
    };
    let equality: bool = match op {
        CmpOp::Eq => true,
        CmpOp::Ne => true,
        _ => false,
    };
    let whole: bool = match Num::of(ty) {
        Num::Int => true,
        Num::Float => false,
    };
    !text && (whole || equality)
}

impl Lowering {
    // -- expressions -------------------------------------------------------

    /// The callee and evaluated arguments of a call expression.
    ///
    /// Arguments are evaluated left to right, before the call itself; a nested
    /// call therefore finishes first and leaves its result in a temporary that
    /// the outer call reads as an operand.
    pub fn call_parts(&mut self, cx: &Context<'_>, e: &Expr) -> (parts: (FuncId, Vec<Value>))
        requires
            sound(old(self)@),
            old(self)@.limits == limits(cx@),
            call_parts_of(cx@, old(self)@, *e) is Some,
        ensures
            Some((final(self)@, parts.0, parts.1@)) == call_parts_of(cx@, old(self)@, *e),
            follows(old(self)@, final(self)@),
            parts.0.0 < cx@.names.len(),
            takes(cx@, parts.0.0 as int, parts.1@.len()),
            forall|i: int|
                0 <= i < parts.1@.len() ==> has(final(self)@, #[trigger] parts.1@[i]),
        decreases *e, 10int, 0int,
    {
        match &e.kind {
            ExprKind::Call { name, args } => {
                let mut values: Vec<Value> = Vec::new();
                self.eval_args(cx, args, &mut values);
                (callee_named(cx, name), values)
            },
            _ => {
                assert(false);
                (FuncId(0), Vec::new())
            },
        }
    }

    /// A built-in is a call with no body to compile, so it goes out as the
    /// routine it is.
    pub fn call_builtin(
        &mut self,
        cx: &Context<'_>,
        dst: Option<VReg>,
        builtin: Builtin,
        e: &Expr,
    )
        requires
            sound(old(self)@),
            old(self)@.limits == limits(cx@),
            match dst {
                Some(reg) => writable(old(self)@, reg),
                None => true,
            },
            builtin_call_of(cx@, old(self)@, dst, builtin, *e) is Some,
        ensures
            Some(final(self)@) == builtin_call_of(cx@, old(self)@, dst, builtin, *e),
            follows(old(self)@, final(self)@),
            match dst {
                Some(reg) => is_set(final(self)@, reg),
                None => true,
            },
        decreases *e, 10int, 0int,
    {
        match &e.kind {
            ExprKind::Call { name, args } => {
                let mut values: Vec<Value> = Vec::new();
                self.eval_args(cx, args, &mut values);
                self.emit(Instr::RtCall { dst, callee: Runtime::of(builtin), args: values });
            },
            _ => {
                assert(false);
            },
        }
    }

    /// A call's answer put in a register, or in room the caller reserves.
    fn call_into(&mut self, cx: &Context<'_>, dst: VReg, e: &Expr)
        requires
            sound(old(self)@),
            old(self)@.limits == limits(cx@),
            writable(old(self)@, dst),
            call_into_of(cx@, old(self)@, dst, *e) is Some,
        ensures
            Some(final(self)@) == call_into_of(cx@, old(self)@, dst, *e),
            follows(old(self)@, final(self)@),
            is_set(final(self)@, dst),
        decreases *e, 20int, 0int,
    {
        proof {
            reveal(limits);
        }
        if let Some(builtin) = called_builtin(e) {
            self.call_builtin(cx, Some(dst), builtin, e);
            return;
        }
        let (callee, args) = self.call_parts(cx, e);
        let ty = cx.types.of(e.id);
        let (dst, args) = self.hand_room(cx, Some(dst), Some(ty), args);
        self.emit(Instr::Call { dst, callee, args });
    }

    /// Settle where a call's answer goes and what the call hands on.
    ///
    /// An answer that does not fit in a register goes in room the caller
    /// reserves, whose address leads the arguments. `dst` ends up naming it; a
    /// caller that throws the answer away has to reserve it all the same.
    pub fn hand_room(
        &mut self,
        cx: &Context<'_>,
        dst: Option<VReg>,
        ret: Option<Ty>,
        args: Vec<Value>,
    ) -> (handed: (Option<VReg>, Vec<Value>))
        requires
            sound(old(self)@),
            old(self)@.limits == limits(cx@),
            match dst {
                Some(reg) => writable(old(self)@, reg),
                None => true,
            },
            forall|i: int|
                0 <= i < args@.len() ==> has(old(self)@, #[trigger] args@[i]),
            room_handed(cx@, old(self)@, dst, ret, args@) is Some,
        ensures
            Some((final(self)@, handed.0, handed.1@)) == room_handed(
                cx@,
                old(self)@,
                dst,
                ret,
                args@,
            ),
            follows(old(self)@, final(self)@),
            handed.1@.len() == args@.len() + leading(ret),
            match dst {
                Some(reg) => handed.0 == Some(reg) || is_set(final(self)@, reg),
                None => true,
            },
            match handed.0 {
                Some(reg) => writable(final(self)@, reg),
                None => true,
            },
            forall|i: int|
                0 <= i < handed.1@.len() ==> has(final(self)@, #[trigger] handed.1@[i]),
    {
        let ty: Ty = match ret {
            Some(ty) => ty,
            None => return (dst, args),
        };
        if ty.fits_in_a_register() {
            return (dst, args);
        }
        let ghost given = args@;
        let mut args: Vec<Value> = args;
        let out: VReg = match dst {
            Some(reg) => reg,
            None => self.fresh_temp(),
        };
        self.allocate_for(cx, out, ty);
        args.insert(0, Value::Reg(out));
        assert(args@ =~= seq![Value::Reg(out)] + given);
        (None, args)
    }

    /// What `len` of something is. An array's length is a fact about its type,
    /// so it costs nothing at all; a string's or a list's is a load.
    fn length_value(&mut self, cx: &Context<'_>, e: &Expr) -> (len: Value)
        requires
            sound(old(self)@),
            old(self)@.limits == limits(cx@),
            length_value_of(cx@, old(self)@, *e) is Some,
        ensures
            Some((final(self)@, len)) == length_value_of(cx@, old(self)@, *e),
            follows(old(self)@, final(self)@),
            has(final(self)@, len),
        decreases *e, 10int, 0int,
    {
        match &e.kind {
            ExprKind::Len { array } => match cx.types.of(array.id) {
                Ty::Array(id) => Value::Const(cx.types.table().array(id).len as i64),
                _ => {
                    let of = self.expr(cx, array);
                    self.length_of(of)
                },
            },
            _ => {
                assert(false);
                Value::Const(0)
            },
        }
    }

    /// Put what is at an address in a register: an aggregate *is* its address,
    /// and a string's characters are narrower than a register.
    fn read_element(&mut self, dst: VReg, of: Ty, ty: Ty, addr: VReg)
        requires
            sound(old(self)@),
            writable(old(self)@, dst),
            has(old(self)@, Value::Reg(addr)),
        ensures
            final(self)@ == emitted(old(self)@, element_read(dst, of, ty, addr)),
            follows(old(self)@, final(self)@),
            is_set(final(self)@, dst),
    {
        let from = Value::Reg(addr);
        let instr: Instr = match of {
            Ty::Str => Instr::LoadChar { dst, addr: from },
            _ => if ty.fits_in_a_register() {
                Instr::Load { dst, addr: from }
            } else {
                Instr::Copy { dst, src: from }
            },
        };
        self.emit(instr);
    }

    /// A field read into a register.
    fn field_into(&mut self, cx: &Context<'_>, dst: VReg, e: &Expr)
        requires
            sound(old(self)@),
            old(self)@.limits == limits(cx@),
            writable(old(self)@, dst),
            field_into_of(cx@, old(self)@, dst, *e) is Some,
        ensures
            Some(final(self)@) == field_into_of(cx@, old(self)@, dst, *e),
            follows(old(self)@, final(self)@),
            is_set(final(self)@, dst),
        decreases *e, 10int, 0int,
    {
        match &e.kind {
            ExprKind::Field { object, name } => match cx.types.of(object.id) {
                Ty::Class(id) => {
                    let ty = cx.types.of(e.id);
                    let of = self.expr(cx, object);
                    let addr = self.field_address(cx, of, id, name);
                    self.read_element(dst, Ty::Class(id), ty, addr);
                },
                _ => {
                    assert(false);
                },
            },
            _ => {
                assert(false);
            },
        }
    }

    /// An array or a list literal built into a register. A list literal
    /// reserves nothing in the frame: its elements live in the arena.
    fn array_into(&mut self, cx: &Context<'_>, dst: VReg, e: &Expr)
        requires
            sound(old(self)@),
            old(self)@.limits == limits(cx@),
            writable(old(self)@, dst),
            array_into_of(cx@, old(self)@, dst, *e) is Some,
        ensures
            Some(final(self)@) == array_into_of(cx@, old(self)@, dst, *e),
            follows(old(self)@, final(self)@),
            is_set(final(self)@, dst),
        decreases *e, 10int, 0int,
    {
        match &e.kind {
            ExprKind::Array { elements } => {
                let ty = cx.types.of(e.id);
                match ty {
                    Ty::List(_) => {
                        let (_, bytes) = element_of(cx, ty);
                        let len = Value::Const(elements.len() as i64);
                        let args: Vec<Value> = vec![len, Value::Const(bytes as i64)];
                        assert(args@ =~= seq![len, Value::Const(bytes as i64)]);
                        self.emit(
                            Instr::RtCall { dst: Some(dst), callee: Runtime::ListNew, args },
                        );
                        self.fill_elements(cx, Value::Reg(dst), len, bytes, elements);
                    },
                    _ => {
                        self.allocate_for(cx, dst, ty);
                        self.fill_array(cx, Value::Reg(dst), ty, elements);
                    },
                }
            },
            _ => {
                assert(false);
            },
        }
    }

    /// Two operands, evaluated left to right.
    fn operands(&mut self, cx: &Context<'_>, e: &Expr) -> (values: (Value, Value))
        requires
            sound(old(self)@),
            old(self)@.limits == limits(cx@),
            operands_of(cx@, old(self)@, *e) is Some,
        ensures
            Some((final(self)@, values.0, values.1)) == operands_of(cx@, old(self)@, *e),
            follows(old(self)@, final(self)@),
            has(final(self)@, values.0),
            has(final(self)@, values.1),
        decreases *e, 10int, 0int,
    {
        match &e.kind {
            ExprKind::Bin { op, lhs, rhs } => {
                let a = self.expr(cx, lhs);
                let b = self.expr(cx, rhs);
                (a, b)
            },
            ExprKind::Cmp { op, lhs, rhs } => {
                let a = self.expr(cx, lhs);
                let b = self.expr(cx, rhs);
                (a, b)
            },
            _ => {
                assert(false);
                (Value::Const(0), Value::Const(0))
            },
        }
    }

    /// Put an operation's answer in a register, settled here where it can be.
    fn emit_bin(&mut self, num: Num, op: BinOp, dst: VReg, a: Value, b: Value)
        requires
            sound(old(self)@),
            writable(old(self)@, dst),
            has(old(self)@, a),
            has(old(self)@, b),
            has_operation(num, op),
        ensures
            final(self)@ == emitted(old(self)@, bin_instr(num, op, dst, a, b)),
            follows(old(self)@, final(self)@),
            is_set(final(self)@, dst),
    {
        let instr: Instr = match fold_bin(num, op, a, b) {
            Some(val) => Instr::Const { dst, val },
            None => Instr::Bin { num, op, dst, lhs: a, rhs: b },
        };
        self.emit(instr);
    }

    /// The same for a comparison.
    fn emit_comparison(&mut self, num: Num, op: CmpOp, dst: VReg, a: Value, b: Value)
        requires
            sound(old(self)@),
            writable(old(self)@, dst),
            has(old(self)@, a),
            has(old(self)@, b),
        ensures
            final(self)@ == emitted(old(self)@, comparison_instr(num, op, dst, a, b)),
            follows(old(self)@, final(self)@),
            is_set(final(self)@, dst),
    {
        let instr: Instr = match fold_cmp(num, op, a, b) {
            Some(val) => Instr::Const { dst, val },
            None => Instr::Cmp { num, op, dst, lhs: a, rhs: b },
        };
        self.emit(instr);
    }

    /// A comparison's answer as an operand, settled here where it can be.
    fn comparison(&mut self, num: Num, op: CmpOp, a: Value, b: Value) -> (value: Value)
        requires
            sound(old(self)@),
            has(old(self)@, a),
            has(old(self)@, b),
            comparison_value(old(self)@, num, op, a, b) is Some,
        ensures
            Some((final(self)@, value)) == comparison_value(old(self)@, num, op, a, b),
            follows(old(self)@, final(self)@),
            has(final(self)@, value),
    {
        match fold_cmp(num, op, a, b) {
            Some(val) => Value::Const(val),
            None => {
                let dst = self.fresh_temp();
                self.emit(Instr::Cmp { num, op, dst, lhs: a, rhs: b });
                Value::Reg(dst)
            },
        }
    }

    /// An object literal built into a register. The object's room is reserved at
    /// its hierarchy's size, then its vtable pointer goes in at offset 0 and its
    /// fields after.
    fn object_into(&mut self, cx: &Context<'_>, dst: VReg, e: &Expr)
        requires
            sound(old(self)@),
            old(self)@.limits == limits(cx@),
            writable(old(self)@, dst),
            object_into_of(cx@, old(self)@, dst, *e) is Some,
        ensures
            Some(final(self)@) == object_into_of(cx@, old(self)@, dst, *e),
            follows(old(self)@, final(self)@),
            is_set(final(self)@, dst),
        decreases *e, 10int, 0int,
    {
        match &e.kind {
            ExprKind::New { fields } => match cx.types.of(e.id) {
                Ty::Class(id) => {
                    let storage: u32 = cx.types.table().class(id).storage;
                    self.allocate(dst, storage);
                    self.fill_object(cx, Value::Reg(dst), id, fields);
                },
                _ => {
                    assert(false);
                },
            },
            _ => {
                assert(false);
            },
        }
    }

    /// An element read into a register.
    fn index_into(&mut self, cx: &Context<'_>, dst: VReg, e: &Expr)
        requires
            sound(old(self)@),
            old(self)@.limits == limits(cx@),
            writable(old(self)@, dst),
            index_into_of(cx@, old(self)@, dst, *e) is Some,
        ensures
            Some(final(self)@) == index_into_of(cx@, old(self)@, dst, *e),
            follows(old(self)@, final(self)@),
            is_set(final(self)@, dst),
        decreases *e, 20int, 0int,
    {
        match &e.kind {
            ExprKind::Index { array, .. } => {
                let of = cx.types.of(array.id);
                let ty = cx.types.of(e.id);
                let addr = self.element_address(cx, e);
                self.read_element(dst, of, ty, addr);
            },
            _ => {
                assert(false);
            },
        }
    }

    /// A length put in a register.
    fn length_into(&mut self, cx: &Context<'_>, dst: VReg, e: &Expr)
        requires
            sound(old(self)@),
            old(self)@.limits == limits(cx@),
            writable(old(self)@, dst),
            length_into_of(cx@, old(self)@, dst, *e) is Some,
        ensures
            Some(final(self)@) == length_into_of(cx@, old(self)@, dst, *e),
            follows(old(self)@, final(self)@),
            is_set(final(self)@, dst),
        decreases *e, 20int, 0int,
    {
        let src = self.length_value(cx, e);
        self.emit(Instr::Copy { dst, src });
    }

    /// An operation's answer put in a register. `+` on two strings is a *loop*
    /// rather than an instruction, so it leaves through a call.
    fn bin_into(&mut self, cx: &Context<'_>, dst: VReg, op: BinOp, e: &Expr)
        requires
            sound(old(self)@),
            old(self)@.limits == limits(cx@),
            writable(old(self)@, dst),
            bin_into_of(cx@, old(self)@, dst, op, *e) is Some,
        ensures
            Some(final(self)@) == bin_into_of(cx@, old(self)@, dst, op, *e),
            follows(old(self)@, final(self)@),
            is_set(final(self)@, dst),
        decreases *e, 20int, 0int,
    {
        if is_string_op(cx, e) {
            self.string_op_into(cx, dst, e);
        } else {
            let num = num_of(cx, e.id);
            let (a, b) = self.operands(cx, e);
            self.emit_bin(num, op, dst, a, b);
        }
    }

    /// A comparison's answer put in a register. A comparison answers a bool
    /// whatever it compared, so what says how to read the operands is an
    /// *operand's* type.
    fn comparison_into(&mut self, cx: &Context<'_>, dst: VReg, op: CmpOp, operand: NodeId, e: &Expr)
        requires
            sound(old(self)@),
            old(self)@.limits == limits(cx@),
            writable(old(self)@, dst),
            comparison_into_of(cx@, old(self)@, dst, op, operand, *e) is Some,
        ensures
            Some(final(self)@) == comparison_into_of(cx@, old(self)@, dst, op, operand, *e),
            follows(old(self)@, final(self)@),
            is_set(final(self)@, dst),
        decreases *e, 20int, 0int,
    {
        if is_string_op(cx, e) {
            self.string_op_into(cx, dst, e);
        } else {
            let num = num_of(cx, operand);
            let (a, b) = self.operands(cx, e);
            self.emit_comparison(num, op, dst, a, b);
        }
    }

    /// A negation put in a register.
    fn neg_into(&mut self, cx: &Context<'_>, dst: VReg, id: NodeId, operand: &Expr)
        requires
            sound(old(self)@),
            old(self)@.limits == limits(cx@),
            writable(old(self)@, dst),
            neg_into_of(cx@, old(self)@, dst, id, *operand) is Some,
        ensures
            Some(final(self)@) == neg_into_of(cx@, old(self)@, dst, id, *operand),
            follows(old(self)@, final(self)@),
            is_set(final(self)@, dst),
        decreases *operand, 70int, 0int,
    {
        let num = num_of(cx, id);
        let val = self.expr(cx, operand);
        let instr: Instr = match val {
            Value::Const(c) => Instr::Const { dst, val: negate_const(num, c) },
            Value::Reg(_) => Instr::Bin {
                num,
                op: BinOp::Sub,
                dst,
                lhs: zero_to_subtract_from(num),
                rhs: val,
            },
        };
        self.emit(instr);
    }

    /// `!operand` put in a register.
    fn not_into(&mut self, cx: &Context<'_>, dst: VReg, operand: &Expr)
        requires
            sound(old(self)@),
            old(self)@.limits == limits(cx@),
            writable(old(self)@, dst),
            not_into_of(cx@, old(self)@, dst, *operand) is Some,
        ensures
            Some(final(self)@) == not_into_of(cx@, old(self)@, dst, *operand),
            follows(old(self)@, final(self)@),
            is_set(final(self)@, dst),
        decreases *operand, 80int, 0int,
    {
        let (num, op, a, b) = self.negated(cx, operand);
        self.emit_comparison(num, op, dst, a, b);
    }

    /// `lhs && rhs` or `lhs || rhs` put in a register.
    fn logic_expr_into(&mut self, cx: &Context<'_>, dst: VReg, e: &Expr)
        requires
            sound(old(self)@),
            old(self)@.limits == limits(cx@),
            writable(old(self)@, dst),
            logic_expr_into_of(cx@, old(self)@, dst, *e) is Some,
        ensures
            Some(final(self)@) == logic_expr_into_of(cx@, old(self)@, dst, *e),
            follows(old(self)@, final(self)@),
            is_set(final(self)@, dst),
        decreases *e, 10int, 0int,
    {
        match &e.kind {
            ExprKind::Logic { op, lhs, rhs } => {
                let cond = self.expr(cx, lhs);
                self.logic_into(cx, dst, *op, cond, rhs);
            },
            _ => {
                assert(false);
            },
        }
    }

    /// Lower an expression whose result must land in `dst`.
    pub fn expr_into(&mut self, cx: &Context<'_>, dst: VReg, e: &Expr)
        requires
            sound(old(self)@),
            old(self)@.limits == limits(cx@),
            writable(old(self)@, dst),
            expr_into_of(cx@, old(self)@, dst, *e) is Some,
        ensures
            Some(final(self)@) == expr_into_of(cx@, old(self)@, dst, *e),
            follows(old(self)@, final(self)@),
            is_set(final(self)@, dst),
        decreases *e, 35int, 0int,
    {
        assert(expr_into_of(cx@, self@, dst, *e) == expr_into_body(cx@, self@, dst, *e));
        proof {
            reveal(limits);
        }
        match &e.kind {
            ExprKind::Int(v) => self.emit(Instr::Const { dst, val: *v }),
            ExprKind::Float(b) => self.emit(Instr::Const { dst, val: word_of(*b) }),
            ExprKind::Bool(v) => self.emit(Instr::Const { dst, val: flag_of(*v) }),
            ExprKind::Char(c) => self.emit(Instr::Const { dst, val: *c as i64 }),
            ExprKind::Str(chars) => {
                let id = self.intern(chars);
                self.emit(Instr::StrAddr { dst, id });
            },
            ExprKind::Var(name) => {
                let reg = self.lookup(name);
                self.note_settled(Ghost(!self@.unset.contains(reg)));
                self.emit(Instr::Copy { dst, src: Value::Reg(reg) });
            },
            ExprKind::Variant { .. } => self.variant_into(cx, dst, e),
            ExprKind::New { .. } => self.object_into(cx, dst, e),
            ExprKind::Field { .. } => self.field_into(cx, dst, e),
            ExprKind::MethodCall { .. } => self.method_call(cx, Some(dst), e),
            ExprKind::Array { .. } => self.array_into(cx, dst, e),
            ExprKind::Index { .. } => self.index_into(cx, dst, e),
            ExprKind::Len { .. } => self.length_into(cx, dst, e),
            ExprKind::Convert { to, value } => self.convert_into(cx, dst, *to, value),
            ExprKind::Bin { op, .. } => self.bin_into(cx, dst, *op, e),
            ExprKind::Cmp { op, lhs, .. } => self.comparison_into(cx, dst, *op, lhs.id, e),
            ExprKind::Neg(operand) => self.neg_into(cx, dst, e.id, operand),
            ExprKind::Not(operand) => self.not_into(cx, dst, operand),
            ExprKind::Logic { .. } => self.logic_expr_into(cx, dst, e),
            ExprKind::Match { .. } => self.match_lowering(cx, Some(dst), e),
            ExprKind::Call { .. } => self.call_into(cx, dst, e),
        }
    }

    /// Lower `cond && rhs` or `cond || rhs` into `dst`, the left operand
    /// evaluated already.
    fn logic_into(&mut self, cx: &Context<'_>, dst: VReg, op: LogicOp, cond: Value, rhs: &Expr)
        requires
            sound(old(self)@),
            old(self)@.limits == limits(cx@),
            writable(old(self)@, dst),
            has(old(self)@, cond),
            logic_into_of(cx@, old(self)@, dst, op, cond, *rhs) is Some,
        ensures
            Some(final(self)@) == logic_into_of(cx@, old(self)@, dst, op, cond, *rhs),
            follows(old(self)@, final(self)@),
            is_set(final(self)@, dst),
        decreases *rhs, 50int, 0int,
    {
        match cond {
            Value::Const(_) => {
                // A known left operand settles the expression at compile time.
                // Dropping the right one is not just an optimisation here: with
                // `false && f()`, *not* calling `f` is the semantics.
                match fold_logic(op, cond) {
                    Some(val) => self.emit(Instr::Const { dst, val }),
                    // It decided nothing: `true && e` is simply `e`.
                    None => self.expr_into(cx, dst, rhs),
                }
            },
            Value::Reg(_) => self.logic_branch(cx, dst, op, cond, rhs),
        }
    }

    /// The half of `&&` and `||` that really branches, given a left operand
    /// whose value is not known.
    ///
    /// Short circuiting *is* control flow, so this produces the same diamond an
    /// `if` does. Both arms write `dst`.
    pub fn logic_branch(
        &mut self,
        cx: &Context<'_>,
        dst: VReg,
        op: LogicOp,
        cond: Value,
        rhs: &Expr,
    )
        requires
            sound(old(self)@),
            old(self)@.limits == limits(cx@),
            writable(old(self)@, dst),
            has(old(self)@, cond),
            logic_branch_of(cx@, old(self)@, dst, op, cond, *rhs) is Some,
        ensures
            Some(final(self)@) == logic_branch_of(cx@, old(self)@, dst, op, cond, *rhs),
            follows(old(self)@, final(self)@),
            is_set(final(self)@, dst),
        decreases *rhs, 40int, 0int,
    {
        // The value the left operand hands back when it decides on its own.
        let settled: i64 = op.short_circuit();
        // The branch belongs to whichever block the left operand ended in.
        let entry = self.current();
        let ghost known = held_here(self@);
        let ghost decided = self@;
        proof {
            here_rests(self@);
        }
        // The arm the branch continues into is laid out first, so the backend
        // reaches it by falling through instead of by jumping.
        match op {
            LogicOp::And => {
                let rhs_block = self.new_block(BlockKind::Rhs, Ghost(known));
                self.expr_into(cx, dst, rhs);
                let rhs_exit = self.current();
                let ghost built = self@;
                proof {
                    still_rests(decided, self@, known);
                }
                let short = self.logic_short(dst, settled, Ghost(known));
                proof {
                    still_rests(decided, self@, known);
                    both_hold(built, self@, rhs_exit, short, known);
                }
                self.join(entry, cond, rhs_block, short, rhs_exit, short);
            },
            LogicOp::Or => {
                let short = self.logic_short(dst, settled, Ghost(known));
                let ghost built = self@;
                proof {
                    still_rests(decided, self@, known);
                }
                let rhs_block = self.new_block(BlockKind::Rhs, Ghost(known));
                self.expr_into(cx, dst, rhs);
                let rhs_exit = self.current();
                proof {
                    still_rests(decided, self@, known);
                    both_hold(built, self@, short, rhs_exit, known);
                    common_either_way(self@, short, rhs_exit);
                }
                self.join(entry, cond, short, rhs_block, rhs_exit, short);
            },
        }
    }

    /// The arm the short circuit takes, holding nothing but the answer the left
    /// operand already gave.
    pub fn logic_short(&mut self, dst: VReg, val: i64, Ghost(known): Ghost<Set<VReg>>) -> (id:
        BlockId)
        requires
            sound(old(self)@),
            writable(old(self)@, dst),
            old(self)@.settled ==> rests_on(
                old(self)@.scopes,
                old(self)@.loops,
                old(self)@.out_pointer,
                old(self)@.unset,
                known,
            ),
            short_opened(old(self)@, dst, val, known) is Some,
        ensures
            Some((final(self)@, id)) == short_opened(old(self)@, dst, val, known),
            stands(old(self)@, final(self)@),
            final(self)@.scopes == old(self)@.scopes,
            id.0 == old(self)@.blocks.len(),
            id.0 < final(self)@.blocks.len(),
            final(self)@.current == id,
            final(self)@.blocks[id.0 as int].given == known,
            final(self)@.settled ==> known.subset_of(held_here(final(self)@)),
            held_here(final(self)@).contains(dst),
    {
        let id = self.new_block(BlockKind::Short, Ghost(known));
        let ghost opened_at = self@;
        self.emit(Instr::Const { dst, val });
        assert(self@.blocks[id.0 as int].given == opened_at.blocks[id.0 as int].given);
        id
    }

    /// Finish a diamond: a branch out of `entry` to two blocks, and two exits
    /// that meet again.
    pub fn join(
        &mut self,
        entry: BlockId,
        cond: Value,
        then_blk: BlockId,
        else_blk: BlockId,
        one_exit: BlockId,
        other_exit: BlockId,
    )
        requires
            sound(old(self)@),
            entry.0 < old(self)@.blocks.len(),
            has_at(old(self)@, entry, cond),
            old(self)@.settled ==> {
                &&& old(self)@.blocks[then_blk.0 as int].given.subset_of(
                    held_at(old(self)@, entry),
                )
                &&& old(self)@.blocks[else_blk.0 as int].given.subset_of(
                    held_at(old(self)@, entry),
                )
                &&& rests_on(
                    old(self)@.scopes,
                    old(self)@.loops,
                    old(self)@.out_pointer,
                    old(self)@.unset,
                    held_at(old(self)@, one_exit).intersect(held_at(old(self)@, other_exit)),
                )
            },
            then_blk.0 < old(self)@.blocks.len(),
            else_blk.0 < old(self)@.blocks.len(),
            one_exit.0 < old(self)@.blocks.len(),
            other_exit.0 < old(self)@.blocks.len(),
            diamond(
                old(self)@,
                entry,
                cond,
                then_blk,
                else_blk,
                one_exit,
                other_exit,
            ) is Some,
        ensures
            Some(final(self)@) == diamond(
                old(self)@,
                entry,
                cond,
                then_blk,
                else_blk,
                one_exit,
                other_exit,
            ),
            stands(old(self)@, final(self)@),
            final(self)@.scopes == old(self)@.scopes,
            held_here(final(self)@) == held_at(old(self)@, one_exit).intersect(
                held_at(old(self)@, other_exit),
            ),
    {
        let ghost common = held_at(self@, one_exit).intersect(held_at(self@, other_exit));
        let join = self.new_block(BlockKind::Join, Ghost(common));
        self.finish(entry, Terminator::branch(cond, then_blk, else_blk));
        self.finish(one_exit, Terminator::jump(join));
        self.finish(other_exit, Terminator::jump(join));
        self.switch_to(join);
    }

    /// The comparison that computes `!operand`.
    ///
    /// There is no `not` instruction: `!x` *is* `x == 0`. When the operand is
    /// itself a comparison the negation inverts it in place, so `!(a < b)` costs
    /// the single `cmp` that `a >= b` does. That is the opposite of whole numbers;
    /// of floats an order is not, since neither way round holds of a NaN, and a
    /// string is not compared by one comparison at all.
    pub fn negated(&mut self, cx: &Context<'_>, e: &Expr) -> (parts: (Num, CmpOp, Value, Value))
        requires
            sound(old(self)@),
            old(self)@.limits == limits(cx@),
            negated_of(cx@, old(self)@, *e) is Some,
        ensures
            Some((final(self)@, parts.0, parts.1, parts.2, parts.3)) == negated_of(
                cx@,
                old(self)@,
                *e,
            ),
            follows(old(self)@, final(self)@),
            has(final(self)@, parts.2),
            has(final(self)@, parts.3),
            turned_round(cx@, *e) ==> forall|a: i64, b: i64| #[trigger]
                holds(parts.0, parts.1, a, b) == !holds(
                    compared(cx@, *e).0,
                    compared(cx@, *e).1,
                    a,
                    b,
                ),
            !turned_round(cx@, *e) ==> parts.3 == Value::Const(0) && forall|a: i64| #[trigger]
                holds(parts.0, parts.1, a, 0) == (a == 0),
        decreases *e, 70int, 0int,
    {
        if let ExprKind::Cmp { op, lhs, .. } = &e.kind {
            proof {
                assert(expr_of(cx@, self@, *e) == expr_body(cx@, self@, *e));
            }
            if inverts(cx, *op, lhs.id, e) {
                let num = num_of(cx, lhs.id);
                let (a, b) = self.operands(cx, e);
                proof {
                    assert forall|a: i64, b: i64| #[trigger]
                        holds(num, op.spec_negate(), a, b) == !holds(num, *op, a, b) by {
                        negated_comparison(num, *op, a, b);
                    }
                }
                return (num, op.negate(), a, b);
            }
        }
        let a = self.expr(cx, e);
        (Num::Int, CmpOp::Eq, a, Value::Const(0))
    }

    /// An expression built into a register of its own.
    fn in_a_temp(&mut self, cx: &Context<'_>, e: &Expr) -> (value: Value)
        requires
            sound(old(self)@),
            old(self)@.limits == limits(cx@),
            temp_of(cx@, old(self)@, *e) is Some,
        ensures
            Some((final(self)@, value)) == temp_of(cx@, old(self)@, *e),
            follows(old(self)@, final(self)@),
            has(final(self)@, value),
        decreases *e, 40int, 0int,
    {
        let dst = self.fresh_temp();
        self.expr_into(cx, dst, e);
        Value::Reg(dst)
    }

    /// A variant as an operand. One of an enum that carries nothing anywhere *is*
    /// its tag; one that carries something has to be built.
    fn variant_value(&mut self, cx: &Context<'_>, e: &Expr) -> (value: Value)
        requires
            sound(old(self)@),
            old(self)@.limits == limits(cx@),
            variant_value_of(cx@, old(self)@, *e) is Some,
        ensures
            Some((final(self)@, value)) == variant_value_of(cx@, old(self)@, *e),
            follows(old(self)@, final(self)@),
            has(final(self)@, value),
        decreases *e, 50int, 0int,
    {
        if self.is_boxed_enum(cx, cx.types.of(e.id)) {
            self.in_a_temp(cx, e)
        } else {
            Value::Const(self.variant_tag(cx, e))
        }
    }

    /// An element as an operand.
    fn index_value(&mut self, cx: &Context<'_>, e: &Expr) -> (value: Value)
        requires
            sound(old(self)@),
            old(self)@.limits == limits(cx@),
            index_value_of(cx@, old(self)@, *e) is Some,
        ensures
            Some((final(self)@, value)) == index_value_of(cx@, old(self)@, *e),
            follows(old(self)@, final(self)@),
            has(final(self)@, value),
        decreases *e, 20int, 0int,
    {
        match &e.kind {
            ExprKind::Index { array, .. } => {
                let of = cx.types.of(array.id);
                let ty = cx.types.of(e.id);
                let addr = self.element_address(cx, e);
                let text: bool = match of {
                    Ty::Str => true,
                    _ => false,
                };
                if !text && !ty.fits_in_a_register() {
                    return Value::Reg(addr);
                }
                let dst = self.fresh_temp();
                self.read_element(dst, of, ty, addr);
                Value::Reg(dst)
            },
            _ => {
                assert(false);
                Value::Const(0)
            },
        }
    }

    /// A negation as an operand. One that is already a literal folds, and so does
    /// the whole tree above it.
    fn neg_value(&mut self, cx: &Context<'_>, id: NodeId, operand: &Expr) -> (value: Value)
        requires
            sound(old(self)@),
            old(self)@.limits == limits(cx@),
            neg_value_of(cx@, old(self)@, id, *operand) is Some,
        ensures
            Some((final(self)@, value)) == neg_value_of(cx@, old(self)@, id, *operand),
            follows(old(self)@, final(self)@),
            has(final(self)@, value),
        decreases *operand, 70int, 0int,
    {
        let num = num_of(cx, id);
        match self.expr(cx, operand) {
            Value::Const(c) => Value::Const(negate_const(num, c)),
            val => {
                let dst = self.fresh_temp();
                self.emit(
                    Instr::Bin {
                        num,
                        op: BinOp::Sub,
                        dst,
                        lhs: zero_to_subtract_from(num),
                        rhs: val,
                    },
                );
                Value::Reg(dst)
            },
        }
    }

    /// An operation's answer as an operand.
    fn bin_value(&mut self, cx: &Context<'_>, op: BinOp, e: &Expr) -> (value: Value)
        requires
            sound(old(self)@),
            old(self)@.limits == limits(cx@),
            bin_value_of(cx@, old(self)@, op, *e) is Some,
        ensures
            Some((final(self)@, value)) == bin_value_of(cx@, old(self)@, op, *e),
            follows(old(self)@, final(self)@),
            has(final(self)@, value),
        decreases *e, 50int, 0int,
    {
        if is_string_op(cx, e) {
            return self.in_a_temp(cx, e);
        }
        let num = num_of(cx, e.id);
        let (a, b) = self.operands(cx, e);
        match fold_bin(num, op, a, b) {
            Some(val) => Value::Const(val),
            None => {
                let dst = self.fresh_temp();
                self.emit(Instr::Bin { num, op, dst, lhs: a, rhs: b });
                Value::Reg(dst)
            },
        }
    }

    /// A comparison's answer as an operand.
    fn comparison_value(&mut self, cx: &Context<'_>, op: CmpOp, operand: NodeId, e: &Expr) -> (value: Value)
        requires
            sound(old(self)@),
            old(self)@.limits == limits(cx@),
            comparison_value_of(cx@, old(self)@, op, operand, *e) is Some,
        ensures
            Some((final(self)@, value)) == comparison_value_of(cx@, old(self)@, op, operand, *e),
            follows(old(self)@, final(self)@),
            has(final(self)@, value),
        decreases *e, 50int, 0int,
    {
        if is_string_op(cx, e) {
            return self.in_a_temp(cx, e);
        }
        let num = num_of(cx, operand);
        let (a, b) = self.operands(cx, e);
        self.comparison(num, op, a, b)
    }

    /// `!operand` as an operand: it is a comparison, so it takes the same path as
    /// one.
    fn not_value(&mut self, cx: &Context<'_>, operand: &Expr) -> (value: Value)
        requires
            sound(old(self)@),
            old(self)@.limits == limits(cx@),
            not_value_of(cx@, old(self)@, *operand) is Some,
        ensures
            Some((final(self)@, value)) == not_value_of(cx@, old(self)@, *operand),
            follows(old(self)@, final(self)@),
            has(final(self)@, value),
        decreases *operand, 80int, 0int,
    {
        let (num, op, a, b) = self.negated(cx, operand);
        self.comparison(num, op, a, b)
    }

    /// `lhs && rhs` or `lhs || rhs` as an operand. A left operand that settles the
    /// answer leaves nothing to branch on, and so nothing to hold in a register
    /// either.
    fn logic_value(&mut self, cx: &Context<'_>, e: &Expr) -> (value: Value)
        requires
            sound(old(self)@),
            old(self)@.limits == limits(cx@),
            logic_value_of(cx@, old(self)@, *e) is Some,
        ensures
            Some((final(self)@, value)) == logic_value_of(cx@, old(self)@, *e),
            follows(old(self)@, final(self)@),
            has(final(self)@, value),
        decreases *e, 10int, 0int,
    {
        match &e.kind {
            ExprKind::Logic { op, lhs, rhs } => {
                let cond = self.expr(cx, lhs);
                if let Value::Const(_) = cond {
                    return match fold_logic(*op, cond) {
                        Some(val) => Value::Const(val),
                        None => self.expr(cx, rhs),
                    };
                }
                let dst = self.fresh_temp();
                self.logic_branch(cx, dst, *op, cond, rhs);
                Value::Reg(dst)
            },
            _ => {
                assert(false);
                Value::Const(0)
            },
        }
    }

    /// Lower an expression used as an operand, producing a value to read.
    ///
    /// Literals stay immediates so the backend can fold them into the
    /// instruction that consumes them.
    pub fn expr(&mut self, cx: &Context<'_>, e: &Expr) -> (value: Value)
        requires
            sound(old(self)@),
            old(self)@.limits == limits(cx@),
            expr_of(cx@, old(self)@, *e) is Some,
        ensures
            Some((final(self)@, value)) == expr_of(cx@, old(self)@, *e),
            follows(old(self)@, final(self)@),
            has(final(self)@, value),
        decreases *e, 65int, 0int,
    {
        assert(expr_of(cx@, self@, *e) == expr_body(cx@, self@, *e));
        match &e.kind {
            ExprKind::Int(v) => Value::Const(*v),
            ExprKind::Float(b) => Value::Const(word_of(*b)),
            ExprKind::Bool(v) => Value::Const(flag_of(*v)),
            ExprKind::Char(c) => Value::Const(*c as i64),
            ExprKind::Var(name) => {
                let reg = self.lookup(name);
                self.note_settled(Ghost(!self@.unset.contains(reg)));
                Value::Reg(reg)
            },
            ExprKind::Variant { .. } => self.variant_value(cx, e),
            ExprKind::Len { .. } => self.length_value(cx, e),
            ExprKind::Index { .. } => self.index_value(cx, e),
            ExprKind::Neg(operand) => self.neg_value(cx, e.id, operand),
            ExprKind::Bin { op, .. } => self.bin_value(cx, *op, e),
            ExprKind::Cmp { op, lhs, .. } => self.comparison_value(cx, *op, lhs.id, e),
            ExprKind::Not(operand) => self.not_value(cx, operand),
            ExprKind::Logic { .. } => self.logic_value(cx, e),
            _ => self.in_a_temp(cx, e),
        }
    }
}

} // verus!
