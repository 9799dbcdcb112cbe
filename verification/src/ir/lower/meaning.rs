//! What lowering makes of each piece of a program.
//!
//! Every function here takes a function being built and answers the function
//! with one piece of the tree added to it. `None` stands for a tree that no
//! checked program has (a name that is not in scope, an operation on a type it
//! is not for) and for one that needs more registers, blocks or literals than
//! there are numbers for.

use vstd::prelude::*;

use crate::ast::{
    field_named, method_named, most_carried, names_a_character, ArmBody, BinOp, Block as AstBlock,
    Builtin, ClassId, CmpOp, EnumId, Expr, ExprKind, FieldInit, LogicOp, MatchArm, NodeId, Pattern,
    Place, Prim, PrintPart, Stmt, Ty,
};
use crate::float;
use crate::ir::block::{BlockKind, TermView};
use crate::ir::fold::{bits, folded_bin, folded_comparison, folded_logic, negation, word, zero_of};
use crate::ir::func::leading;
use crate::ir::instr::{InstrView, Runtime};
use crate::ir::lower::builder::{line_ended, looped, owed, unlooped};
use crate::ir::lower::state::{
    allocated, announced, bound, called, emitted, ended, entered, first_at, held_at, held_by_all,
    held_here, interned, interned_text, left, measure, met, named, opened, switched, temp,
    ContextView, LoopView, State,
};
use crate::ir::value::{BlockId, FuncId, Num, VReg, Value, CHAR_BYTES};

verus! {

/// Whether the room being written into is brand new, or already has a name.
///
/// It decides whether an aggregate **literal** may be built where it is going,
/// rather than somewhere else and then copied over.
///
/// * [`Room::Fresh`]: nothing can name the room yet, so the expression filling
///   it cannot read it, and filling it piece by piece is not observable.
/// * [`Room::Named`]: the target of an assignment. `a = [a[1], a[0]]` is a swap,
///   and filling `a` element by element would lose half of it.
#[derive(Clone, Copy, Debug, PartialEq, Eq, Structural)]
pub enum Room {
    Fresh,
    Named,
}

/// The 0 or 1 a `bool` is.
pub open spec fn flag(b: bool) -> i64 {
    if b {
        1
    } else {
        0
    }
}

/// The type of a node, where it has one.
pub open spec fn type_of(cx: ContextView, id: NodeId) -> Option<Ty> {
    if cx.types.has(id) {
        Some(cx.types.ty(id))
    } else {
        None
    }
}

/// Whether lowering an expression *reserves* the room its value lives in,
/// rather than naming room something else owns.
pub open spec fn makes_its_own(e: Expr) -> bool {
    match e.kind {
        ExprKind::New { .. } => true,
        ExprKind::Array { .. } => true,
        ExprKind::Call { .. } => true,
        ExprKind::MethodCall { .. } => true,
        _ => false,
    }
}

// -- which names an expression reads ----------------------------------------

/// Whether an expression reads a variable anywhere inside it. An arm that is a
/// block is taken to, without looking.
pub open spec fn reads(e: Expr, name: Seq<char>) -> bool
    decreases e, 1int, 0int,
{
    match e.kind {
        ExprKind::Var(other) => other@ == name,
        ExprKind::Neg(inner) => reads(*inner, name),
        ExprKind::Not(inner) => reads(*inner, name),
        ExprKind::Bin { op, lhs, rhs } => reads(*lhs, name) || reads(*rhs, name),
        ExprKind::Cmp { op, lhs, rhs } => reads(*lhs, name) || reads(*rhs, name),
        ExprKind::Logic { op, lhs, rhs } => reads(*lhs, name) || reads(*rhs, name),
        ExprKind::Index { array, index } => reads(*array, name) || reads(*index, name),
        ExprKind::Len { array } => reads(*array, name),
        ExprKind::Convert { to, value } => reads(*value, name),
        ExprKind::Field { object, name: field } => reads(*object, name),
        ExprKind::Array { elements } => some_reads(elements, 0, name),
        ExprKind::New { fields } => some_field_reads(fields, 0, name),
        ExprKind::Variant { variant, args } => some_reads(args, 0, name),
        ExprKind::Call { name: callee, args } => some_reads(args, 0, name),
        ExprKind::MethodCall { receiver, name: method, args } => reads(*receiver, name)
            || some_reads(args, 0, name),
        ExprKind::Match { scrutinee, arms } => reads(*scrutinee, name) || some_arm_reads(
            arms,
            0,
            name,
        ),
        _ => false,
    }
}

/// Whether one of the expressions from `i` on reads a variable.
pub open spec fn some_reads(list: Vec<Expr>, i: int, name: Seq<char>) -> bool
    decreases list, 0int, list@.len() - i,
{
    if 0 <= i < list@.len() {
        reads(list@[i], name) || some_reads(list, i + 1, name)
    } else {
        false
    }
}

/// Whether one of the field values from `i` on reads a variable.
pub open spec fn some_field_reads(list: Vec<FieldInit>, i: int, name: Seq<char>) -> bool
    decreases list, 0int, list@.len() - i,
{
    if 0 <= i < list@.len() {
        reads(list@[i].value, name) || some_field_reads(list, i + 1, name)
    } else {
        false
    }
}

/// Whether one of the arms from `i` on reads a variable, or is a block.
pub open spec fn some_arm_reads(list: Vec<MatchArm>, i: int, name: Seq<char>) -> bool
    decreases list, 0int, list@.len() - i,
{
    if 0 <= i < list@.len() {
        (match list@[i].body {
            ArmBody::Value(value) => reads(value, name),
            ArmBody::Block(_) => true,
        }) || some_arm_reads(list, i + 1, name)
    } else {
        false
    }
}

// -- strings that grow where they stand -------------------------------------

/// Whether an expression is a variable with strings added on its right, none of
/// which reads the variable.
pub open spec fn grows(cx: ContextView, e: Expr, name: Seq<char>) -> bool
    decreases e,
{
    match e.kind {
        ExprKind::Bin { op, lhs, rhs } => op is Add && type_of(cx, lhs.id) == Some(Ty::Str) && grows(
            cx,
            *lhs,
            name,
        ) && !reads(*rhs, name),
        ExprKind::Var(left) => left@ == name,
        _ => false,
    }
}

/// Whether the operands [`grows`] asks the type of have one.
pub open spec fn spine_typed(cx: ContextView, e: Expr) -> bool
    decreases e,
{
    match e.kind {
        ExprKind::Bin { op, lhs, rhs } => op is Add ==> cx.types.has(lhs.id) && (cx.types.ty(lhs.id)
            == Ty::Str ==> spine_typed(cx, *lhs)),
        _ => true,
    }
}

/// Whether an assignment to a variable adds to the string it holds, where it
/// stands.
pub open spec fn is_append(cx: ContextView, name: Seq<char>, e: Expr) -> bool {
    cx.owned.contains(name) && e.kind is Bin && grows(cx, e, name)
}

/// Whether an expression allocates the string it produces *here*.
pub open spec fn makes_a_temporary(cx: ContextView, e: Expr) -> bool {
    match e.kind {
        ExprKind::Bin { op, lhs, rhs } => op is Add && cx.types.ty(lhs.id) == Ty::Str,
        ExprKind::Convert { to, value } => to is Str,
        ExprKind::Call { name, args } => name@ == "read_line"@ && args@.len() == 0,
        _ => false,
    }
}

/// Whether the operand [`makes_a_temporary`] asks the type of has one.
pub open spec fn temporary_typed(cx: ContextView, e: Expr) -> bool {
    match e.kind {
        ExprKind::Bin { op, lhs, rhs } => op is Add ==> cx.types.has(lhs.id),
        _ => true,
    }
}

/// Each string added on the right of a variable appended to it in turn.
pub open spec fn append_of(cx: ContextView, st: State, dst: VReg, e: Expr) -> Option<State>
    decreases e, 70int, 0int,
{
    match e.kind {
        ExprKind::Bin { op, lhs, rhs } => match append_of(cx, st, dst, *lhs) {
            Some(st) => if temporary_typed(cx, *rhs) {
                match expr_of(cx, st, *rhs) {
                    Some((st, piece)) => Some(
                        emitted(
                            st,
                            InstrView::RtCall {
                                dst: Some(dst),
                                callee: Runtime::Append,
                                args: seq![
                                    Value::Reg(dst),
                                    piece,
                                    Value::Const(flag(makes_a_temporary(cx, *rhs))),
                                ],
                            },
                        ),
                    ),
                    None => None,
                }
            } else {
                None
            },
            None => None,
        },
        _ => Some(st),
    }
}

// -- memory -----------------------------------------------------------------

/// The count in front of a string's characters or a list's elements, read.
pub open spec fn counted(st: State, of: Value) -> Option<(State, Value)> {
    match measure(st) {
        Some((st, dst)) => Some((emitted(st, InstrView::Count { dst, of }), Value::Reg(dst))),
        None => None,
    }
}

/// What a list type holds, and how many bytes one takes.
pub open spec fn list_element(cx: ContextView, list: Ty) -> Option<(Ty, u32)> {
    match list {
        Ty::List(id) => if cx.types.table.has_list(id) && cx.types.table.knows(
            cx.types.table.lists@[id.0 as int],
        ) {
            let elem = cx.types.table.lists@[id.0 as int];
            Some((elem, cx.types.table.bytes_of(elem)))
        } else {
            None
        },
        _ => None,
    }
}

/// How long the thing in `base` is and how wide each of its elements is.
pub open spec fn shaped(cx: ContextView, st: State, ty: Ty, base: Value) -> Option<
    (State, Value, u32),
> {
    match ty {
        Ty::Array(id) => if cx.types.table.has_array(id) && cx.types.table.knows(
            cx.types.table.arrays@[id.0 as int].elem,
        ) {
            let info = cx.types.table.arrays@[id.0 as int];
            Some((st, Value::Const(info.len as i64), cx.types.table.bytes_of(info.elem)))
        } else {
            None
        },
        Ty::Str => match counted(st, base) {
            Some((st, len)) => Some((st, len, CHAR_BYTES)),
            None => None,
        },
        Ty::List(_) => match list_element(cx, ty) {
            Some((_, bytes)) => match counted(st, base) {
                Some((st, len)) => Some((st, len, bytes)),
                None => None,
            },
            None => None,
        },
        _ => None,
    }
}

/// A fresh copy given its own elements, where it may hold a list.
pub open spec fn fixed_up(cx: ContextView, st: State, at: Value, ty: Ty) -> Option<State> {
    if !cx.types.table.may_hold_a_list(ty) {
        Some(st)
    } else {
        match ty {
            Ty::Array(id) => {
                let info = cx.types.table.arrays@[id.0 as int];
                if cx.types.table.knows(info.elem) {
                    Some(
                        emitted(
                            st,
                            InstrView::Fixup {
                                at,
                                count: Value::Const(info.len as i64),
                                stride: cx.types.table.bytes_of(info.elem),
                            },
                        ),
                    )
                } else {
                    None
                }
            },
            _ => Some(emitted(st, InstrView::Fixup { at, count: Value::Const(1), stride: 0 })),
        }
    }
}

/// The address of a field.
pub open spec fn field_at(
    cx: ContextView,
    st: State,
    object: Value,
    class: ClassId,
    name: Seq<char>,
) -> Option<(State, VReg)> {
    if cx.types.table.has_class(class) {
        match field_named(cx.types.table.classes@[class.0 as int].fields@, name) {
            Some(field) => match temp(st) {
                Some((st, dst)) => Some(
                    (
                        emitted(st, InstrView::Field { dst, base: object, offset: field.offset }),
                        dst,
                    ),
                ),
                None => None,
            },
            None => None,
        }
    } else {
        None
    }
}

/// The address of `array[index]`.
pub open spec fn index_address_of(cx: ContextView, st: State, e: Expr) -> Option<(State, VReg)>
    decreases e, 10int, 0int,
{
    match e.kind {
        ExprKind::Index { array, index } => match type_of(cx, array.id) {
            Some(ty) => match expr_of(cx, st, *array) {
                Some((st, base)) => match shaped(cx, st, ty, base) {
                    Some((st, len, scale)) => match expr_of(cx, st, *index) {
                        Some((st, index)) => match temp(st) {
                            Some((st, dst)) => Some(
                                (
                                    emitted(st, InstrView::Elem { dst, base, index, len, scale }),
                                    dst,
                                ),
                            ),
                            None => None,
                        },
                        None => None,
                    },
                    None => None,
                },
                None => None,
            },
            None => None,
        },
        _ => None,
    }
}

/// A value about to be **kept**: a list somebody else owns is copied.
pub open spec fn keep_into_of(cx: ContextView, st: State, dst: VReg, e: Expr) -> Option<State>
    decreases e, 75int, 0int,
{
    keep_into_body(cx, st, dst, e)
}

/// What [`keep_into_of`] is, case by case.
pub open spec fn keep_into_body(cx: ContextView, st: State, dst: VReg, e: Expr) -> Option<State>
    decreases e, 70int, 0int,
{
    match expr_into_of(cx, st, dst, e) {
        Some(st) => match type_of(cx, e.id) {
            Some(ty) => if ty is List && !makes_its_own(e) {
                match list_element(cx, ty) {
                    Some((elem, bytes)) => Some(
                        emitted(
                            st,
                            InstrView::RtCall {
                                dst: Some(dst),
                                callee: Runtime::ListClone,
                                args: seq![
                                    Value::Reg(dst),
                                    Value::Const(bytes as i64),
                                    Value::Const(flag(cx.types.table.may_hold_a_list(elem))),
                                ],
                            },
                        ),
                    ),
                    None => None,
                }
            } else {
                Some(st)
            },
            None => None,
        },
        None => None,
    }
}

/// A value put where an address points, whichever kind of value it is.
pub open spec fn write_through_of(
    cx: ContextView,
    st: State,
    addr: Value,
    e: Expr,
    room: Room,
) -> Option<State>
    decreases e, 85int, 0int,
{
    write_through_body(cx, st, addr, e, room)
}

/// What [`write_through_of`] is, case by case.
pub open spec fn write_through_body(
    cx: ContextView,
    st: State,
    addr: Value,
    e: Expr,
    room: Room,
) -> Option<State>
    decreases e, 80int, 0int,
{
    match type_of(cx, e.id) {
        Some(ty) => if ty is List {
            match temp(st) {
                Some((st, held)) => match keep_into_of(cx, st, held, e) {
                    Some(st) => Some(
                        emitted(st, InstrView::Store { addr, value: Value::Reg(held) }),
                    ),
                    None => None,
                },
                None => None,
            }
        } else if ty.in_a_register() {
            match expr_of(cx, st, e) {
                Some((st, value)) => Some(emitted(st, InstrView::Store { addr, value })),
                None => None,
            }
        } else if room is Fresh && e.kind is New {
            match (e.kind, ty) {
                (ExprKind::New { fields }, Ty::Class(id)) => fill_object_of(
                    cx,
                    st,
                    addr,
                    id,
                    fields,
                ),
                _ => None,
            }
        } else if room is Fresh && e.kind is Array {
            match e.kind {
                ExprKind::Array { elements } => fill_array_of(cx, st, addr, ty, elements),
                _ => None,
            }
        } else {
            match expr_of(cx, st, e) {
                Some((st, src)) => fixed_up(
                    cx,
                    emitted(
                        st,
                        InstrView::CopyBytes {
                            dst: addr,
                            src,
                            bytes: cx.types.table.bytes_of(ty),
                        },
                    ),
                    addr,
                    ty,
                ),
                None => None,
            }
        },
        None => None,
    }
}

/// A class's vtable pointer and every field put where an address points.
pub open spec fn fill_object_of(
    cx: ContextView,
    st: State,
    at: Value,
    id: ClassId,
    fields: Vec<FieldInit>,
) -> Option<State>
    decreases fields, 20int, 0int,
{
    if cx.types.table.has_class(id) {
        match temp(st) {
            Some((st, vptr)) => fields_from(
                cx,
                emitted(
                    emitted(st, InstrView::VTable { dst: vptr, class: id }),
                    InstrView::Store { addr: at, value: Value::Reg(vptr) },
                ),
                at,
                id,
                fields,
                0,
            ),
            None => None,
        }
    } else {
        None
    }
}

/// The fields from `i` on put into an object.
pub open spec fn fields_from(
    cx: ContextView,
    st: State,
    at: Value,
    id: ClassId,
    fields: Vec<FieldInit>,
    i: int,
) -> Option<State>
    decreases fields, 10int, fields@.len() - i,
{
    if 0 <= i < fields@.len() {
        match field_at(cx, st, at, id, fields@[i].name@) {
            Some((st, addr)) => match write_through_of(
                cx,
                st,
                Value::Reg(addr),
                fields@[i].value,
                Room::Fresh,
            ) {
                Some(st) => fields_from(cx, st, at, id, fields, i + 1),
                None => None,
            },
            None => None,
        }
    } else {
        Some(st)
    }
}

/// Every element of an array literal put where an address points.
pub open spec fn fill_array_of(
    cx: ContextView,
    st: State,
    at: Value,
    ty: Ty,
    elements: Vec<Expr>,
) -> Option<State>
    decreases elements, 20int, 0int,
{
    match shaped(cx, st, ty, at) {
        Some((st, len, scale)) => elements_from(cx, st, at, len, scale, elements, 0),
        None => None,
    }
}

/// The elements from `i` on put into an array or a list.
pub open spec fn elements_from(
    cx: ContextView,
    st: State,
    at: Value,
    len: Value,
    scale: u32,
    elements: Vec<Expr>,
    i: int,
) -> Option<State>
    decreases elements, 10int, elements@.len() - i,
{
    if 0 <= i < elements@.len() {
        match temp(st) {
            Some((st, addr)) => match write_through_of(
                cx,
                emitted(
                    st,
                    InstrView::Elem {
                        dst: addr,
                        base: at,
                        index: Value::Const(i as i64),
                        len,
                        scale,
                    },
                ),
                Value::Reg(addr),
                elements@[i],
                Room::Fresh,
            ) {
                Some(st) => elements_from(cx, st, at, len, scale, elements, i + 1),
                None => None,
            },
            None => None,
        }
    } else {
        Some(st)
    }
}

// -- places -----------------------------------------------------------------

/// The type a place has, read off the chain of names that leads to it.
pub open spec fn place_type_of(cx: ContextView, st: State, place: Place) -> Option<Ty>
    decreases place,
{
    match place {
        Place::Var { name } => match bound(st, name@) {
            Some((_, ty)) => Some(ty),
            None => None,
        },
        Place::Element { base, index } => match place_type_of(cx, st, *base) {
            Some(Ty::Array(id)) => if cx.types.table.has_array(id) {
                Some(cx.types.table.arrays@[id.0 as int].elem)
            } else {
                None
            },
            Some(Ty::List(id)) => if cx.types.table.has_list(id) {
                Some(cx.types.table.lists@[id.0 as int])
            } else {
                None
            },
            _ => None,
        },
        Place::Field { base, name } => match place_type_of(cx, st, *base) {
            Some(Ty::Class(id)) => if cx.types.table.has_class(id) {
                match field_named(cx.types.table.classes@[id.0 as int].fields@, name@) {
                    Some(field) => Some(field.ty),
                    None => None,
                }
            } else {
                None
            },
            _ => None,
        },
    }
}

/// The address a place names, for a write.
pub open spec fn place_address_of(cx: ContextView, st: State, place: Place) -> Option<(State, VReg)>
    decreases place, 10int, 0int,
{
    match place {
        Place::Var { .. } => None,
        Place::Element { base, index } => match place_type_of(cx, st, *base) {
            Some(ty) => match place_value_of(cx, st, *base) {
                Some((st, object)) => match shaped(cx, st, ty, object) {
                    Some((st, len, scale)) => match expr_of(cx, st, index) {
                        Some((st, index)) => match temp(st) {
                            Some((st, dst)) => Some(
                                (
                                    emitted(
                                        st,
                                        InstrView::Elem { dst, base: object, index, len, scale },
                                    ),
                                    dst,
                                ),
                            ),
                            None => None,
                        },
                        None => None,
                    },
                    None => None,
                },
                None => None,
            },
            None => None,
        },
        Place::Field { base, name } => match place_type_of(cx, st, *base) {
            Some(Ty::Class(id)) => match place_value_of(cx, st, *base) {
                Some((st, object)) => field_at(cx, st, object, id, name@),
                None => None,
            },
            _ => None,
        },
    }
}

/// What a place *holds*, which for anything but a variable means reading it.
pub open spec fn place_value_of(cx: ContextView, st: State, place: Place) -> Option<(State, Value)>
    decreases place, 20int, 0int,
{
    match place {
        Place::Var { name } => match bound(st, name@) {
            Some((reg, _)) => Some((met(st, reg), Value::Reg(reg))),
            None => None,
        },
        _ => match place_type_of(cx, st, place) {
            Some(ty) => match place_address_of(cx, st, place) {
                Some((st, addr)) => if !ty.in_a_register() {
                    Some((st, Value::Reg(addr)))
                } else {
                    match temp(st) {
                        Some((st, dst)) => Some(
                            (
                                emitted(st, InstrView::Load { dst, addr: Value::Reg(addr) }),
                                Value::Reg(dst),
                            ),
                        ),
                        None => None,
                    }
                },
                None => None,
            },
            None => None,
        },
    }
}

// -- calls ------------------------------------------------------------------

/// The arguments from `i` on, evaluated left to right.
pub open spec fn args_from(
    cx: ContextView,
    st: State,
    args: Vec<Expr>,
    i: int,
    values: Seq<Value>,
) -> Option<(State, Seq<Value>)>
    decreases args, 10int, args@.len() - i,
{
    if 0 <= i < args@.len() {
        match expr_of(cx, st, args@[i]) {
            Some((st, value)) => args_from(cx, st, args, i + 1, values.push(value)),
            None => None,
        }
    } else {
        Some((st, values))
    }
}

/// Which function a name means: the first declared with it.
pub open spec fn callee_of(cx: ContextView, name: Seq<char>) -> Option<FuncId> {
    match first_at(cx.names, name, 0) {
        Some(at) => Some(FuncId(at as u32)),
        None => None,
    }
}

/// Whether a function is declared to take so many arguments.
pub open spec fn takes(cx: ContextView, function: int, count: nat) -> bool {
    &&& 0 <= function < cx.types.returns@.len()
    &&& function < cx.types.params@.len()
    &&& cx.types.params@[function]@.len() == count
}

/// Where a call's answer goes and what the call hands on. An answer that does not
/// fit in a register goes in room the caller reserves, whose address leads the
/// arguments: in the register the answer is wanted in, or in one of its own where
/// the answer is thrown away.
pub open spec fn room_handed(
    cx: ContextView,
    st: State,
    dst: Option<VReg>,
    ret: Option<Ty>,
    args: Seq<Value>,
) -> Option<(State, Option<VReg>, Seq<Value>)> {
    if leading(ret) == 0 {
        Some((st, dst, args))
    } else if !cx.types.table.knows(ret->0) {
        None
    } else {
        match (match dst {
            Some(reg) => Some((st, reg)),
            None => temp(st),
        }) {
            Some((st, out)) => Some(
                (
                    allocated(st, out, cx.types.table.bytes_of(ret->0)),
                    None,
                    seq![Value::Reg(out)] + args,
                ),
            ),
            None => None,
        }
    }
}

/// The callee and evaluated arguments of a call.
pub open spec fn call_parts_of(cx: ContextView, st: State, e: Expr) -> Option<
    (State, FuncId, Seq<Value>),
>
    decreases e, 10int, 0int,
{
    match e.kind {
        ExprKind::Call { name, args } => match args_from(cx, st, args, 0, seq![]) {
            Some((st, values)) => match callee_of(cx, name@) {
                Some(callee) => if takes(cx, callee.0 as int, values.len()) {
                    Some((st, callee, values))
                } else {
                    None
                },
                None => None,
            },
            None => None,
        },
        _ => None,
    }
}

/// The built-in function a call calls, if it calls one.
pub open spec fn builtin_of(e: Expr) -> Option<Builtin> {
    match e.kind {
        ExprKind::Call { name, args } => Builtin::named(name@),
        _ => None,
    }
}

/// A call of a built-in function.
pub open spec fn builtin_call_of(
    cx: ContextView,
    st: State,
    dst: Option<VReg>,
    builtin: Builtin,
    e: Expr,
) -> Option<State>
    decreases e, 10int, 0int,
{
    match e.kind {
        ExprKind::Call { name, args } => match args_from(cx, st, args, 0, seq![]) {
            Some((st, values)) => Some(
                emitted(
                    st,
                    InstrView::RtCall { dst, callee: Runtime::spec_of(builtin), args: values },
                ),
            ),
            None => None,
        },
        _ => None,
    }
}

/// `receiver.method(args)`, directly where nothing derives from the receiver's
/// class and through its vtable otherwise.
pub open spec fn method_call_of(
    cx: ContextView,
    st: State,
    dst: Option<VReg>,
    e: Expr,
) -> Option<State>
    decreases e, 10int, 0int,
{
    match e.kind {
        ExprKind::MethodCall { receiver, name, args } => match type_of(cx, receiver.id) {
            Some(Ty::Class(id)) => match method_named(
                cx.types.table.classes@[id.0 as int].methods@,
                name@,
            ) {
                Some(method) => match expr_of(cx, st, *receiver) {
                    Some((st, object)) => match args_from(cx, st, args, 0, seq![object]) {
                        Some((st, values)) => match type_of(cx, e.id) {
                            Some(ty) => if takes(cx, method.function as int, values.len()) {
                                method_called(
                                    cx,
                                    st,
                                    dst,
                                    ty,
                                    id,
                                    method.slot,
                                    method.function,
                                    object,
                                    values,
                                )
                            } else {
                                None
                            },
                            None => None,
                        },
                        None => None,
                    },
                    None => None,
                },
                None => None,
            },
            _ => None,
        },
        _ => None,
    }
}

/// What a call answers: what its node says where the answer is wanted, and what
/// the function was declared to return where it is thrown away. `None` where the
/// two do not say the same of where the answer goes.
pub open spec fn answer_of(
    cx: ContextView,
    dst: Option<VReg>,
    function: int,
    ty: Ty,
) -> Option<Option<Ty>> {
    let declared = cx.types.returns@[function];
    if dst is None {
        Some(declared)
    } else if leading(Some(ty)) == leading(declared) {
        Some(Some(ty))
    } else {
        None
    }
}

/// The call itself, once the receiver and the arguments are evaluated.
pub open spec fn method_called(
    cx: ContextView,
    st: State,
    dst: Option<VReg>,
    ty: Ty,
    class: ClassId,
    slot: u32,
    function: u32,
    object: Value,
    values: Seq<Value>,
) -> Option<State> {
    match answer_of(cx, dst, function as int, ty) {
        Some(ret) => match room_handed(cx, st, dst, ret, values) {
            Some((st, dst, values)) => if cx.types.table.sealed(class) {
                if function < cx.names.len() {
                    Some(
                        emitted(
                            st,
                            InstrView::Call { dst, callee: FuncId(function), args: values },
                        ),
                    )
                } else {
                    None
                }
            } else {
                Some(
                    emitted(
                        st,
                        InstrView::CallVirtual { dst, slot, receiver: object, args: values },
                    ),
                )
            },
            None => None,
        },
        None => None,
    }
}

// -- enums and `match` ------------------------------------------------------

/// Where a payload slot of a boxed enum sits.
pub open spec fn payload_offset(cx: ContextView, index: u32) -> Option<u32> {
    let word = cx.types.table.layout.word;
    let at = cx.types.table.layout.spec_tag() + index * word;
    if index * word <= u32::MAX && at <= u32::MAX {
        Some(at as u32)
    } else {
        None
    }
}

/// Whether a value of a type is a pointer to a tag rather than the tag.
pub open spec fn boxed_enum(cx: ContextView, ty: Ty) -> bool {
    match ty {
        Ty::Enum(id) => cx.types.table.enums@[id.0 as int].boxed(),
        _ => false,
    }
}

/// The tag of a variant expression.
pub open spec fn tag_of_variant(cx: ContextView, e: Expr) -> Option<i64> {
    match (e.kind, type_of(cx, e.id)) {
        (ExprKind::Variant { variant, args }, Some(Ty::Enum(id))) => variant_number(
            cx,
            id,
            variant@,
        ),
        _ => None,
    }
}

/// The number a variant is known by.
pub open spec fn variant_number(cx: ContextView, id: EnumId, variant: Seq<char>) -> Option<i64> {
    match cx.types.table.enums@[id.0 as int].index_of(variant) {
        Some(at) => Some(at as i64),
        None => None,
    }
}

/// A variant built into a register.
pub open spec fn variant_into_of(cx: ContextView, st: State, dst: VReg, e: Expr) -> Option<State>
    decreases e, 10int, 0int,
{
    match (e.kind, type_of(cx, e.id)) {
        (ExprKind::Variant { variant, args }, Some(Ty::Enum(id))) => match variant_number(
            cx,
            id,
            variant@,
        ) {
            Some(tag) => if !boxed_enum(cx, Ty::Enum(id)) {
                Some(emitted(st, InstrView::Const { dst, val: tag }))
            } else if args@.len() == 0 {
                if cx.types.table.enums@[id.0 as int].variants@.len() <= u32::MAX {
                    Some(emitted(st, InstrView::VariantAddr { dst, id, tag: tag as u32 }))
                } else {
                    None
                }
            } else {
                match payload_offset(
                    cx,
                    most_carried(cx.types.table.enums@[id.0 as int].variants@) as u32,
                ) {
                    Some(bytes) => payload_from(
                        cx,
                        emitted(
                            emitted(
                                st,
                                InstrView::RtCall {
                                    dst: Some(dst),
                                    callee: Runtime::Alloc,
                                    args: seq![Value::Const(bytes as i64)],
                                },
                            ),
                            InstrView::Store { addr: Value::Reg(dst), value: Value::Const(tag) },
                        ),
                        dst,
                        args,
                        0,
                    ),
                    None => None,
                }
            },
            None => None,
        },
        _ => None,
    }
}

/// The payload values from `i` on put into a boxed enum.
pub open spec fn payload_from(
    cx: ContextView,
    st: State,
    dst: VReg,
    args: Vec<Expr>,
    i: int,
) -> Option<State>
    decreases args, 10int, args@.len() - i,
{
    if 0 <= i < args@.len() {
        match (temp(st), payload_offset(cx, i as u32)) {
            (Some((st, at)), Some(offset)) => match write_through_of(
                cx,
                emitted(st, InstrView::Field { dst: at, base: Value::Reg(dst), offset }),
                Value::Reg(at),
                args@[i],
                Room::Fresh,
            ) {
                Some(st) => payload_from(cx, st, dst, args, i + 1),
                None => None,
            },
            _ => None,
        }
    } else {
        Some(st)
    }
}

/// The tag of an enum value, whichever of the two shapes it has; any other
/// value as it is.
pub open spec fn tag_read(cx: ContextView, st: State, ty: Ty, value: Value) -> Option<
    (State, Value),
> {
    if !boxed_enum(cx, ty) {
        Some((st, value))
    } else {
        match temp(st) {
            Some((st, dst)) => Some(
                (emitted(st, InstrView::Load { dst, addr: value }), Value::Reg(dst)),
            ),
            None => None,
        }
    }
}

/// One thing the matched variant carries, named. A list comes out as a copy.
pub open spec fn binding_of(
    cx: ContextView,
    st: State,
    value: Value,
    ty: Ty,
    name: Seq<char>,
    i: int,
) -> Option<State> {
    match named(st, name) {
        Some((st, dst)) => match (temp(st), payload_offset(cx, i as u32)) {
            (Some((st, at)), Some(offset)) => {
                let st = emitted(
                    emitted(st, InstrView::Field { dst: at, base: value, offset }),
                    InstrView::Load { dst, addr: Value::Reg(at) },
                );
                if ty is List {
                    match list_element(cx, ty) {
                        Some((elem, bytes)) => Some(
                            called(
                                emitted(
                                    st,
                                    InstrView::RtCall {
                                        dst: Some(dst),
                                        callee: Runtime::ListClone,
                                        args: seq![
                                            Value::Reg(dst),
                                            Value::Const(bytes as i64),
                                            Value::Const(
                                                flag(cx.types.table.may_hold_a_list(elem)),
                                            ),
                                        ],
                                    },
                                ),
                                name,
                                dst,
                                ty,
                            ),
                        ),
                        None => None,
                    }
                } else {
                    Some(called(st, name, dst, ty))
                }
            },
            _ => None,
        },
        None => None,
    }
}

/// What the matched variant carries, named at the top of its arm, from the
/// binding `i` on.
pub open spec fn bindings_from(
    cx: ContextView,
    st: State,
    value: Value,
    payload: Seq<Ty>,
    bindings: Seq<String>,
    i: int,
) -> Option<State>
    decreases bindings.len() - i,
{
    if 0 <= i < bindings.len() && i < payload.len() {
        match binding_of(cx, st, value, payload[i], bindings[i]@, i) {
            Some(st) => bindings_from(cx, st, value, payload, bindings, i + 1),
            None => None,
        }
    } else {
        Some(st)
    }
}

/// What a variant carries; nothing, for a name that is not one.
pub open spec fn payload_types(cx: ContextView, id: EnumId, variant: Seq<char>) -> Seq<Ty> {
    match cx.types.table.enums@[id.0 as int].index_of(variant) {
        Some(at) => cx.types.table.enums@[id.0 as int].variants@[at as int].payload@,
        None => seq![],
    }
}

/// An arm's pattern's names bound to what the matched variant carries.
pub open spec fn payload_bound(
    cx: ContextView,
    st: State,
    ty: Ty,
    value: Value,
    pattern: Pattern,
) -> Option<State> {
    match (ty, pattern) {
        (Ty::Enum(id), Pattern::Variant { variant, bindings }) => bindings_from(
            cx,
            st,
            value,
            payload_types(cx, id, variant@),
            bindings@,
            0,
        ),
        _ => Some(st),
    }
}

/// The word a pattern selects, for a pattern that is one.
pub open spec fn pattern_word(cx: ContextView, ty: Ty, pattern: Pattern) -> Option<i64> {
    match pattern {
        Pattern::Variant { variant, bindings } => match ty {
            Ty::Enum(id) => variant_number(cx, id, variant@),
            _ => None,
        },
        Pattern::Int(v) => Some(v),
        Pattern::Char(c) => Some(c as i64),
        Pattern::Bool(v) => Some(flag(v)),
        _ => None,
    }
}

/// Whether the scrutinee is what an arm's pattern selects, as a `bool`.
pub open spec fn arm_tested(
    cx: ContextView,
    st: State,
    ty: Ty,
    value: Value,
    pattern: Pattern,
) -> Option<(State, Value)> {
    match pattern {
        Pattern::Str(chars) => match interned(st, chars@) {
            Some((st, id)) => match temp(st) {
                Some((st, literal)) => match temp(
                    emitted(st, InstrView::StrAddr { dst: literal, id }),
                ) {
                    Some((st, dst)) => Some(
                        (
                            emitted(
                                st,
                                InstrView::RtCall {
                                    dst: Some(dst),
                                    callee: Runtime::StrEq,
                                    args: seq![value, Value::Reg(literal)],
                                },
                            ),
                            Value::Reg(dst),
                        ),
                    ),
                    None => None,
                },
                None => None,
            },
            None => None,
        },
        _ => match pattern_word(cx, ty, pattern) {
            Some(wanted) => match temp(st) {
                Some((st, dst)) => Some(
                    (
                        emitted(
                            st,
                            InstrView::Cmp {
                                num: Num::Int,
                                op: CmpOp::Eq,
                                dst,
                                lhs: value,
                                rhs: Value::Const(wanted),
                            },
                        ),
                        Value::Reg(dst),
                    ),
                ),
                None => None,
            },
            None => None,
        },
    }
}

/// A test that ended in a block, on a condition, in favour of an arm.
#[derive(Clone, Copy, Debug)]
pub struct ArmTest {
    pub block: BlockId,
    pub cond: Value,
    pub arm: BlockId,
}

/// A `match` part of the way through its arms: where each arm's decision
/// begins, the tests themselves, and where each arm ended.
#[verifier::ext_equal]
pub struct Matching {
    pub st: State,
    pub entries: Seq<BlockId>,
    pub tests: Seq<ArmTest>,
    pub exits: Seq<BlockId>,
    /// The registers that hold something before the first test.
    pub known: Set<VReg>,
}

/// The block of arm `i` opened, behind its test. The last arm is not tested.
pub open spec fn arm_opened(
    cx: ContextView,
    m: Matching,
    ty: Ty,
    tested: Value,
    pattern: Pattern,
    i: int,
    last: bool,
) -> Option<Matching> {
    if last {
        match opened(m.st, BlockKind::Arm, m.known) {
            Some((st, id)) => Some(Matching { st, entries: m.entries.push(id), ..m }),
            None => None,
        }
    } else {
        match (if i > 0 {
            opened(m.st, BlockKind::Case, m.known)
        } else {
            Some((m.st, m.st.current))
        }) {
            Some((st, entry)) => match arm_tested(cx, st, ty, tested, pattern) {
                Some((st, cond)) => match opened(st, BlockKind::Arm, m.known) {
                    Some((after, arm)) => Some(
                        Matching {
                            st: after,
                            entries: m.entries.push(entry),
                            tests: m.tests.push(ArmTest { block: st.current, cond, arm }),
                            ..m
                        },
                    ),
                    None => None,
                },
                None => None,
            },
            None => None,
        }
    }
}

/// An arm's body, in a scope of its own.
pub open spec fn arm_body_of(
    cx: ContextView,
    st: State,
    dst: Option<VReg>,
    ty: Ty,
    value: Value,
    arm: MatchArm,
) -> Option<State>
    decreases arm, 10int, 0int,
{
    match payload_bound(cx, entered(st), ty, value, arm.pattern) {
        Some(st) => match (match arm.body {
            ArmBody::Value(answer) => match dst {
                Some(dst) => expr_into_of(cx, st, dst, answer),
                None => None,
            },
            // It writes nothing, so it has to be left before its end where what
            // the match produces is read.
            ArmBody::Block(block) => match block_of(cx, st, block) {
                Some(st) => Some(
                    State {
                        settled: st.settled && (dst is Some ==> held_here(st) == Set::<
                            VReg,
                        >::full()),
                        ..st
                    },
                ),
                None => None,
            },
        }) {
            Some(st) => Some(left(st)),
            None => None,
        },
        None => None,
    }
}

/// The arms from `i` on.
pub open spec fn arms_from(
    cx: ContextView,
    m: Matching,
    dst: Option<VReg>,
    ty: Ty,
    value: Value,
    tested: Value,
    arms: Vec<MatchArm>,
    i: int,
) -> Option<Matching>
    decreases arms, 10int, arms@.len() - i,
{
    if 0 <= i < arms@.len() {
        match arm_opened(cx, m, ty, tested, arms@[i].pattern, i, i + 1 == arms@.len()) {
            Some(m) => match arm_body_of(cx, m.st, dst, ty, value, arms@[i]) {
                Some(st) => arms_from(
                    cx,
                    Matching { st, exits: m.exits.push(st.current), ..m },
                    dst,
                    ty,
                    value,
                    tested,
                    arms,
                    i + 1,
                ),
                None => None,
            },
            None => None,
        }
    } else {
        Some(m)
    }
}

/// The tests from `i` on, each given its two ways out.
pub open spec fn tests_ended(st: State, tests: Seq<ArmTest>, entries: Seq<BlockId>, i: int) -> State
    decreases tests.len() - i,
{
    if 0 <= i < tests.len() {
        tests_ended(
            ended(
                st,
                tests[i].block,
                TermView::branch(tests[i].cond, tests[i].arm, entries[i + 1]),
            ),
            tests,
            entries,
            i + 1,
        )
    } else {
        st
    }
}

/// The blocks from `i` on, each sent to one place.
pub open spec fn all_sent(st: State, from: Seq<BlockId>, to: BlockId, i: int) -> State
    decreases from.len() - i,
{
    if 0 <= i < from.len() {
        all_sent(ended(st, from[i], TermView::jump(to)), from, to, i + 1)
    } else {
        st
    }
}

/// A `match` once its arms are there: joined, and every block along the way
/// finished.
pub open spec fn matched(m: Matching, before: BlockId) -> Option<State> {
    match opened(
        m.st,
        BlockKind::Join,
        held_by_all(m.st, m.exits, m.exits.len() as int),
    ) {
        Some((st, join)) => if m.entries.len() > 0 {
            let st = if m.tests.len() == 0 {
                ended(st, before, TermView::jump(m.entries[0]))
            } else {
                st
            };
            Some(
                switched(
                    all_sent(tests_ended(st, m.tests, m.entries, 0), m.exits, join, 0),
                    join,
                ),
            )
        } else {
            None
        },
        None => None,
    }
}

/// A `match` as a chain of equality tests, optionally leaving what its arms
/// produced in a register. **The last arm is not tested at all**: there is
/// nowhere else for a value to be.
pub open spec fn match_of(cx: ContextView, st: State, dst: Option<VReg>, e: Expr) -> Option<State>
    decreases e, 10int, 0int,
{
    match e.kind {
        ExprKind::Match { scrutinee, arms } => match type_of(cx, scrutinee.id) {
            Some(ty) => match expr_of(cx, st, *scrutinee) {
                Some((st, value)) => match tag_read(cx, st, ty, value) {
                    Some((st, tested)) => match arms_from(
                        cx,
                        Matching {
                            st,
                            entries: seq![],
                            tests: seq![],
                            exits: seq![],
                            known: held_here(st),
                        },
                        dst,
                        ty,
                        value,
                        tested,
                        arms,
                        0,
                    ) {
                        Some(m) => matched(m, st.current),
                        None => None,
                    },
                    None => None,
                },
                None => None,
            },
            None => None,
        },
        _ => None,
    }
}

// -- operators --------------------------------------------------------------

/// Whether an operator is one a string gives a second meaning to.
pub open spec fn string_operator(cx: ContextView, e: Expr) -> bool {
    match e.kind {
        ExprKind::Bin { op, lhs, rhs } => op is Add && cx.types.ty(lhs.id) == Ty::Str,
        ExprKind::Cmp { op, lhs, rhs } => cx.types.ty(lhs.id) == Ty::Str,
        _ => false,
    }
}

/// Whether the operand [`string_operator`] asks the type of has one.
pub open spec fn operand_typed(cx: ContextView, e: Expr) -> bool {
    match e.kind {
        ExprKind::Bin { op, lhs, rhs } => op is Add ==> cx.types.has(lhs.id),
        ExprKind::Cmp { op, lhs, rhs } => cx.types.has(lhs.id),
        _ => true,
    }
}

/// `a + b` or a comparison on two strings, as the call it is.
pub open spec fn string_op_of(cx: ContextView, st: State, dst: VReg, e: Expr) -> Option<State>
    decreases e, 10int, 0int,
{
    match e.kind {
        ExprKind::Bin { op, lhs, rhs } => match expr_of(cx, st, *lhs) {
            Some((st, a)) => match expr_of(cx, st, *rhs) {
                Some((st, b)) => Some(
                    emitted(
                        st,
                        InstrView::RtCall {
                            dst: Some(dst),
                            callee: Runtime::Concat,
                            args: seq![a, b],
                        },
                    ),
                ),
                None => None,
            },
            None => None,
        },
        ExprKind::Cmp { op, lhs, rhs } => match expr_of(cx, st, *lhs) {
            Some((st, a)) => match expr_of(cx, st, *rhs) {
                Some((st, b)) => strings_compared(st, dst, op, a, b),
                None => None,
            },
            None => None,
        },
        _ => None,
    }
}

/// Whether two strings are the same, or are not.
pub open spec fn strings_compared(st: State, dst: VReg, op: CmpOp, a: Value, b: Value) -> Option<
    State,
> {
    if op is Eq {
        Some(
            emitted(
                st,
                InstrView::RtCall { dst: Some(dst), callee: Runtime::StrEq, args: seq![a, b] },
            ),
        )
    } else {
        match temp(st) {
            Some((st, same)) => Some(
                emitted(
                    emitted(
                        st,
                        InstrView::RtCall {
                            dst: Some(same),
                            callee: Runtime::StrEq,
                            args: seq![a, b],
                        },
                    ),
                    InstrView::Cmp {
                        num: Num::Int,
                        op: CmpOp::Eq,
                        dst,
                        lhs: Value::Reg(same),
                        rhs: Value::Const(0),
                    },
                ),
            ),
            None => None,
        }
    }
}

/// The instruction a conversion is, once its operand is evaluated.
pub open spec fn conversion(dst: VReg, from: Ty, to: Prim, src: Value) -> InstrView {
    match (from, to) {
        (Ty::Int, Prim::Float) => match src {
            Value::Const(c) => InstrView::Const { dst, val: word(float::float_of(c)) },
            _ => InstrView::Cast { dst, to: Num::Float, src },
        },
        (Ty::Float, Prim::Int) => match src {
            Value::Const(c) => if float::fits_an_int(bits(c)) {
                InstrView::Const { dst, val: float::whole_part(bits(c)) as i64 }
            } else {
                InstrView::Cast { dst, to: Num::Int, src }
            },
            _ => InstrView::Cast { dst, to: Num::Int, src },
        },
        (Ty::Int, Prim::Char) => if src is Const && names_a_character(src->Const_0 as int) {
            InstrView::Copy { dst, src }
        } else {
            InstrView::RtCall { dst: Some(dst), callee: Runtime::CheckChar, args: seq![src] }
        },
        (Ty::Str, Prim::Int) => InstrView::RtCall {
            dst: Some(dst),
            callee: Runtime::StrToInt,
            args: seq![src],
        },
        (Ty::Char, Prim::Str) => InstrView::RtCall {
            dst: Some(dst),
            callee: Runtime::CharToStr,
            args: seq![src],
        },
        (Ty::Int, Prim::Str) => InstrView::RtCall {
            dst: Some(dst),
            callee: Runtime::IntToStr,
            args: seq![src],
        },
        (Ty::List(_), Prim::Str) => InstrView::RtCall {
            dst: Some(dst),
            callee: Runtime::CharsToStr,
            args: seq![src],
        },
        // A code point *is* the character's representation, so reading one as
        // the other moves nothing at all.
        _ => InstrView::Copy { dst, src },
    }
}

/// A conversion into a register.
pub open spec fn convert_into_of(cx: ContextView, st: State, dst: VReg, to: Prim, e: Expr) -> Option<
    State,
>
    decreases e, 70int, 0int,
{
    match type_of(cx, e.id) {
        Some(from) => match expr_of(cx, st, e) {
            Some((st, src)) => Some(emitted(st, conversion(dst, from, to, src))),
            None => None,
        },
        None => None,
    }
}

/// Two operands, evaluated left to right.
pub open spec fn operands_of(cx: ContextView, st: State, e: Expr) -> Option<(State, Value, Value)>
    decreases e, 10int, 0int,
{
    match e.kind {
        ExprKind::Bin { op, lhs, rhs } => match expr_of(cx, st, *lhs) {
            Some((st, a)) => match expr_of(cx, st, *rhs) {
                Some((st, b)) => Some((st, a, b)),
                None => None,
            },
            None => None,
        },
        ExprKind::Cmp { op, lhs, rhs } => match expr_of(cx, st, *lhs) {
            Some((st, a)) => match expr_of(cx, st, *rhs) {
                Some((st, b)) => Some((st, a, b)),
                None => None,
            },
            None => None,
        },
        _ => None,
    }
}

/// How an expression's value is read.
pub open spec fn number_of(cx: ContextView, id: NodeId) -> Option<Num> {
    match type_of(cx, id) {
        Some(ty) => Some(Num::spec_of(ty)),
        None => None,
    }
}

/// Whether an operation is one the language has: there is no `%` on a float.
pub open spec fn has_operation(num: Num, op: BinOp) -> bool {
    !(num is Float && op is Rem)
}

/// The instruction that puts an operation's answer in a register, settled here
/// where it can be.
pub open spec fn bin_instr(num: Num, op: BinOp, dst: VReg, a: Value, b: Value) -> InstrView {
    match folded_bin(num, op, a, b) {
        Some(val) => InstrView::Const { dst, val },
        None => InstrView::Bin { num, op, dst, lhs: a, rhs: b },
    }
}

/// The same for a comparison.
pub open spec fn comparison_instr(num: Num, op: CmpOp, dst: VReg, a: Value, b: Value) -> InstrView {
    match folded_comparison(num, op, a, b) {
        Some(val) => InstrView::Const { dst, val },
        None => InstrView::Cmp { num, op, dst, lhs: a, rhs: b },
    }
}

/// An operation's answer as an operand, settled here where it can be.
pub open spec fn bin_value(st: State, num: Num, op: BinOp, a: Value, b: Value) -> Option<
    (State, Value),
> {
    match folded_bin(num, op, a, b) {
        Some(val) => Some((st, Value::Const(val))),
        None => match temp(st) {
            Some((st, dst)) => Some(
                (emitted(st, InstrView::Bin { num, op, dst, lhs: a, rhs: b }), Value::Reg(dst)),
            ),
            None => None,
        },
    }
}

/// The same for a comparison.
pub open spec fn comparison_value(st: State, num: Num, op: CmpOp, a: Value, b: Value) -> Option<
    (State, Value),
> {
    match folded_comparison(num, op, a, b) {
        Some(val) => Some((st, Value::Const(val))),
        None => match temp(st) {
            Some((st, dst)) => Some(
                (emitted(st, InstrView::Cmp { num, op, dst, lhs: a, rhs: b }), Value::Reg(dst)),
            ),
            None => None,
        },
    }
}

/// The instruction that negates an operand into a register.
pub open spec fn negation_instr(num: Num, dst: VReg, val: Value) -> InstrView {
    match val {
        Value::Const(c) => InstrView::Const { dst, val: negation(num, c) },
        _ => InstrView::Bin { num, op: BinOp::Sub, dst, lhs: zero_of(num), rhs: val },
    }
}

/// A negation's answer as an operand.
pub open spec fn negation_value(st: State, num: Num, val: Value) -> Option<(State, Value)> {
    match val {
        Value::Const(c) => Some((st, Value::Const(negation(num, c)))),
        _ => match temp(st) {
            Some((st, dst)) => Some(
                (
                    emitted(
                        st,
                        InstrView::Bin { num, op: BinOp::Sub, dst, lhs: zero_of(num), rhs: val },
                    ),
                    Value::Reg(dst),
                ),
            ),
            None => None,
        },
    }
}

/// Whether `!operand` is the operand's own comparison turned round. It is not
/// where the operands are strings, which one comparison does not compare, nor where
/// floats are put in order: neither way round holds of a NaN.
pub open spec fn turned_round(cx: ContextView, e: Expr) -> bool {
    match e.kind {
        ExprKind::Cmp { op, lhs, rhs } => match type_of(cx, lhs.id) {
            Some(ty) => ty != Ty::Str && (Num::spec_of(ty) is Int || op is Eq || op is Ne),
            None => false,
        },
        _ => false,
    }
}

/// What a comparison compares, and how.
pub open spec fn compared(cx: ContextView, e: Expr) -> (Num, CmpOp) {
    match e.kind {
        ExprKind::Cmp { op, lhs, rhs } => (Num::spec_of(cx.types.ty(lhs.id)), op),
        _ => (Num::Int, CmpOp::Ne),
    }
}

/// The comparison that computes `!operand`: the operand's own, turned round,
/// where that is the opposite, and otherwise against zero.
pub open spec fn negated_of(cx: ContextView, st: State, e: Expr) -> Option<
    (State, Num, CmpOp, Value, Value),
>
    decreases e, 70int, 0int,
{
    if turned_round(cx, e) {
        let (num, op) = compared(cx, e);
        match operands_of(cx, st, e) {
            Some((st, a, b)) => Some((st, num, op.spec_negate(), a, b)),
            None => None,
        }
    } else {
        match expr_of(cx, st, e) {
            Some((st, a)) => Some((st, Num::Int, CmpOp::Eq, a, Value::Const(0))),
            None => None,
        }
    }
}

/// `cond && rhs` or `cond || rhs` put in a register. A known left operand
/// settles the expression, and dropping the right one is the semantics: `false
/// && f()` does not call `f`.
pub open spec fn logic_into_of(
    cx: ContextView,
    st: State,
    dst: VReg,
    op: LogicOp,
    cond: Value,
    rhs: Expr,
) -> Option<State>
    decreases rhs, 50int, 0int,
{
    if cond is Const {
        match folded_logic(op, cond) {
            Some(val) => Some(emitted(st, InstrView::Const { dst, val })),
            None => expr_into_of(cx, st, dst, rhs),
        }
    } else {
        logic_branch_of(cx, st, dst, op, cond, rhs)
    }
}

/// The half of `&&` and `||` that really branches. The arm the branch continues
/// into is laid out first.
pub open spec fn logic_branch_of(
    cx: ContextView,
    st: State,
    dst: VReg,
    op: LogicOp,
    cond: Value,
    rhs: Expr,
) -> Option<State>
    decreases rhs, 40int, 0int,
{
    let entry = st.current;
    let known = held_here(st);
    match op {
        LogicOp::And => match opened(st, BlockKind::Rhs, known) {
            Some((st, rhs_block)) => match expr_into_of(cx, st, dst, rhs) {
                Some(st) => match short_opened(st, dst, op.settled(), known) {
                    Some((after, short)) => diamond(
                        after,
                        entry,
                        cond,
                        rhs_block,
                        short,
                        st.current,
                        short,
                    ),
                    None => None,
                },
                None => None,
            },
            None => None,
        },
        LogicOp::Or => match short_opened(st, dst, op.settled(), known) {
            Some((st, short)) => match opened(st, BlockKind::Rhs, known) {
                Some((st, rhs_block)) => match expr_into_of(cx, st, dst, rhs) {
                    Some(st) => diamond(st, entry, cond, short, rhs_block, st.current, short),
                    None => None,
                },
                None => None,
            },
            None => None,
        },
    }
}

/// The block a short circuit takes, holding nothing but the answer the left
/// operand already gave.
pub open spec fn short_opened(st: State, dst: VReg, val: i64, known: Set<VReg>) -> Option<
    (State, BlockId),
> {
    match opened(st, BlockKind::Short, known) {
        Some((st, id)) => Some((emitted(st, InstrView::Const { dst, val }), id)),
        None => None,
    }
}

/// A branch out of `entry` to two blocks, and two exits that meet again.
pub open spec fn diamond(
    st: State,
    entry: BlockId,
    cond: Value,
    then_blk: BlockId,
    else_blk: BlockId,
    one_exit: BlockId,
    other_exit: BlockId,
) -> Option<State> {
    match opened(
        st,
        BlockKind::Join,
        held_at(st, one_exit).intersect(held_at(st, other_exit)),
    ) {
        Some((st, join)) => Some(
            switched(
                ended(
                    ended(
                        ended(st, entry, TermView::branch(cond, then_blk, else_blk)),
                        one_exit,
                        TermView::jump(join),
                    ),
                    other_exit,
                    TermView::jump(join),
                ),
                join,
            ),
        ),
        None => None,
    }
}

// -- expressions ------------------------------------------------------------

/// An element or a field read into a register: an aggregate *is* its address,
/// and a string's characters are narrower than a register.
pub open spec fn element_read(dst: VReg, of: Ty, ty: Ty, addr: VReg) -> InstrView {
    if of is Str {
        InstrView::LoadChar { dst, addr: Value::Reg(addr) }
    } else if ty.in_a_register() {
        InstrView::Load { dst, addr: Value::Reg(addr) }
    } else {
        InstrView::Copy { dst, src: Value::Reg(addr) }
    }
}

/// What `len` of something is: a fact about an array's type, and a load for
/// anything else.
pub open spec fn length_value_of(cx: ContextView, st: State, e: Expr) -> Option<(State, Value)>
    decreases e, 10int, 0int,
{
    match e.kind {
        ExprKind::Len { array } => match type_of(cx, array.id) {
            Some(Ty::Array(id)) => Some(
                (st, Value::Const(cx.types.table.arrays@[id.0 as int].len as i64)),
            ),
            Some(_) => match expr_of(cx, st, *array) {
                Some((st, of)) => counted(st, of),
                None => None,
            },
            None => None,
        },
        _ => None,
    }
}

/// A field read into a register.
pub open spec fn field_into_of(cx: ContextView, st: State, dst: VReg, e: Expr) -> Option<State>
    decreases e, 10int, 0int,
{
    match e.kind {
        ExprKind::Field { object, name } => match (type_of(cx, object.id), type_of(cx, e.id)) {
            (Some(Ty::Class(id)), Some(ty)) => match expr_of(cx, st, *object) {
                Some((st, object)) => match field_at(cx, st, object, id, name@) {
                    Some((st, addr)) => Some(
                        emitted(st, element_read(dst, Ty::Class(id), ty, addr)),
                    ),
                    None => None,
                },
                None => None,
            },
            _ => None,
        },
        _ => None,
    }
}

/// An array or a list literal built into a register.
pub open spec fn array_into_of(cx: ContextView, st: State, dst: VReg, e: Expr) -> Option<State>
    decreases e, 10int, 0int,
{
    match e.kind {
        ExprKind::Array { elements } => match type_of(cx, e.id) {
            Some(ty) => if ty is List {
                match list_element(cx, ty) {
                    Some((_, bytes)) => {
                        let len = Value::Const(elements@.len() as i64);
                        elements_from(
                            cx,
                            emitted(
                                st,
                                InstrView::RtCall {
                                    dst: Some(dst),
                                    callee: Runtime::ListNew,
                                    args: seq![len, Value::Const(bytes as i64)],
                                },
                            ),
                            Value::Reg(dst),
                            len,
                            bytes,
                            elements,
                            0,
                        )
                    },
                    None => None,
                }
            } else {
                fill_array_of(
                    cx,
                    allocated(st, dst, cx.types.table.bytes_of(ty)),
                    Value::Reg(dst),
                    ty,
                    elements,
                )
            },
            None => None,
        },
        _ => None,
    }
}

/// A call's answer put in a register.
pub open spec fn call_into_of(cx: ContextView, st: State, dst: VReg, e: Expr) -> Option<State>
    decreases e, 20int, 0int,
{
    match builtin_of(e) {
        Some(builtin) => builtin_call_of(cx, st, Some(dst), builtin, e),
        None => match (call_parts_of(cx, st, e), type_of(cx, e.id)) {
            (Some((st, callee, args)), Some(ty)) => match answer_of(
                cx,
                Some(dst),
                callee.0 as int,
                ty,
            ) {
                Some(ret) => match room_handed(cx, st, Some(dst), ret, args) {
                    Some((st, dst, args)) => Some(
                        emitted(st, InstrView::Call { dst, callee, args }),
                    ),
                    None => None,
                },
                None => None,
            },
            _ => None,
        },
    }
}

/// A string literal's address put in a register.
pub open spec fn literal_into(st: State, dst: VReg, chars: Seq<char>) -> Option<State> {
    match interned(st, chars) {
        Some((st, id)) => Some(emitted(st, InstrView::StrAddr { dst, id })),
        None => None,
    }
}

/// A variable copied into a register.
pub open spec fn variable_into(st: State, dst: VReg, name: Seq<char>) -> Option<State> {
    match bound(st, name) {
        Some((reg, _)) => Some(
            emitted(met(st, reg), InstrView::Copy { dst, src: Value::Reg(reg) }),
        ),
        None => None,
    }
}

/// An object literal built into a register, in room of its own.
pub open spec fn object_into_of(cx: ContextView, st: State, dst: VReg, e: Expr) -> Option<State>
    decreases e, 10int, 0int,
{
    match e.kind {
        ExprKind::New { fields } => match type_of(cx, e.id) {
            Some(Ty::Class(id)) => fill_object_of(
                cx,
                allocated(st, dst, cx.types.table.classes@[id.0 as int].storage),
                Value::Reg(dst),
                id,
                fields,
            ),
            _ => None,
        },
        _ => None,
    }
}

/// An element read into a register.
pub open spec fn index_into_of(cx: ContextView, st: State, dst: VReg, e: Expr) -> Option<State>
    decreases e, 20int, 0int,
{
    match e.kind {
        ExprKind::Index { array, index } => match (type_of(cx, array.id), type_of(cx, e.id)) {
            (Some(of), Some(ty)) => match index_address_of(cx, st, e) {
                Some((st, addr)) => Some(emitted(st, element_read(dst, of, ty, addr))),
                None => None,
            },
            _ => None,
        },
        _ => None,
    }
}

/// A length put in a register.
pub open spec fn length_into_of(cx: ContextView, st: State, dst: VReg, e: Expr) -> Option<State>
    decreases e, 20int, 0int,
{
    match length_value_of(cx, st, e) {
        Some((st, src)) => Some(emitted(st, InstrView::Copy { dst, src })),
        None => None,
    }
}

/// An operation's answer put in a register.
pub open spec fn bin_into_of(cx: ContextView, st: State, dst: VReg, op: BinOp, e: Expr) -> Option<
    State,
>
    decreases e, 20int, 0int,
{
    if !operand_typed(cx, e) {
        None
    } else if string_operator(cx, e) {
        string_op_of(cx, st, dst, e)
    } else {
        match (number_of(cx, e.id), operands_of(cx, st, e)) {
            (Some(num), Some((st, a, b))) => if has_operation(num, op) {
                Some(emitted(st, bin_instr(num, op, dst, a, b)))
            } else {
                None
            },
            _ => None,
        }
    }
}

/// A comparison's answer put in a register. What says how to read the operands
/// is an *operand's* type.
pub open spec fn comparison_into_of(
    cx: ContextView,
    st: State,
    dst: VReg,
    op: CmpOp,
    operand: NodeId,
    e: Expr,
) -> Option<State>
    decreases e, 20int, 0int,
{
    if !operand_typed(cx, e) {
        None
    } else if string_operator(cx, e) {
        string_op_of(cx, st, dst, e)
    } else {
        match (number_of(cx, operand), operands_of(cx, st, e)) {
            (Some(num), Some((st, a, b))) => Some(
                emitted(st, comparison_instr(num, op, dst, a, b)),
            ),
            _ => None,
        }
    }
}

/// A negation put in a register.
pub open spec fn neg_into_of(
    cx: ContextView,
    st: State,
    dst: VReg,
    id: NodeId,
    operand: Expr,
) -> Option<State>
    decreases operand, 70int, 0int,
{
    match (number_of(cx, id), expr_of(cx, st, operand)) {
        (Some(num), Some((st, val))) => Some(emitted(st, negation_instr(num, dst, val))),
        _ => None,
    }
}

/// `!operand` put in a register.
pub open spec fn not_into_of(cx: ContextView, st: State, dst: VReg, operand: Expr) -> Option<State>
    decreases operand, 80int, 0int,
{
    match negated_of(cx, st, operand) {
        Some((st, num, op, a, b)) => Some(emitted(st, comparison_instr(num, op, dst, a, b))),
        None => None,
    }
}

/// `lhs && rhs` or `lhs || rhs` put in a register.
pub open spec fn logic_expr_into_of(cx: ContextView, st: State, dst: VReg, e: Expr) -> Option<State>
    decreases e, 10int, 0int,
{
    match e.kind {
        ExprKind::Logic { op, lhs, rhs } => match expr_of(cx, st, *lhs) {
            Some((st, cond)) => logic_into_of(cx, st, dst, op, cond, *rhs),
            None => None,
        },
        _ => None,
    }
}

/// An expression whose result must land in a register.
pub open spec fn expr_into_of(cx: ContextView, st: State, dst: VReg, e: Expr) -> Option<State>
    decreases e, 35int, 0int,
{
    expr_into_body(cx, st, dst, e)
}

/// What [`expr_into_of`] is, case by case.
pub open spec fn expr_into_body(cx: ContextView, st: State, dst: VReg, e: Expr) -> Option<State>
    decreases e, 30int, 0int,
{
    match e.kind {
        ExprKind::Int(v) => Some(emitted(st, InstrView::Const { dst, val: v })),
        ExprKind::Float(b) => Some(emitted(st, InstrView::Const { dst, val: word(b) })),
        ExprKind::Bool(v) => Some(emitted(st, InstrView::Const { dst, val: flag(v) })),
        ExprKind::Char(c) => Some(emitted(st, InstrView::Const { dst, val: c as i64 })),
        ExprKind::Str(chars) => literal_into(st, dst, chars@),
        ExprKind::Var(name) => variable_into(st, dst, name@),
        ExprKind::Variant { .. } => variant_into_of(cx, st, dst, e),
        ExprKind::New { .. } => object_into_of(cx, st, dst, e),
        ExprKind::Field { .. } => field_into_of(cx, st, dst, e),
        ExprKind::MethodCall { .. } => method_call_of(cx, st, Some(dst), e),
        ExprKind::Array { .. } => array_into_of(cx, st, dst, e),
        ExprKind::Index { .. } => index_into_of(cx, st, dst, e),
        ExprKind::Len { .. } => length_into_of(cx, st, dst, e),
        ExprKind::Convert { to, value } => convert_into_of(cx, st, dst, to, *value),
        ExprKind::Bin { op, .. } => bin_into_of(cx, st, dst, op, e),
        ExprKind::Cmp { op, lhs, .. } => comparison_into_of(cx, st, dst, op, lhs.id, e),
        ExprKind::Neg(operand) => neg_into_of(cx, st, dst, e.id, *operand),
        ExprKind::Not(operand) => not_into_of(cx, st, dst, *operand),
        ExprKind::Logic { .. } => logic_expr_into_of(cx, st, dst, e),
        ExprKind::Match { .. } => match_of(cx, st, Some(dst), e),
        ExprKind::Call { .. } => call_into_of(cx, st, dst, e),
    }
}

/// An expression built into a register of its own.
pub open spec fn temp_of(cx: ContextView, st: State, e: Expr) -> Option<(State, Value)>
    decreases e, 40int, 0int,
{
    match temp(st) {
        Some((st, dst)) => match expr_into_of(cx, st, dst, e) {
            Some(st) => Some((st, Value::Reg(dst))),
            None => None,
        },
        None => None,
    }
}

/// A variable as an operand.
pub open spec fn variable_value(st: State, name: Seq<char>) -> Option<(State, Value)> {
    match bound(st, name) {
        Some((reg, _)) => Some((met(st, reg), Value::Reg(reg))),
        None => None,
    }
}

/// A variant as an operand: its tag, unless some variant carries something and
/// so a value has to be built.
pub open spec fn variant_value_of(cx: ContextView, st: State, e: Expr) -> Option<(State, Value)>
    decreases e, 50int, 0int,
{
    match type_of(cx, e.id) {
        Some(ty) => if boxed_enum(cx, ty) {
            temp_of(cx, st, e)
        } else {
            match tag_of_variant(cx, e) {
                Some(tag) => Some((st, Value::Const(tag))),
                None => None,
            }
        },
        None => None,
    }
}

/// An element as an operand.
pub open spec fn index_value_of(cx: ContextView, st: State, e: Expr) -> Option<(State, Value)>
    decreases e, 20int, 0int,
{
    match e.kind {
        ExprKind::Index { array, index } => match (type_of(cx, array.id), type_of(cx, e.id)) {
            (Some(of), Some(ty)) => match index_address_of(cx, st, e) {
                Some((st, addr)) => if !(of is Str) && !ty.in_a_register() {
                    Some((st, Value::Reg(addr)))
                } else {
                    match temp(st) {
                        Some((st, dst)) => Some(
                            (emitted(st, element_read(dst, of, ty, addr)), Value::Reg(dst)),
                        ),
                        None => None,
                    }
                },
                None => None,
            },
            _ => None,
        },
        _ => None,
    }
}

/// A negation as an operand.
pub open spec fn neg_value_of(cx: ContextView, st: State, id: NodeId, operand: Expr) -> Option<
    (State, Value),
>
    decreases operand, 70int, 0int,
{
    match (number_of(cx, id), expr_of(cx, st, operand)) {
        (Some(num), Some((st, val))) => negation_value(st, num, val),
        _ => None,
    }
}

/// An operation's answer as an operand.
pub open spec fn bin_value_of(cx: ContextView, st: State, op: BinOp, e: Expr) -> Option<
    (State, Value),
>
    decreases e, 50int, 0int,
{
    if !operand_typed(cx, e) {
        None
    } else if string_operator(cx, e) {
        temp_of(cx, st, e)
    } else {
        match (number_of(cx, e.id), operands_of(cx, st, e)) {
            (Some(num), Some((st, a, b))) => if has_operation(num, op) {
                bin_value(st, num, op, a, b)
            } else {
                None
            },
            _ => None,
        }
    }
}

/// A comparison's answer as an operand.
pub open spec fn comparison_value_of(
    cx: ContextView,
    st: State,
    op: CmpOp,
    operand: NodeId,
    e: Expr,
) -> Option<(State, Value)>
    decreases e, 50int, 0int,
{
    if !operand_typed(cx, e) {
        None
    } else if string_operator(cx, e) {
        temp_of(cx, st, e)
    } else {
        match (number_of(cx, operand), operands_of(cx, st, e)) {
            (Some(num), Some((st, a, b))) => comparison_value(st, num, op, a, b),
            _ => None,
        }
    }
}

/// `!operand` as an operand.
pub open spec fn not_value_of(cx: ContextView, st: State, operand: Expr) -> Option<(State, Value)>
    decreases operand, 80int, 0int,
{
    match negated_of(cx, st, operand) {
        Some((st, num, op, a, b)) => comparison_value(st, num, op, a, b),
        None => None,
    }
}

/// `lhs && rhs` or `lhs || rhs` as an operand. A left operand that settles the
/// answer leaves nothing to branch on.
pub open spec fn logic_value_of(cx: ContextView, st: State, e: Expr) -> Option<(State, Value)>
    decreases e, 10int, 0int,
{
    match e.kind {
        ExprKind::Logic { op, lhs, rhs } => match expr_of(cx, st, *lhs) {
            Some((st, cond)) => if cond is Const {
                match folded_logic(op, cond) {
                    Some(val) => Some((st, Value::Const(val))),
                    None => expr_of(cx, st, *rhs),
                }
            } else {
                match temp(st) {
                    Some((st, dst)) => match logic_branch_of(cx, st, dst, op, cond, *rhs) {
                        Some(st) => Some((st, Value::Reg(dst))),
                        None => None,
                    },
                    None => None,
                }
            },
            None => None,
        },
        _ => None,
    }
}

/// An expression used as an operand.
pub open spec fn expr_of(cx: ContextView, st: State, e: Expr) -> Option<(State, Value)>
    decreases e, 65int, 0int,
{
    expr_body(cx, st, e)
}

/// What [`expr_of`] is, case by case.
pub open spec fn expr_body(cx: ContextView, st: State, e: Expr) -> Option<(State, Value)>
    decreases e, 60int, 0int,
{
    match e.kind {
        ExprKind::Int(v) => Some((st, Value::Const(v))),
        ExprKind::Float(b) => Some((st, Value::Const(word(b)))),
        ExprKind::Bool(v) => Some((st, Value::Const(flag(v)))),
        ExprKind::Char(c) => Some((st, Value::Const(c as i64))),
        ExprKind::Var(name) => variable_value(st, name@),
        ExprKind::Variant { .. } => variant_value_of(cx, st, e),
        ExprKind::Len { .. } => length_value_of(cx, st, e),
        ExprKind::Index { .. } => index_value_of(cx, st, e),
        ExprKind::Neg(operand) => neg_value_of(cx, st, e.id, *operand),
        ExprKind::Bin { op, .. } => bin_value_of(cx, st, op, e),
        ExprKind::Cmp { op, lhs, .. } => comparison_value_of(cx, st, op, lhs.id, e),
        ExprKind::Not(operand) => not_value_of(cx, st, *operand),
        ExprKind::Logic { .. } => logic_value_of(cx, st, e),
        _ => temp_of(cx, st, e),
    }
}

// -- `print` ----------------------------------------------------------------

/// The writes of the value parts from `i` on, every value evaluated before
/// anything is written.
pub open spec fn writes_from(
    cx: ContextView,
    st: State,
    parts: Vec<PrintPart>,
    i: int,
    written: Seq<InstrView>,
) -> Option<(State, Seq<InstrView>)>
    decreases parts, 10int, parts@.len() - i,
{
    if 0 <= i < parts@.len() {
        match parts@[i] {
            PrintPart::Text(_) => writes_from(cx, st, parts, i + 1, written),
            PrintPart::Value(e) => match write_of(cx, st, e) {
                Some((st, write)) => writes_from(cx, st, parts, i + 1, written.push(write)),
                None => None,
            },
            PrintPart::Spec { expr: e } => match write_of(cx, st, e) {
                Some((st, write)) => writes_from(cx, st, parts, i + 1, written.push(write)),
                None => None,
            },
        }
    } else {
        Some((st, written))
    }
}

/// One value to be written. What an enum prints is the *name* of its variant,
/// found by its tag.
pub open spec fn write_of(cx: ContextView, st: State, e: Expr) -> Option<(State, InstrView)>
    decreases e, 70int, 0int,
{
    match type_of(cx, e.id) {
        Some(ty) => match expr_of(cx, st, e) {
            Some((st, val)) => match tag_read(cx, st, ty, val) {
                Some((st, val)) => Some((st, InstrView::Print { ty, val, newline: false })),
                None => None,
            },
            None => None,
        },
        None => None,
    }
}

/// The literal text collected so far written out, if there is any.
pub open spec fn flushed(st: State, text: Seq<char>) -> Option<State> {
    if text.len() == 0 {
        Some(st)
    } else {
        match interned_text(st, text) {
            Some((st, id)) => Some(emitted(st, InstrView::PrintText { id })),
            None => None,
        }
    }
}

/// The parts from `i` on written out, `k` values in, with some text collected:
/// what is built, the text left over, and whether the last piece was a value.
pub open spec fn parts_from(
    st: State,
    parts: Seq<PrintPart>,
    i: int,
    written: Seq<InstrView>,
    k: int,
    text: Seq<char>,
    value_last: bool,
) -> Option<(State, Seq<char>, bool)>
    decreases parts.len() - i,
{
    if 0 <= i < parts.len() {
        match parts[i] {
            PrintPart::Text(chars) => parts_from(
                st,
                parts,
                i + 1,
                written,
                k,
                text + chars@,
                false,
            ),
            _ => match flushed(st, text) {
                Some(st) => if 0 <= k < written.len() {
                    parts_from(emitted(st, written[k]), parts, i + 1, written, k + 1, seq![], true)
                } else {
                    None
                },
                None => None,
            },
        }
    } else {
        Some((st, text, value_last))
    }
}

/// `print` and `println`: one write per thing written, the line ending joining
/// whatever was written last.
pub open spec fn print_of(cx: ContextView, st: State, newline: bool, parts: Vec<PrintPart>) -> Option<
    State,
>
    decreases parts, 20int, 0int,
{
    match writes_from(cx, st, parts, 0, seq![]) {
        Some((st, written)) => match parts_from(st, parts@, 0, written, 0, seq![], false) {
            Some((st, text, value_last)) => if newline && value_last {
                line_ended(st)
            } else if newline {
                flushed(st, text.push('\n'))
            } else {
                flushed(st, text)
            },
            None => None,
        },
        None => None,
    }
}

// -- statements -------------------------------------------------------------

/// A block's statements in a scope of their own, the frame given back with it.
pub open spec fn block_of(cx: ContextView, st: State, block: AstBlock) -> Option<State>
    decreases block, 15int, 0int,
{
    block_body(cx, st, block)
}

/// What [`block_of`] is, case by case.
pub open spec fn block_body(cx: ContextView, st: State, block: AstBlock) -> Option<State>
    decreases block, 10int, 0int,
{
    match stmts_from(cx, entered(st), block.stmts, 0) {
        Some(after) => Some(State { frame_bytes: st.frame_bytes, ..left(after) }),
        None => None,
    }
}

/// The statements from `i` on.
pub open spec fn stmts_from(cx: ContextView, st: State, stmts: Vec<Stmt>, i: int) -> Option<State>
    decreases stmts, 10int, stmts@.len() - i,
{
    if 0 <= i < stmts@.len() {
        match stmt_of(cx, st, stmts@[i]) {
            Some(st) => stmts_from(cx, st, stmts, i + 1),
            None => None,
        }
    } else {
        Some(st)
    }
}

/// A declaration. An aggregate variable owns its room: an expression that
/// reserved some already moves in; anything else is copied.
pub open spec fn declaration_of(cx: ContextView, st: State, s: Stmt) -> Option<State>
    decreases s, 10int, 0int,
{
    match s {
        Stmt::Decl { id, name, init } => match type_of(cx, id) {
            Some(ty) => match named(st, name@) {
                Some((before, dst)) => {
                    let st = announced(before, name@, dst, ty);
                    match (if ty.in_a_register() {
                        keep_into_of(cx, st, dst, init)
                    } else if makes_its_own(init) {
                        expr_into_of(cx, st, dst, init)
                    } else {
                        write_through_of(
                            cx,
                            allocated(st, dst, cx.types.table.bytes_of(ty)),
                            Value::Reg(dst),
                            init,
                            Room::Fresh,
                        )
                    }) {
                        Some(st) => Some(State { unset: before.unset, ..st }),
                        None => None,
                    }
                },
                None => None,
            },
            None => None,
        },
        _ => None,
    }
}

/// An assignment. A variable keeps its register, and an aggregate variable its
/// *room*.
pub open spec fn assignment_of(cx: ContextView, st: State, s: Stmt) -> Option<State>
    decreases s, 10int, 0int,
{
    match s {
        Stmt::Assign { target, value } => match target {
            Place::Var { name } => match bound(st, name@) {
                Some((dst, ty)) => if !ty.in_a_register() {
                    write_through_of(cx, met(st, dst), Value::Reg(dst), value, Room::Named)
                } else if cx.owned.contains(name@) && !spine_typed(cx, value) {
                    None
                } else if is_append(cx, name@, value) {
                    append_of(cx, met(st, dst), dst, value)
                } else {
                    keep_into_of(cx, st, dst, value)
                },
                None => None,
            },
            _ => match place_address_of(cx, st, target) {
                Some((st, addr)) => write_through_of(
                    cx,
                    st,
                    Value::Reg(addr),
                    value,
                    Room::Named,
                ),
                None => None,
            },
        },
        _ => None,
    }
}

/// What a push hands its routine after the list: the value, or its address, its
/// size and whether it holds a list of its own.
pub open spec fn pushed_args(cx: ContextView, elem: Ty, bytes: u32, value: Value) -> Seq<Value> {
    if elem.in_a_register() {
        seq![value]
    } else {
        seq![
            value,
            Value::Const(bytes as i64),
            Value::Const(flag(cx.types.table.may_hold_a_list(elem))),
        ]
    }
}

/// The routine a push calls.
pub open spec fn push_routine(elem: Ty) -> Runtime {
    if elem.in_a_register() {
        Runtime::ListPush
    } else {
        Runtime::ListPushBig
    }
}

/// A push. The routine answers where the list *now* is, and that answer lands
/// back where the list is named.
pub open spec fn push_of(cx: ContextView, st: State, s: Stmt) -> Option<State>
    decreases s, 10int, 0int,
{
    match s {
        Stmt::Push { target, value } => match place_type_of(cx, st, target) {
            Some(ty) => match list_element(cx, ty) {
                Some((elem, bytes)) => match expr_of(cx, st, value) {
                    Some((st, value)) => pushed_to_of(
                        cx,
                        st,
                        push_routine(elem),
                        pushed_args(cx, elem, bytes, value),
                        target,
                    ),
                    None => None,
                },
                None => None,
            },
            None => None,
        },
        _ => None,
    }
}

/// A push once its value is evaluated.
pub open spec fn pushed_to_of(
    cx: ContextView,
    st: State,
    callee: Runtime,
    rest: Seq<Value>,
    target: Place,
) -> Option<State>
    decreases target, 30int, 0int,
{
    match target {
        Place::Var { name } => match bound(st, name@) {
            Some((dst, _)) => Some(
                emitted(
                    met(st, dst),
                    InstrView::RtCall {
                        dst: Some(dst),
                        callee,
                        args: seq![Value::Reg(dst)] + rest,
                    },
                ),
            ),
            None => None,
        },
        _ => match place_address_of(cx, st, target) {
            Some((st, addr)) => push_back(st, addr, callee, rest),
            None => None,
        },
    }
}

/// A push to a list that lives in memory: read, grown, and written back.
pub open spec fn push_back(st: State, addr: VReg, callee: Runtime, rest: Seq<Value>) -> Option<
    State,
> {
    match temp(st) {
        Some((st, held)) => match temp(
            emitted(st, InstrView::Load { dst: held, addr: Value::Reg(addr) }),
        ) {
            Some((st, grown)) => Some(
                emitted(
                    emitted(
                        st,
                        InstrView::RtCall {
                            dst: Some(grown),
                            callee,
                            args: seq![Value::Reg(held)] + rest,
                        },
                    ),
                    InstrView::Store { addr: Value::Reg(addr), value: Value::Reg(grown) },
                ),
            ),
            None => None,
        },
        None => None,
    }
}

/// An `if`, as a diamond, or as half of one.
pub open spec fn if_of(cx: ContextView, st: State, s: Stmt) -> Option<State>
    decreases s, 10int, 0int,
{
    match s {
        Stmt::If { cond, then_block, else_block } => match expr_of(cx, st, cond) {
            Some((st, cond)) => {
                let entry = st.current;
                let known = held_here(st);
                match opened(st, BlockKind::Then, known) {
                    Some((st, then_id)) => match block_of(cx, st, then_block) {
                        Some(st) => match else_block {
                            Some(block) => match opened(st, BlockKind::Else, known) {
                                Some((inner, else_id)) => match block_of(cx, inner, block) {
                                    Some(after) => diamond(
                                        after,
                                        entry,
                                        cond,
                                        then_id,
                                        else_id,
                                        st.current,
                                        after.current,
                                    ),
                                    None => None,
                                },
                                None => None,
                            },
                            None => half_diamond(st, entry, cond, then_id, known),
                        },
                        None => None,
                    },
                    None => None,
                }
            },
            None => None,
        },
        _ => None,
    }
}

/// A branch out of `entry` round the block just built, or into it.
pub open spec fn half_diamond(
    st: State,
    entry: BlockId,
    cond: Value,
    then_blk: BlockId,
    known: Set<VReg>,
) -> Option<State> {
    let exit = st.current;
    match opened(st, BlockKind::Join, known) {
        Some((st, join)) => Some(
            switched(
                ended(
                    ended(st, entry, TermView::branch(cond, then_blk, join)),
                    exit,
                    TermView::jump(join),
                ),
                join,
            ),
        ),
        None => None,
    }
}

/// After the step of a loop. A step that declares leaves its name in scope where the
/// loop ends, and a loop may end without having taken a step.
pub open spec fn stepped(before: State, after: State) -> State {
    State { settled: after.settled && after.scopes == before.scopes, ..after }
}

/// The shape shared by `while` and `for`: a header that re-tests the condition
/// on every iteration, a body, and an optional step run at the end of the body.
pub open spec fn loop_of(cx: ContextView, st: State, s: Stmt) -> Option<State>
    decreases s, 10int, 0int,
{
    match s {
        Stmt::While { cond, body } => {
            let before = st.current;
            let base = held_here(st);
            match opened(st, BlockKind::Loop, base) {
                Some((st, header)) => match expr_of(cx, st, cond) {
                    Some((st, cond)) => {
                        let header_exit = st.current;
                        match opened(st, BlockKind::Body, held_here(st)) {
                            Some((st, body_id)) => match block_of(cx, looped(st, base), body) {
                                Some(st) => loop_closed(
                                    unlooped(st),
                                    before,
                                    header,
                                    cond,
                                    header_exit,
                                    body_id,
                                    header,
                                    st.loops.last(),
                                ),
                                None => None,
                            },
                            None => None,
                        }
                    },
                    None => None,
                },
                None => None,
            }
        },
        Stmt::For { init, cond, step, body } => {
            let before = st.current;
            let base = held_here(st);
            match opened(st, BlockKind::Loop, base) {
                Some((st, header)) => match expr_of(cx, st, cond) {
                    Some((st, cond)) => {
                        let header_exit = st.current;
                        match opened(st, BlockKind::Body, held_here(st)) {
                            Some((st, body_id)) => match block_of(cx, looped(st, base), body) {
                                Some(st) => {
                                    let frame = st.loops.last();
                                    let body_exit = st.current;
                                    if frame.continues.len() > 0 {
                                        match opened(unlooped(st), BlockKind::Step, base) {
                                            Some((opened, latch)) => match stmt_of(
                                                cx,
                                                opened,
                                                *step,
                                            ) {
                                                Some(st) => loop_closed(
                                                    ended(
                                                        stepped(opened, st),
                                                        body_exit,
                                                        TermView::jump(latch),
                                                    ),
                                                    before,
                                                    header,
                                                    cond,
                                                    header_exit,
                                                    body_id,
                                                    latch,
                                                    frame,
                                                ),
                                                None => None,
                                            },
                                            None => None,
                                        }
                                    } else {
                                        let bodied = unlooped(st);
                                        match stmt_of(cx, bodied, *step) {
                                            Some(st) => loop_closed(
                                                stepped(bodied, st),
                                                before,
                                                header,
                                                cond,
                                                header_exit,
                                                body_id,
                                                header,
                                                frame,
                                            ),
                                            None => None,
                                        }
                                    }
                                },
                                None => None,
                            },
                            None => None,
                        }
                    },
                    None => None,
                },
                None => None,
            }
        },
        _ => None,
    }
}

/// A loop once its body and step are there: every block along the way sent
/// where it goes.
pub open spec fn loop_closed(
    st: State,
    before: BlockId,
    header: BlockId,
    cond: Value,
    header_exit: BlockId,
    body: BlockId,
    latch: BlockId,
    frame: LoopView,
) -> Option<State> {
    let latch_exit = st.current;
    match opened(st, BlockKind::Done, frame.base) {
        Some((st, after)) => {
            let st = ended(st, before, TermView::jump(header));
            let st = ended(st, header_exit, TermView::branch(cond, body, after));
            let st = ended(st, latch_exit, TermView::jump(header));
            let st = all_sent(st, frame.continues, latch, 0);
            let st = all_sent(st, frame.breaks, after, 0);
            Some(switched(st, after))
        },
        None => None,
    }
}

/// A block finished with what is returned, and one opened for whatever is
/// written next, which nothing reaches.
pub open spec fn returned(st: State, value: Option<Value>) -> Option<State> {
    match opened(
        ended(st, st.current, TermView::Return(value)),
        BlockKind::Unreachable,
        Set::full(),
    ) {
        Some((st, _)) => Some(st),
        None => None,
    }
}

/// A `return`. An aggregate answer is copied into the room the caller reserved;
/// a list somebody else owns is copied here.
pub open spec fn return_of(cx: ContextView, st: State, s: Stmt) -> Option<State>
    decreases s, 10int, 0int,
{
    match s {
        Stmt::Return { value } => match value {
            None => returned(st, None),
            Some(e) => match st.out_pointer {
                Some(out) => return_through_of(cx, st, out, e),
                None => return_value_of(cx, st, e),
            },
        },
        _ => None,
    }
}

/// A `return` into the room the caller reserved.
pub open spec fn return_through_of(cx: ContextView, st: State, out: VReg, e: Expr) -> Option<State>
    decreases e, 90int, 0int,
{
    match write_through_of(cx, st, Value::Reg(out), e, Room::Fresh) {
        Some(st) => returned(st, None),
        None => None,
    }
}

/// A `return` of a value in a register.
pub open spec fn return_value_of(cx: ContextView, st: State, e: Expr) -> Option<State>
    decreases e, 80int, 0int,
{
    match type_of(cx, e.id) {
        Some(ty) => if ty is List {
            match temp(st) {
                Some((st, dst)) => match keep_into_of(cx, st, dst, e) {
                    Some(st) => returned(st, Some(Value::Reg(dst))),
                    None => None,
                },
                None => None,
            }
        } else {
            match expr_of(cx, st, e) {
                Some((st, value)) => returned(st, Some(value)),
                None => None,
            }
        },
        None => None,
    }
}

/// A `break` or a `continue`: the block it ends is handed to the innermost loop.
pub open spec fn jumped(st: State, breaks: bool) -> Option<State> {
    if st.loops.len() > 0 {
        match opened(owed(st, breaks), BlockKind::Unreachable, Set::full()) {
            Some((st, _)) => Some(st),
            None => None,
        }
    } else {
        None
    }
}

/// A call whose answer is thrown away. One that does not fit in a register still
/// needs room to go in.
pub open spec fn call_stmt_of(cx: ContextView, st: State, e: Expr) -> Option<State>
    decreases e, 20int, 0int,
{
    match e.kind {
        ExprKind::MethodCall { .. } => method_call_of(cx, st, None, e),
        _ => match builtin_of(e) {
            Some(builtin) => builtin_call_of(cx, st, None, builtin, e),
            None => match call_parts_of(cx, st, e) {
                Some((st, callee, args)) => match room_handed(
                    cx,
                    st,
                    None,
                    cx.types.returns@[callee.0 as int],
                    args,
                ) {
                    Some((st, dst, args)) => Some(
                        emitted(st, InstrView::Call { dst, callee, args }),
                    ),
                    None => None,
                },
                None => None,
            },
        },
    }
}

/// A statement.
pub open spec fn stmt_of(cx: ContextView, st: State, s: Stmt) -> Option<State>
    decreases s, 35int, 0int,
{
    stmt_body(cx, st, s)
}

/// What [`stmt_of`] is, case by case.
pub open spec fn stmt_body(cx: ContextView, st: State, s: Stmt) -> Option<State>
    decreases s, 30int, 0int,
{
    match s {
        Stmt::Decl { .. } => declaration_of(cx, st, s),
        Stmt::Assign { .. } => assignment_of(cx, st, s),
        Stmt::Push { .. } => push_of(cx, st, s),
        Stmt::Print { newline, parts } => print_of(cx, st, newline, parts),
        Stmt::If { .. } => if_of(cx, st, s),
        Stmt::While { .. } => loop_of(cx, st, s),
        // `for (init; cond; step) body` is `init; while (cond) { body; step; }`
        // with the initialiser's variable scoped to the loop.
        Stmt::For { init, cond, step, body } => match stmt_of(cx, entered(st), *init) {
            Some(inner) => match loop_of(cx, inner, s) {
                Some(after) => Some(State { frame_bytes: st.frame_bytes, ..left(after) }),
                None => None,
            },
            None => None,
        },
        Stmt::Return { .. } => return_of(cx, st, s),
        Stmt::Match(e) => match_of(cx, st, None, e),
        Stmt::Break => jumped(st, true),
        Stmt::Continue => jumped(st, false),
        Stmt::Call(e) => call_stmt_of(cx, st, e),
    }
}

} // verus!
