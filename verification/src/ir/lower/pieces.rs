//! What the smaller pieces of lowering come to.

use vstd::prelude::*;

use super::dispatch::first_is_first;
use super::machine::{
    both_appended, code, expressions_are_worth_what_they_say, holds_vars, nothing_appended,
    one_appended, operand_right, operands_are_right, pair_right, plain, runs, runs_one,
    scopes_exist, straight, temp_is_new, went_on_twice, worth_of, Machine,
};
use super::meaning::{
    append_of, arm_tested, conversion, convert_into_of, expr_of, length_value_of, literal_into,
    push_back, pushed_to_of, string_op_of, strings_compared, type_of,
};
use super::program::params_from;
use super::rooms::room_is_made;
use super::state::{
    allocated, bound, called, emitted, first_at, interned, interned_text, met, named, temp,
    ContextView, State,
};
use super::variants::called_is_bound;
use crate::ast::{CmpOp, Expr, ExprKind, Param, Pattern, Place, Prim, Ty};
use crate::ir::exact::rounds_to;
use crate::ir::instr::{InstrView, Runtime};
use crate::ir::value::{Num, VReg, Value};

verus! {

// -- literals ---------------------------------------------------------------

/// **A string literal is kept once, and found where it is kept.** Its number is that of
/// the first entry that is it; what was kept before stays where it was; and one more is
/// kept only where there was none.
pub proof fn literals_are_kept_once(st: State, chars: Seq<char>)
    requires
        st.strings.len() <= u32::MAX,
        interned(st, chars) is Some,
    ensures
        ({
            let (after, id) = interned(st, chars)->0;
            &&& id.0 < after.strings.len()
            &&& after.strings[id.0 as int] == chars
            &&& forall|k: int| 0 <= k < id.0 ==> #[trigger] after.strings[k] != chars
            &&& forall|k: int|
                0 <= k < st.strings.len() ==> #[trigger] after.strings[k] == st.strings[k]
            &&& after.strings.len() == st.strings.len() + (if st.strings.contains(chars) {
                0int
            } else {
                1
            })
            &&& after.texts == st.texts
            &&& after.blocks == st.blocks
            &&& after.names == st.names
            &&& after.scopes == st.scopes
        }),
{
    reveal(interned);
    first_is_first(st.strings, chars, 0);
    if let Some(at) = first_at(st.strings, chars, 0) {
        assert(st.strings[at as int] == chars);
    }
}

/// **So is a run of text.**
pub proof fn texts_are_kept_once(st: State, text: Seq<char>)
    requires
        st.texts.len() <= u32::MAX,
        interned_text(st, text) is Some,
    ensures
        ({
            let (after, id) = interned_text(st, text)->0;
            &&& id.0 < after.texts.len()
            &&& after.texts[id.0 as int] == text
            &&& forall|k: int| 0 <= k < id.0 ==> #[trigger] after.texts[k] != text
            &&& forall|k: int|
                0 <= k < st.texts.len() ==> #[trigger] after.texts[k] == st.texts[k]
            &&& after.texts.len() == st.texts.len() + (if st.texts.contains(text) {
                0int
            } else {
                1
            })
            &&& after.strings == st.strings
            &&& after.blocks == st.blocks
            &&& after.current == st.current
            &&& after.names == st.names
            &&& after.scopes == st.scopes
        }),
{
    reveal(interned_text);
    first_is_first(st.texts, text, 0);
    if let Some(at) = first_at(st.texts, text, 0) {
        assert(st.texts[at as int] == text);
    }
}

// -- parameters -------------------------------------------------------------

/// **Parameters arrive in the order they are declared.** The `j`th is the `j`th thing a
/// call is given, behind the address of room for an answer where there is one; it arrives
/// in a register of its own, and its name stands for that register and its own type.
pub proof fn parameters_arrive_in_order(
    st: State,
    params: Seq<Param>,
    types: Seq<Ty>,
    first: u32,
    i: int,
    regs: Seq<VReg>,
)
    requires
        0 <= i <= params.len(),
        params.len() == types.len(),
        regs.len() == i,
        st.current.0 < st.blocks.len(),
        st.scopes.len() > 0,
        forall|a: int, b: int|
            #![trigger params[a], params[b]]
            0 <= a < b < params.len() ==> params[a].name@ != params[b].name@,
        params_from(st, params, types, first, i, regs) is Some,
    ensures
        ({
            let (after, given) = params_from(st, params, types, first, i, regs)->0;
            &&& straight(st, after)
            &&& given.len() == params.len()
            &&& forall|j: int| 0 <= j < i ==> #[trigger] given[j] == regs[j]
            &&& code(st, after).len() == params.len() - i
            &&& after.names.len() == st.names.len() + params.len() - i
            &&& forall|j: int|
                #![trigger given[j]]
                i <= j < params.len() ==> {
                    &&& code(st, after)[j - i] == InstrView::Param {
                        dst: given[j],
                        index: (first + j) as u32,
                    }
                    &&& first + j <= u32::MAX
                    &&& given[j].0 == st.names.len() + j - i
                    &&& bound(after, params[j].name@) == Some((given[j], types[j]))
                }
            &&& forall|name: Seq<char>|
                (forall|j: int| i <= j < params.len() ==> (#[trigger] params[j]).name@ != name)
                    ==> #[trigger] bound(after, name) == bound(st, name)
        }),
    decreases params.len() - i,
{
    let (after, given) = params_from(st, params, types, first, i, regs)->0;
    if i < params.len() {
        let name = params[i].name@;
        let (made, dst) = named(st, name)->0;
        let instr = InstrView::Param { dst, index: (i + first) as u32 };
        let put = emitted(made, instr);
        let next = called(put, name, dst, types[i]);
        reveal(named);
        nothing_appended(st, made);
        one_appended(made, instr);
        both_appended(st, made, put);
        assert(next.blocks == put.blocks && next.current == put.current && next.names
            == put.names) by {
            reveal(called);
        }
        nothing_appended(put, next);
        both_appended(st, put, next);
        assert(code(st, next) =~= seq![instr]);
        called_is_bound(put, name, dst, types[i], name);
        parameters_arrive_in_order(next, params, types, first, i + 1, regs.push(dst));
        both_appended(st, next, after);
        assert(given[i] == regs.push(dst)[i]);
        assert(bound(after, name) == bound(next, name)) by {
            assert forall|j: int| i + 1 <= j < params.len() implies (#[trigger] params[j]).name@
                != name by {
                assert(params[i].name@ != params[j].name@);
            }
        }
        assert forall|j: int| #![trigger given[j]] i <= j < params.len() implies {
            &&& code(st, after)[j - i] == InstrView::Param {
                dst: given[j],
                index: (first + j) as u32,
            }
            &&& first + j <= u32::MAX
            &&& given[j].0 == st.names.len() + j - i
            &&& bound(after, params[j].name@) == Some((given[j], types[j]))
        } by {
            if j > i {
                assert(code(st, after)[j - i] == code(next, after)[j - i - 1]);
            }
        }
        assert forall|j: int| 0 <= j < i implies #[trigger] given[j] == regs[j] by {
            assert(given[j] == regs.push(dst)[j]);
        }
        assert forall|other: Seq<char>|
            (forall|j: int| i <= j < params.len() ==> (#[trigger] params[j]).name@ != other) implies
            #[trigger] bound(after, other) == bound(st, other) by {
            assert(params[i].name@ != other);
            called_is_bound(put, name, dst, types[i], other);
            assert(bound(after, other) == bound(next, other));
            assert(bound(put, other) == bound(st, other)) by {
                reveal(bound);
            }
        }
    } else {
        nothing_appended(st, after);
    }
}

// -- room -------------------------------------------------------------------

/// **Room in the frame is nobody else's.** What is reserved starts where everything
/// reserved so far ends, and the frame is big enough for it.
pub proof fn rooms_do_not_overlap(st: State, dst: VReg, bytes: u32)
    requires
        st.current.0 < st.blocks.len(),
        st.frame_bytes + bytes <= u32::MAX,
    ensures
        ({
            let after = allocated(st, dst, bytes);
            &&& code(st, after).len() == 1
            &&& code(st, after)[0] matches InstrView::Frame { dst: to, offset } && to == dst
                && st.frame_bytes <= offset && offset + bytes <= after.frame_bytes
            &&& after.frame_bytes <= after.frame_peak
            &&& st.frame_peak <= after.frame_peak
            &&& after.frame_bytes - st.frame_bytes == bytes
        }),
{
    room_is_made(st, dst, bytes);
    reveal(allocated);
    reveal(emitted);
}

// -- strings ----------------------------------------------------------------

/// **Strings are joined in the order they are written.**
pub proof fn strings_are_joined_in_order(
    cx: ContextView,
    st: State,
    dst: VReg,
    e: Expr,
    m: Machine,
    n: Machine,
    vars: Map<Seq<char>, i64>,
)
    requires
        e.kind matches ExprKind::Bin { op, lhs, rhs } && plain(cx, *lhs) && plain(cx, *rhs),
        scopes_exist(st),
        st.names.len() <= u32::MAX,
        st.current.0 < st.blocks.len(),
        string_op_of(cx, st, dst, e) is Some,
        holds_vars(st, m, vars),
        runs(code(st, string_op_of(cx, st, dst, e)->0).drop_last(), m, n),
    ensures
        ({
            let lhs = *e.kind->Bin_lhs;
            let rhs = *e.kind->Bin_rhs;
            code(st, string_op_of(cx, st, dst, e)->0).last() matches InstrView::RtCall {
                dst: to,
                callee,
                args,
            } && to == Some(dst) && callee == Runtime::Concat && args.len() == 2 && (worth_of(
                cx,
                vars,
                lhs,
            ) matches Some(w) ==> n.worth(args[0]) == w) && (worth_of(cx, vars, rhs) matches Some(
                w,
            ) ==> n.worth(args[1]) == w)
        }),
{
    let lhs = *e.kind->Bin_lhs;
    let rhs = *e.kind->Bin_rhs;
    operands_are_right(cx, st, e, lhs, rhs);
    let (mid, a, b) = super::meaning::operands_of(cx, st, e)->0;
    let instr = InstrView::RtCall { dst: Some(dst), callee: Runtime::Concat, args: seq![a, b] };
    let after = string_op_of(cx, st, dst, e)->0;
    assert(after == emitted(mid, instr));
    one_appended(mid, instr);
    went_on_twice(st, mid, after);
    assert(code(st, after).drop_last() =~= code(st, mid));
    assert(pair_right(cx, st, lhs, rhs, mid, a, b));
}

/// **Strings are compared with each other**: `==` is the routine's own answer, and `!=`
/// the opposite of it.
pub proof fn strings_are_compared(
    st: State,
    dst: VReg,
    op: CmpOp,
    a: Value,
    b: Value,
    m: Machine,
    n: Machine,
)
    requires
        st.current.0 < st.blocks.len(),
        strings_compared(st, dst, op, a, b) is Some,
        op is Eq || op is Ne,
        runs(code(st, strings_compared(st, dst, op, a, b)->0).skip(1), m, n),
    ensures
        ({
            let first = code(st, strings_compared(st, dst, op, a, b)->0)[0];
            &&& code(st, strings_compared(st, dst, op, a, b)->0).len() > 0
            &&& first matches InstrView::RtCall { dst: Some(told), callee, args } && callee
                == Runtime::StrEq && args == seq![a, b] && (if op is Eq {
                n == m && told == dst
            } else {
                n.regs[dst] == (if m.regs[told] == 0 {
                    1int
                } else {
                    0
                })
            })
        }),
{
    let after = strings_compared(st, dst, op, a, b)->0;
    if op is Eq {
        let instr = InstrView::RtCall {
            dst: Some(dst),
            callee: Runtime::StrEq,
            args: seq![a, b],
        };
        one_appended(st, instr);
        assert(code(st, after).skip(1) =~= Seq::<InstrView>::empty());
    } else {
        let (made, same) = temp(st)->0;
        let asked = InstrView::RtCall {
            dst: Some(same),
            callee: Runtime::StrEq,
            args: seq![a, b],
        };
        let turned = InstrView::Cmp {
            num: Num::Int,
            op: CmpOp::Eq,
            dst,
            lhs: Value::Reg(same),
            rhs: Value::Const(0),
        };
        super::machine::one_into_a_new_register(st, asked);
        let mid = emitted(made, asked);
        one_appended(mid, turned);
        both_appended(st, mid, after);
        assert(code(st, after) =~= seq![asked, turned]);
        assert(code(st, after).skip(1) =~= seq![turned]);
        runs_one(turned, m, n);
    }
}

/// What is added to a variable one behind the other: the right sides of a chain of `+`.
pub open spec fn added(e: Expr) -> Seq<Expr>
    decreases e,
{
    match e.kind {
        ExprKind::Bin { op, lhs, rhs } => added(*lhs).push(*rhs),
        _ => seq![],
    }
}

/// **A string grows by what is added to it, from left to right.**
pub proof fn strings_grow_in_order(cx: ContextView, st: State, dst: VReg, e: Expr)
    requires
        forall|j: int| 0 <= j < added(e).len() ==> (#[trigger] added(e)[j]).kind is Var,
        st.current.0 < st.blocks.len(),
        append_of(cx, st, dst, e) is Some,
    ensures
        ({
            let after = append_of(cx, st, dst, e)->0;
            &&& straight(st, after)
            &&& after.scopes == st.scopes
            &&& code(st, after).len() == added(e).len()
            &&& forall|j: int|
                #![trigger added(e)[j]]
                0 <= j < added(e).len() ==> {
                    &&& bound(st, added(e)[j].kind->Var_0@) is Some
                    &&& code(st, after)[j] == InstrView::RtCall {
                        dst: Some(dst),
                        callee: Runtime::Append,
                        args: seq![
                            Value::Reg(dst),
                            Value::Reg((bound(st, added(e)[j].kind->Var_0@)->0).0),
                            Value::Const(0),
                        ],
                    }
                }
        }),
    decreases e,
{
    let after = append_of(cx, st, dst, e)->0;
    match e.kind {
        ExprKind::Bin { op, lhs, rhs } => {
            let mid = append_of(cx, st, dst, *lhs)->0;
            let front = added(*lhs);
            assert forall|j: int| 0 <= j < front.len() implies (#[trigger] front[j]).kind is Var by {
                assert(added(e)[j] == front[j]);
            }
            strings_grow_in_order(cx, st, dst, *lhs);
            assert(added(e)[front.len() as int] == *rhs);
            assert(rhs.kind is Var);
            let name = rhs.kind->Var_0@;
            assert(expr_of(cx, mid, *rhs) == super::meaning::expr_body(cx, mid, *rhs));
            let reg = (bound(mid, name)->0).0;
            assert(bound(mid, name) == bound(st, name)) by {
                reveal(bound);
            }
            let read = met(mid, reg);
            nothing_appended(mid, read);
            let instr = InstrView::RtCall {
                dst: Some(dst),
                callee: Runtime::Append,
                args: seq![Value::Reg(dst), Value::Reg(reg), Value::Const(0)],
            };
            assert(after == emitted(read, instr));
            one_appended(read, instr);
            both_appended(mid, read, after);
            both_appended(st, mid, after);
            assert(code(mid, after) =~= seq![instr]);
            assert forall|j: int| #![trigger added(e)[j]] 0 <= j < added(e).len() implies {
                &&& bound(st, added(e)[j].kind->Var_0@) is Some
                &&& code(st, after)[j] == InstrView::RtCall {
                    dst: Some(dst),
                    callee: Runtime::Append,
                    args: seq![
                        Value::Reg(dst),
                        Value::Reg((bound(st, added(e)[j].kind->Var_0@)->0).0),
                        Value::Const(0),
                    ],
                }
            } by {
                if j < front.len() {
                    assert(added(e)[j] == front[j]);
                    assert(code(st, after)[j] == code(st, mid)[j]);
                }
            }
        },
        _ => {
            nothing_appended(st, after);
        },
    }
}

// -- lists ------------------------------------------------------------------

/// **A push hands over the list and then the value, and puts the list back where it was.**
pub proof fn pushes_put_the_list_back(
    st: State,
    addr: VReg,
    callee: Runtime,
    rest: Seq<Value>,
)
    requires
        st.current.0 < st.blocks.len(),
        addr.0 < st.names.len(),
        push_back(st, addr, callee, rest) is Some,
    ensures
        ({
            let steps = code(st, push_back(st, addr, callee, rest)->0);
            &&& steps.len() == 3
            &&& steps[0] matches InstrView::Load { dst: held, addr: from } && from == Value::Reg(
                addr,
            ) && (steps[1] matches InstrView::RtCall { dst: Some(grown), callee: by, args } && by
                == callee && args == seq![Value::Reg(held)] + rest && (
            steps[2] matches InstrView::Store { addr: to, value } && to == Value::Reg(addr)
                && value == Value::Reg(grown) && grown != addr && held != addr && grown != held))
        }),
{
    let after = push_back(st, addr, callee, rest)->0;
    let (one, held) = temp(st)->0;
    let load = InstrView::Load { dst: held, addr: Value::Reg(addr) };
    super::machine::one_into_a_new_register(st, load);
    let two = emitted(one, load);
    let (three, grown) = temp(two)->0;
    let call = InstrView::RtCall {
        dst: Some(grown),
        callee,
        args: seq![Value::Reg(held)] + rest,
    };
    super::machine::one_into_a_new_register(two, call);
    let four = emitted(three, call);
    let store = InstrView::Store { addr: Value::Reg(addr), value: Value::Reg(grown) };
    one_appended(four, store);
    both_appended(st, two, four);
    both_appended(st, four, after);
    assert(code(st, after) =~= seq![load, call, store]);
}

/// **A push to a variable grows that variable.**
pub proof fn pushes_grow_their_variable(
    cx: ContextView,
    st: State,
    callee: Runtime,
    rest: Seq<Value>,
    name: String,
)
    requires
        st.current.0 < st.blocks.len(),
        pushed_to_of(cx, st, callee, rest, (Place::Var { name })) is Some,
    ensures
        bound(st, name@) is Some,
        code(st, pushed_to_of(cx, st, callee, rest, (Place::Var { name }))->0) == seq![
            InstrView::RtCall {
                dst: Some((bound(st, name@)->0).0),
                callee,
                args: seq![Value::Reg((bound(st, name@)->0).0)] + rest,
            },
        ],
{
    let dst = (bound(st, name@)->0).0;
    let read = met(st, dst);
    let instr = InstrView::RtCall {
        dst: Some(dst),
        callee,
        args: seq![Value::Reg(dst)] + rest,
    };
    nothing_appended(st, read);
    one_appended(read, instr);
    both_appended(st, read, emitted(read, instr));
    assert(Seq::<InstrView>::empty() + seq![instr] =~= seq![instr]);
}

// -- conversions ------------------------------------------------------------

/// **A conversion is what its two types say.** A number known here is converted here: an
/// integer to the double nearest to it, and a double to the integer it is cut down to,
/// where there is one; a code point that is one stays as it is. Anything else is asked of
/// the machine, or of the routine that is for it.
pub proof fn conversions_are_what_they_say(dst: VReg, from: Ty, to: Prim, src: Value)
    ensures
        ({
            let instr = conversion(dst, from, to, src);
            &&& from == Ty::Int && to == Prim::Float ==> {
                &&& src matches Value::Const(c) ==> (instr matches InstrView::Const {
                    dst: at,
                    val,
                } && at == dst && rounds_to(val, c * crate::float::unit(), 1))
                &&& src is Reg ==> instr == (InstrView::Cast { dst, to: Num::Float, src })
            }
            &&& from == Ty::Float && to == Prim::Int ==> {
                &&& instr is Const ==> {
                    &&& src is Const
                    &&& instr->Const_dst == dst
                    &&& cut_down(crate::ir::fold::bits(src->Const_0), instr->Const_val as int)
                }
                &&& instr is Const || instr == (InstrView::Cast { dst, to: Num::Int, src })
                &&& forall|c: i64, v: i64|
                    src == Value::Const(c) && #[trigger] cut_down(
                        crate::ir::fold::bits(c),
                        v as int,
                    ) ==> instr is Const
            }
            &&& from == Ty::Int && to == Prim::Char ==> {
                let fits = src matches Value::Const(c) && (0 <= c < 0xD800 || 0xE000 <= c
                    <= 0x10FFFF);
                instr == if fits {
                    InstrView::Copy { dst, src }
                } else {
                    InstrView::RtCall {
                        dst: Some(dst),
                        callee: Runtime::CheckChar,
                        args: seq![src],
                    }
                }
            }
            &&& from == Ty::Str && to == Prim::Int ==> asks_for(instr, dst, Runtime::StrToInt, src)
            &&& from == Ty::Char && to == Prim::Str ==> asks_for(
                instr,
                dst,
                Runtime::CharToStr,
                src,
            )
            &&& from == Ty::Int && to == Prim::Str ==> asks_for(instr, dst, Runtime::IntToStr, src)
            &&& from is List && to == Prim::Str ==> asks_for(instr, dst, Runtime::CharsToStr, src)
            &&& from == Ty::Char && to == Prim::Int ==> instr == (InstrView::Copy { dst, src })
        }),
{
    let instr = conversion(dst, from, to, src);
    if from == Ty::Int && to == Prim::Float {
        if let Value::Const(c) = src {
            crate::ir::exact::whole_numbers_are_nearest(c);
        }
    }
    if from == Ty::Float && to == Prim::Int {
        if let Value::Const(c) = src {
            let b = crate::ir::fold::bits(c);
            if crate::float::fits_an_int(b) {
                crate::ir::exact::whole_parts_are_cut_down(b);
            }
            assert forall|x: i64, v: i64|
                src == Value::Const(x) && #[trigger] cut_down(
                    crate::ir::fold::bits(x),
                    v as int,
                ) implies instr is Const by {
                crate::ir::exact::one_whole_part(b, v as int);
            }
        }
    }
}

/// Whether an integer is what a double is cut down to, towards zero.
pub open spec fn cut_down(b: u64, whole: int) -> bool {
    let n = crate::float::signed_worth(b);
    &&& crate::ir::exact::is_finite(b)
    &&& n >= 0 ==> whole >= 0 && whole * crate::float::unit() <= n < (whole + 1)
        * crate::float::unit()
    &&& n < 0 ==> whole <= 0 && (whole - 1) * crate::float::unit() < n <= whole
        * crate::float::unit()
}

/// Whether an instruction asks a routine about one thing.
pub open spec fn asks_for(instr: InstrView, dst: VReg, callee: Runtime, src: Value) -> bool {
    instr matches InstrView::RtCall { dst: at, callee: by, args } && at == Some(dst) && by
        == callee && args == seq![src]
}

// -- lengths ----------------------------------------------------------------

/// **The length of an array is the one its type has**; nothing is run to find it.
pub proof fn lengths_of_arrays_are_known(cx: ContextView, st: State, e: Expr)
    requires
        e.kind matches ExprKind::Len { array } && (type_of(cx, array.id) matches Some(Ty::Array(
            id,
        ))),
    ensures
        length_value_of(cx, st, e) == Some(
            (
                st,
                Value::Const(
                    cx.types.table.arrays@[(type_of(
                        cx,
                        (*e.kind->Len_array).id,
                    )->0)->Array_0.0 as int].len as i64,
                ),
            ),
        ),
{
}

/// **The length of a string or a list is counted where it stands.**
pub proof fn lengths_are_counted(
    cx: ContextView,
    st: State,
    e: Expr,
    m: Machine,
    n: Machine,
    vars: Map<Seq<char>, i64>,
)
    requires
        e.kind matches ExprKind::Len { array } && plain(cx, *array) && (type_of(
            cx,
            array.id,
        ) matches Some(ty) && !(ty is Array)),
        scopes_exist(st),
        st.names.len() <= u32::MAX,
        st.current.0 < st.blocks.len(),
        length_value_of(cx, st, e) is Some,
        holds_vars(st, m, vars),
        runs(code(st, (length_value_of(cx, st, e)->0).0).drop_last(), m, n),
    ensures
        ({
            let (after, value) = length_value_of(cx, st, e)->0;
            code(st, after).last() matches InstrView::Count { dst, of } && value == Value::Reg(dst)
                && (worth_of(cx, vars, *e.kind->Len_array) matches Some(w) ==> n.worth(of) == w)
        }),
{
    let array = *e.kind->Len_array;
    let (after, value) = length_value_of(cx, st, e)->0;
    expressions_are_worth_what_they_say(cx, st, array);
    let (mid, of) = expr_of(cx, st, array)->0;
    reveal(super::state::measure);
    let (made, dst) = super::state::measure(mid)->0;
    temp_is_new(mid);
    let instr = InstrView::Count { dst, of };
    nothing_appended(mid, made);
    one_appended(made, instr);
    both_appended(mid, made, after);
    both_appended(st, mid, after);
    assert(code(st, after) =~= code(st, mid).push(instr));
    assert(code(st, after).drop_last() =~= code(st, mid));
    assert(operand_right(cx, st, array, mid, of));
}

/// **What is converted is what the expression is worth**, from its own type.
pub proof fn conversions_are_of_their_operand(
    cx: ContextView,
    st: State,
    dst: VReg,
    to: Prim,
    e: Expr,
    m: Machine,
    n: Machine,
    vars: Map<Seq<char>, i64>,
)
    requires
        plain(cx, e),
        scopes_exist(st),
        st.names.len() <= u32::MAX,
        st.current.0 < st.blocks.len(),
        convert_into_of(cx, st, dst, to, e) is Some,
        holds_vars(st, m, vars),
        runs(code(st, convert_into_of(cx, st, dst, to, e)->0).drop_last(), m, n),
    ensures
        ({
            let src = (expr_of(cx, st, e)->0).1;
            &&& type_of(cx, e.id) is Some
            &&& code(st, convert_into_of(cx, st, dst, to, e)->0).last() == conversion(
                dst,
                type_of(cx, e.id)->0,
                to,
                src,
            )
            &&& worth_of(cx, vars, e) matches Some(w) ==> n.worth(src) == w
        }),
{
    let after = convert_into_of(cx, st, dst, to, e)->0;
    expressions_are_worth_what_they_say(cx, st, e);
    let (mid, src) = expr_of(cx, st, e)->0;
    let instr = conversion(dst, type_of(cx, e.id)->0, to, src);
    one_appended(mid, instr);
    both_appended(st, mid, after);
    assert(code(st, after) =~= code(st, mid).push(instr));
    assert(code(st, after).drop_last() =~= code(st, mid));
    assert(operand_right(cx, st, e, mid, src));
}

/// **A string literal is pointed at where it is kept.**
pub proof fn literals_are_pointed_at(st: State, dst: VReg, chars: Seq<char>)
    requires
        st.strings.len() <= u32::MAX,
        st.current.0 < st.blocks.len(),
        literal_into(st, dst, chars) is Some,
    ensures
        ({
            let after = literal_into(st, dst, chars)->0;
            &&& code(st, after).len() == 1
            &&& code(st, after)[0] matches InstrView::StrAddr { dst: to, id } && to == dst && id.0
                < after.strings.len() && after.strings[id.0 as int] == chars
        }),
{
    let after = literal_into(st, dst, chars)->0;
    let (mid, id) = interned(st, chars)->0;
    literals_are_kept_once(st, chars);
    assert(mid.current == st.current) by {
        reveal(interned);
    }
    let instr = InstrView::StrAddr { dst, id };
    nothing_appended(st, mid);
    one_appended(mid, instr);
    both_appended(st, mid, after);
    assert(code(st, after) =~= seq![instr]);
    assert(after.strings == mid.strings) by {
        reveal(emitted);
    }
}

/// **A string pattern is held against its own literal.**
pub proof fn string_patterns_are_compared(
    cx: ContextView,
    st: State,
    ty: Ty,
    value: Value,
    chars: Vec<char>,
)
    requires
        st.strings.len() <= u32::MAX,
        st.current.0 < st.blocks.len(),
        arm_tested(cx, st, ty, value, Pattern::Str(chars)) is Some,
    ensures
        ({
            let (after, told) = arm_tested(cx, st, ty, value, Pattern::Str(chars))->0;
            let steps = code(st, after);
            &&& steps.len() == 2
            &&& steps[0] matches InstrView::StrAddr { dst: literal, id } && id.0
                < after.strings.len() && after.strings[id.0 as int] == chars@ && (
            steps[1] matches InstrView::RtCall { dst: Some(dst), callee, args } && told
                == Value::Reg(dst) && callee == Runtime::StrEq && args == seq![
                value,
                Value::Reg(literal),
            ])
        }),
{
    let (after, told) = arm_tested(cx, st, ty, value, Pattern::Str(chars))->0;
    let (one, id) = interned(st, chars@)->0;
    literals_are_kept_once(st, chars@);
    assert(one.current == st.current) by {
        reveal(interned);
    }
    let (two, literal) = temp(one)->0;
    let point = InstrView::StrAddr { dst: literal, id };
    super::machine::one_into_a_new_register(one, point);
    let three = emitted(two, point);
    let (four, dst) = temp(three)->0;
    let ask = InstrView::RtCall {
        dst: Some(dst),
        callee: Runtime::StrEq,
        args: seq![value, Value::Reg(literal)],
    };
    super::machine::one_into_a_new_register(three, ask);
    nothing_appended(st, one);
    both_appended(st, one, three);
    both_appended(st, three, after);
    assert(code(st, after) =~= seq![point, ask]);
    assert(after.strings == one.strings) by {
        reveal(emitted);
        reveal(temp);
    }
}

} // verus!
