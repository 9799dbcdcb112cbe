//! That what is put into an array, a list or an object comes out of it.

use vstd::prelude::*;

use super::machine::{
    both_appended, code, expressions_are_worth_what_they_say, holds_vars, nothing_appended,
    one_appended, one_into_a_new_register, operand_right, plain, runs, runs_both, runs_nothing,
    runs_one, same_below, same_below_twice, scopes_exist, still_holds, temp_is_new, went_on,
    went_on_twice, worth_of, Machine,
};
use super::meaning::{
    array_into_of, assignment_of, elements_from, expr_of, field_at, field_into_of, fields_from,
    fill_object_of, index_address_of, index_value_of, place_address_of, place_type_of,
    place_value_of, shaped, type_of, write_through_of, Room,
};
use super::state::{allocated, bound, emitted, measure, temp, ContextView, State};
use super::variants::{plain_word, word_written};
use crate::ast::{field_named, ClassId, Expr, ExprKind, FieldInfo, FieldInit, Place, Stmt, Ty};
use crate::ir::instr::{InstrView, Runtime};
use crate::ir::value::{value_within, VReg, Value};

verus! {

// -- arrays and lists -------------------------------------------------------

/// What an array or a list holds.
pub open spec fn held_type(cx: ContextView, ty: Ty) -> Ty {
    match ty {
        Ty::Array(id) => cx.types.table.arrays@[id.0 as int].elem,
        Ty::List(id) => cx.types.table.lists@[id.0 as int],
        _ => ty,
    }
}

/// How far apart the elements of an array or a list are.
pub open spec fn stride(cx: ContextView, ty: Ty) -> int {
    cx.types.table.bytes_of(held_type(cx, ty)) as int
}

proof fn multiples_differ(i: int, j: int, scale: int)
    requires
        i != j,
        scale > 0,
    ensures
        i * scale != j * scale,
{
    assert(i * scale != j * scale) by (nonlinear_arith)
        requires
            i != j,
            scale > 0,
    ;
}

/// Whether a cell is none that the elements from `i` on go to.
pub open spec fn spared(c: int, base: int, scale: int, i: int, count: int) -> bool {
    forall|j: int| i <= j < count ==> c != base + #[trigger] (j * scale)
}

/// What a run that puts the elements from `i` on in their places leaves.
pub open spec fn laid_out(
    cx: ContextView,
    st: State,
    after: State,
    at: Value,
    scale: int,
    elements: Seq<Expr>,
    i: int,
) -> bool {
    forall|m: Machine, n: Machine, vars: Map<Seq<char>, i64>|
        #![trigger runs(code(st, after), m, n), holds_vars(st, m, vars)]
        runs(code(st, after), m, n) && holds_vars(st, m, vars) ==> {
            &&& forall|reg: VReg| reg.0 < st.names.len() ==> #[trigger] n.regs[reg] == m.regs[reg]
            &&& forall|j: int|
                i <= j < elements.len() && worth_of(cx, vars, #[trigger] elements[j]) is Some
                    ==> worth_of(cx, vars, elements[j]) == Some(n.cells[m.worth(at) + j * scale])
            &&& forall|c: int|
                #![trigger n.cells[c]]
                spared(c, m.worth(at) as int, scale, i, elements.len() as int) ==> n.cells[c]
                    == m.cells[c]
        }
}

pub proof fn elements_are_laid_out(
    cx: ContextView,
    st: State,
    at: Value,
    len: Value,
    scale: u32,
    elements: Vec<Expr>,
    i: int,
)
    requires
        scale > 0,
        0 <= i <= elements@.len() <= i64::MAX,
        forall|j: int| 0 <= j < elements@.len() ==> plain_word(cx, #[trigger] elements@[j]),
        scopes_exist(st),
        st.names.len() <= u32::MAX,
        st.current.0 < st.blocks.len(),
        value_within(at, st.names.len()),
        elements_from(cx, st, at, len, scale, elements, i) is Some,
    ensures
        went_on(st, elements_from(cx, st, at, len, scale, elements, i)->0),
        laid_out(
            cx,
            st,
            elements_from(cx, st, at, len, scale, elements, i)->0,
            at,
            scale as int,
            elements@,
            i,
        ),
    decreases elements@.len() - i,
{
    let after = elements_from(cx, st, at, len, scale, elements, i)->0;
    let count = elements@.len() as int;
    if i < count {
        let (made, addr) = temp(st)->0;
        let instr = InstrView::Elem {
            dst: addr,
            base: at,
            index: Value::Const(i as i64),
            len,
            scale,
        };
        let pointed = emitted(made, instr);
        one_into_a_new_register(st, instr);
        assert(scopes_exist(pointed));
        assert(plain_word(cx, elements@[i]));
        let put = write_through_of(cx, pointed, Value::Reg(addr), elements@[i], Room::Fresh)->0;
        word_written(cx, pointed, addr, elements@[i], Room::Fresh);
        went_on_twice(st, pointed, put);
        assert(scopes_exist(put));
        elements_are_laid_out(cx, put, at, len, scale, elements, i + 1);
        went_on_twice(st, put, after);
        assert forall|m: Machine, n: Machine, vars: Map<Seq<char>, i64>|
            #![trigger runs(code(st, after), m, n), holds_vars(st, m, vars)]
            runs(code(st, after), m, n) && holds_vars(st, m, vars) implies {
            &&& forall|reg: VReg| reg.0 < st.names.len() ==> #[trigger] n.regs[reg] == m.regs[reg]
            &&& forall|j: int|
                i <= j < count && worth_of(cx, vars, #[trigger] elements@[j]) is Some ==> worth_of(
                    cx,
                    vars,
                    elements@[j],
                ) == Some(n.cells[m.worth(at) + j * scale])
            &&& forall|c: int|
                #![trigger n.cells[c]]
                spared(c, m.worth(at) as int, scale as int, i, count) ==> n.cells[c] == m.cells[c]
        } by {
            let k = runs_both(code(st, put), code(put, after), m, n);
            let p = runs_both(code(st, pointed), code(pointed, put), m, k);
            runs_one(instr, m, p);
            assert(same_below(m, p, st.names.len()));
            still_holds(st, pointed, m, p, vars);
            let w = choose|w: i64| #[trigger]
                p.cells.insert(p.regs[addr] as int, w) == k.cells && (worth_of(
                    cx,
                    vars,
                    elements@[i],
                ) is Some ==> worth_of(cx, vars, elements@[i]) == Some(w));
            assert forall|reg: VReg| reg.0 < st.names.len() implies #[trigger] k.regs[reg]
                == m.regs[reg] by {
                assert(p.regs[reg] == m.regs[reg]);
                assert(k.regs[reg] == p.regs[reg]);
            }
            let quiet = Machine { regs: k.regs, cells: m.cells };
            still_holds(st, put, m, quiet, vars);
            assert(holds_vars(put, k, vars));
            assert(k.worth(at) == m.worth(at));
            assert(p.regs[addr] == m.worth(at) + i * scale);
            assert forall|j: int|
                i <= j < count && worth_of(cx, vars, #[trigger] elements@[j]) is Some implies
                worth_of(cx, vars, elements@[j]) == Some(n.cells[m.worth(at) + j * scale]) by {
                if j == i {
                    let c = m.worth(at) + i * scale;
                    assert forall|x: int| i + 1 <= x < count implies c != k.worth(at) + #[trigger] (
                    x * scale) by {
                        multiples_differ(i, x, scale as int);
                    }
                    assert(spared(c, k.worth(at) as int, scale as int, i + 1, count));
                    assert(n.cells[c] == k.cells[c]);
                }
            }
            assert forall|c: int|
                #![trigger n.cells[c]]
                spared(c, m.worth(at) as int, scale as int, i, count) implies n.cells[c]
                == m.cells[c] by {
                assert(c != m.worth(at) + i * scale);
                assert(spared(c, k.worth(at) as int, scale as int, i + 1, count));
                assert(n.cells[c] == k.cells[c]);
            }
            assert forall|reg: VReg| reg.0 < st.names.len() implies #[trigger] n.regs[reg]
                == m.regs[reg] by {
                assert(n.regs[reg] == k.regs[reg]);
            }
        }
    } else {
        nothing_appended(st, after);
        assert forall|m: Machine, n: Machine, vars: Map<Seq<char>, i64>|
            #![trigger runs(code(st, after), m, n), holds_vars(st, m, vars)]
            runs(code(st, after), m, n) && holds_vars(st, m, vars) implies n == m by {
            runs_nothing(m, n);
        }
    }
}

/// The count in front of a list read: it moves nothing but a new register.
proof fn shape_is_read(cx: ContextView, st: State, ty: Ty, base: Value)
    requires
        ty is Array || ty is List,
        st.names.len() <= u32::MAX,
        st.current.0 < st.blocks.len(),
        shaped(cx, st, ty, base) is Some,
    ensures
        ({
            let (after, len, scale) = shaped(cx, st, ty, base)->0;
            &&& went_on(st, after)
            &&& scale == stride(cx, ty)
            &&& ty matches Ty::Array(id) ==> len == Value::Const(
                cx.types.table.arrays@[id.0 as int].len as i64,
            )
            &&& forall|m: Machine, n: Machine|
                #![trigger runs(code(st, after), m, n)]
                runs(code(st, after), m, n) ==> same_below(m, n, st.names.len())
        }),
{
    let (after, len, scale) = shaped(cx, st, ty, base)->0;
    if ty is Array {
        nothing_appended(st, after);
        assert forall|m: Machine, n: Machine|
            #![trigger runs(code(st, after), m, n)]
            runs(code(st, after), m, n) implies same_below(m, n, st.names.len()) by {
            runs_nothing(m, n);
        }
    } else {
        reveal(measure);
        let (made, dst) = measure(st)->0;
        temp_is_new(st);
        assert(made.names.len() <= u32::MAX) by {
            reveal(temp);
        }
        let instr = InstrView::Count { dst, of: base };
        nothing_appended(st, made);
        one_appended(made, instr);
        both_appended(st, made, after);
        assert(code(st, after) =~= seq![instr]);
        assert forall|m: Machine, n: Machine|
            #![trigger runs(code(st, after), m, n)]
            runs(code(st, after), m, n) implies same_below(m, n, st.names.len()) by {
            runs_one(instr, m, n);
        }
    }
}

/// Whether a run leaves the address of an element in a register.
spec fn pointed_at(
    cx: ContextView,
    st: State,
    after: State,
    addr: VReg,
    array: Expr,
    index: Expr,
    step: int,
) -> bool {
    forall|m: Machine, n: Machine, vars: Map<Seq<char>, i64>|
        #![trigger runs(code(st, after), m, n), holds_vars(st, m, vars)]
        runs(code(st, after), m, n) && holds_vars(st, m, vars) ==> {
            &&& same_below(m, n, st.names.len())
            &&& worth_of(cx, vars, array) is Some && worth_of(cx, vars, index) is Some
                ==> n.regs[addr] == worth_of(cx, vars, array)->0 + worth_of(cx, vars, index)->0
                * step
        }
}

proof fn elements_are_pointed_at(cx: ContextView, st: State, e: Expr)
    requires
        e.kind matches ExprKind::Index { array, index } && plain(cx, *array) && plain(cx, *index)
            && (type_of(cx, array.id) matches Some(ty) && (ty is Array || ty is List)),
        scopes_exist(st),
        st.names.len() <= u32::MAX,
        st.current.0 < st.blocks.len(),
        index_address_of(cx, st, e) is Some,
    ensures
        ({
            let (after, addr) = index_address_of(cx, st, e)->0;
            &&& went_on(st, after)
            &&& addr.0 < after.names.len()
            &&& pointed_at(
                cx,
                st,
                after,
                addr,
                *e.kind->Index_array,
                *e.kind->Index_index,
                stride(cx, type_of(cx, (*e.kind->Index_array).id)->0),
            )
        }),
{
    let array = *e.kind->Index_array;
    let index = *e.kind->Index_index;
    let ty = type_of(cx, array.id)->0;
    let (after, addr) = index_address_of(cx, st, e)->0;
    let (one, base) = expr_of(cx, st, array)->0;
    expressions_are_worth_what_they_say(cx, st, array);
    let (two, len, scale) = shaped(cx, one, ty, base)->0;
    shape_is_read(cx, one, ty, base);
    assert(scopes_exist(two));
    let (three, at) = expr_of(cx, two, index)->0;
    expressions_are_worth_what_they_say(cx, two, index);
    let instr = InstrView::Elem { dst: addr, base, index: at, len, scale };
    one_into_a_new_register(three, instr);
    went_on_twice(st, one, two);
    went_on_twice(st, two, three);
    went_on_twice(st, three, after);
    assert forall|m: Machine, n: Machine, vars: Map<Seq<char>, i64>|
        #![trigger runs(code(st, after), m, n), holds_vars(st, m, vars)]
        runs(code(st, after), m, n) && holds_vars(st, m, vars) implies {
        &&& same_below(m, n, st.names.len())
        &&& worth_of(cx, vars, array) is Some && worth_of(cx, vars, index) is Some ==> n.regs[addr]
            == worth_of(cx, vars, array)->0 + worth_of(cx, vars, index)->0 * stride(cx, ty)
    } by {
        let c = runs_both(code(st, three), code(three, after), m, n);
        let b = runs_both(code(st, two), code(two, three), m, c);
        let a = runs_both(code(st, one), code(one, two), m, b);
        assert(operand_right(cx, st, array, one, base));
        same_below_twice(m, a, b, st.names.len(), one.names.len());
        still_holds(st, two, m, b, vars);
        assert(operand_right(cx, two, index, three, at));
        same_below_twice(m, b, c, st.names.len(), two.names.len());
        same_below_twice(a, b, c, one.names.len(), two.names.len());
        assert(c.worth(base) == a.worth(base));
        runs_one(instr, c, n);
        assert(same_below(c, n, three.names.len()));
        same_below_twice(m, c, n, st.names.len(), three.names.len());
    }
}

/// **An element is read where it stands**: at the address of what it is an element of,
/// and as many elements on as the index says.
pub proof fn elements_are_read_where_they_stand(
    cx: ContextView,
    st: State,
    e: Expr,
    m: Machine,
    n: Machine,
    vars: Map<Seq<char>, i64>,
)
    requires
        e.kind matches ExprKind::Index { array, index } && plain(cx, *array) && plain(cx, *index)
            && (type_of(cx, array.id) matches Some(ty) && (ty is Array || ty is List)),
        type_of(cx, e.id) matches Some(ty) && ty.in_a_register(),
        scopes_exist(st),
        st.names.len() <= u32::MAX,
        st.current.0 < st.blocks.len(),
        index_value_of(cx, st, e) is Some,
        runs(code(st, (index_value_of(cx, st, e)->0).0), m, n),
        holds_vars(st, m, vars),
        worth_of(cx, vars, *e.kind->Index_array) is Some,
        worth_of(cx, vars, *e.kind->Index_index) is Some,
    ensures
        n.worth((index_value_of(cx, st, e)->0).1) == m.cells[worth_of(
            cx,
            vars,
            *e.kind->Index_array,
        )->0 + worth_of(cx, vars, *e.kind->Index_index)->0 * stride(
            cx,
            type_of(cx, (*e.kind->Index_array).id)->0,
        )],
        same_below(m, n, st.names.len()),
{
    let (pointed, addr) = index_address_of(cx, st, e)->0;
    elements_are_pointed_at(cx, st, e);
    let (after, value) = index_value_of(cx, st, e)->0;
    let (made, dst) = temp(pointed)->0;
    let instr = InstrView::Load { dst, addr: Value::Reg(addr) };
    one_into_a_new_register(pointed, instr);
    went_on_twice(st, pointed, after);
    let k = runs_both(code(st, pointed), code(pointed, after), m, n);
    runs_one(instr, k, n);
    assert(same_below(k, n, pointed.names.len()));
    same_below_twice(m, k, n, st.names.len(), pointed.names.len());
}

/// **What an array or a list is written with is what its elements are.** Run a literal,
/// and later an expression that reads one of its elements, its room untouched in between:
/// what is read is what the expression at that place in the literal was worth.
pub proof fn elements_come_back(
    cx: ContextView,
    st: State,
    dst: VReg,
    e: Expr,
    m: Machine,
    made: Machine,
    vars: Map<Seq<char>, i64>,
    at: State,
    read: Expr,
    before: Machine,
    found: Machine,
    then: Map<Seq<char>, i64>,
    i: int,
)
    requires
        e.kind matches ExprKind::Array { elements } && elements@.len() <= i64::MAX && 0 <= i
            < elements@.len() && (forall|j: int|
            0 <= j < elements@.len() ==> plain_word(cx, #[trigger] elements@[j])),
        type_of(cx, e.id) matches Some(ty) && (ty is Array || ty is List) && stride(cx, ty) > 0,
        scopes_exist(st),
        st.names.len() <= u32::MAX,
        st.current.0 < st.blocks.len(),
        dst.0 < st.names.len(),
        forall|name: Seq<char>| (#[trigger] bound(st, name)) matches Some((reg, _)) ==> reg != dst,
        array_into_of(cx, st, dst, e) is Some,
        runs(code(st, array_into_of(cx, st, dst, e)->0), m, made),
        holds_vars(st, m, vars),
        // The element read.
        read.kind matches ExprKind::Index { array, index } && plain(cx, *array) && plain(
            cx,
            *index,
        ) && type_of(cx, array.id) == type_of(cx, e.id) && worth_of(cx, then, *array) == Some(
            made.regs[dst],
        ) && worth_of(cx, then, *index) == Some(i as i64),
        type_of(cx, read.id) matches Some(ty) && ty.in_a_register(),
        scopes_exist(at),
        at.names.len() <= u32::MAX,
        at.current.0 < at.blocks.len(),
        index_value_of(cx, at, read) is Some,
        before.cells == made.cells,
        runs(code(at, (index_value_of(cx, at, read)->0).0), before, found),
        holds_vars(at, before, then),
    ensures
        worth_of(cx, vars, e.kind->Array_elements@[i]) is Some ==> worth_of(
            cx,
            vars,
            e.kind->Array_elements@[i],
        ) == Some(found.worth((index_value_of(cx, at, read)->0).1)),
{
    let elements = e.kind->Array_elements;
    let ty = type_of(cx, e.id)->0;
    let after = array_into_of(cx, st, dst, e)->0;
    let scale = stride(cx, ty);
    let first = room_for(cx, st, dst, e);
    room_is_somewhere(cx, st, dst, e, m, m);
    let len = if ty is List {
        Value::Const(elements@.len() as i64)
    } else {
        Value::Const(cx.types.table.arrays@[ty->Array_0.0 as int].len as i64)
    };
    assert(after == elements_from(cx, first, Value::Reg(dst), len, scale as u32, elements, 0)->0);
    elements_are_laid_out(cx, first, Value::Reg(dst), len, scale as u32, elements, 0);
    both_appended(st, first, after);
    let k = runs_both(code(st, first), code(first, after), m, made);
    room_is_somewhere(cx, st, dst, e, m, k);
    assert(holds_vars(first, k, vars)) by {
        reveal(bound);
        assert forall|name: Seq<char>| #[trigger] bound(first, name) is Some implies k.regs[(bound(
            first,
            name,
        )->0).0] == vars[name] by {
            assert(bound(st, name) == bound(first, name));
        }
    }
    assert(laid_out(cx, first, after, Value::Reg(dst), scale, elements@, 0));
    assert(made.regs[dst] == k.regs[dst]);
    elements_are_read_where_they_stand(cx, at, read, before, found, then);
    assert(elements@[i] == elements@[i]);
}

/// A literal up to where its elements go in: with room to go into.
spec fn room_for(cx: ContextView, st: State, dst: VReg, e: Expr) -> State {
    let ty = type_of(cx, e.id)->0;
    let bytes = cx.types.table.bytes_of(held_type(cx, ty));
    if ty is List {
        emitted(
            st,
            InstrView::RtCall {
                dst: Some(dst),
                callee: Runtime::ListNew,
                args: seq![
                    Value::Const(e.kind->Array_elements@.len() as i64),
                    Value::Const(bytes as i64),
                ],
            },
        )
    } else {
        allocated(st, dst, cx.types.table.bytes_of(ty))
    }
}

proof fn room_is_somewhere(cx: ContextView, st: State, dst: VReg, e: Expr, m: Machine, n: Machine)
    requires
        st.current.0 < st.blocks.len(),
    ensures
        went_on(st, room_for(cx, st, dst, e)),
        room_for(cx, st, dst, e).names == st.names,
        runs(code(st, room_for(cx, st, dst, e)), m, n) ==> n == m.with(dst, n.regs[dst]),
{
    let ty = type_of(cx, e.id)->0;
    let after = room_for(cx, st, dst, e);
    let bytes = cx.types.table.bytes_of(held_type(cx, ty));
    if ty is List {
        let instr = InstrView::RtCall {
            dst: Some(dst),
            callee: Runtime::ListNew,
            args: seq![
                Value::Const(e.kind->Array_elements@.len() as i64),
                Value::Const(bytes as i64),
            ],
        };
        one_appended(st, instr);
        if runs(code(st, after), m, n) {
            runs_one(instr, m, n);
        }
    } else {
        room_is_made(st, dst, cx.types.table.bytes_of(ty));
        if runs(code(st, after), m, n) {
            runs_one(InstrView::Frame { dst, offset: st.frame_bytes }, m, n);
        }
    }
}

/// Room in the frame is one instruction.
pub proof fn room_is_made(st: State, dst: VReg, bytes: u32)
    requires
        st.current.0 < st.blocks.len(),
    ensures
        went_on(st, allocated(st, dst, bytes)),
        allocated(st, dst, bytes).names == st.names,
        code(st, allocated(st, dst, bytes)) == seq![
            InstrView::Frame { dst, offset: st.frame_bytes },
        ],
{
    reveal(allocated);
    let used = if st.frame_bytes + bytes > u32::MAX {
        u32::MAX
    } else {
        (st.frame_bytes + bytes) as u32
    };
    let roomy = State {
        frame_bytes: used,
        frame_peak: if used > st.frame_peak {
            used
        } else {
            st.frame_peak
        },
        ..st
    };
    let frame = InstrView::Frame { dst, offset: st.frame_bytes };
    nothing_appended(st, roomy);
    one_appended(roomy, frame);
    both_appended(st, roomy, emitted(roomy, frame));
    assert(Seq::<InstrView>::empty() + seq![frame] =~= seq![frame]);
}

// -- objects ----------------------------------------------------------------

/// The field a name means is the first there is of that name.
pub proof fn fields_are_found(fields: Seq<FieldInfo>, name: Seq<char>) -> (at: int)
    ensures
        match field_named(fields, name) {
            Some(field) => {
                &&& 0 <= at < fields.len()
                &&& fields[at] == field
                &&& field.name@ == name
                &&& forall|k: int| 0 <= k < at ==> (#[trigger] fields[k]).name@ != name
            },
            None => forall|k: int| 0 <= k < fields.len() ==> (#[trigger] fields[k]).name@ != name,
        },
    decreases fields.len(),
{
    if fields.len() == 0 {
        0
    } else if fields[0].name@ == name {
        0
    } else {
        let rest = fields.drop_first();
        let at = fields_are_found(rest, name);
        assert forall|k: int|
            0 < k < fields.len() && (field_named(rest, name) is None || k < at + 1) implies (
        #[trigger] fields[k]).name@ != name by {
            assert(rest[k - 1].name@ != name);
        }
        at + 1
    }
}

/// Whether no two fields of a class stand at one place.
pub open spec fn fields_apart(fields: Seq<FieldInfo>) -> bool {
    forall|a: int, b: int|
        #![trigger fields[a], fields[b]]
        0 <= a < b < fields.len() ==> fields[a].offset != fields[b].offset
}

/// Where the field a name means stands.
pub open spec fn place_of(cx: ContextView, id: ClassId, name: Seq<char>) -> int {
    field_named(cx.types.table.classes@[id.0 as int].fields@, name)->0.offset as int
}

proof fn names_stand_apart(cx: ContextView, id: ClassId, a: Seq<char>, b: Seq<char>)
    requires
        a != b,
        fields_apart(cx.types.table.classes@[id.0 as int].fields@),
        field_named(cx.types.table.classes@[id.0 as int].fields@, a) is Some,
        field_named(cx.types.table.classes@[id.0 as int].fields@, b) is Some,
    ensures
        place_of(cx, id, a) != place_of(cx, id, b),
{
    let fields = cx.types.table.classes@[id.0 as int].fields@;
    let i = fields_are_found(fields, a);
    let j = fields_are_found(fields, b);
    if i < j {
        assert(fields[i].offset != fields[j].offset);
    } else {
        assert(fields[j].offset != fields[i].offset);
    }
}

/// Whether a cell is none that the fields from `i` on go to.
pub open spec fn untouched(cx: ContextView, id: ClassId, c: int, base: int, fields: Seq<FieldInit>, i: int)
 -> bool {
    forall|j: int|
        i <= j < fields.len() ==> c != base + place_of(cx, id, (#[trigger] fields[j]).name@)
}

/// What a run that puts the fields from `i` on in their places leaves.
pub open spec fn filled_out(
    cx: ContextView,
    st: State,
    after: State,
    at: Value,
    id: ClassId,
    fields: Seq<FieldInit>,
    i: int,
) -> bool {
    forall|m: Machine, n: Machine, vars: Map<Seq<char>, i64>|
        #![trigger runs(code(st, after), m, n), holds_vars(st, m, vars)]
        runs(code(st, after), m, n) && holds_vars(st, m, vars) ==> {
            &&& forall|reg: VReg| reg.0 < st.names.len() ==> #[trigger] n.regs[reg] == m.regs[reg]
            &&& forall|j: int|
                i <= j < fields.len() && worth_of(cx, vars, (#[trigger] fields[j]).value) is Some
                    ==> worth_of(cx, vars, fields[j].value) == Some(
                    n.cells[m.worth(at) + place_of(cx, id, fields[j].name@)],
                )
            &&& forall|c: int|
                #![trigger n.cells[c]]
                untouched(cx, id, c, m.worth(at) as int, fields, i) ==> n.cells[c] == m.cells[c]
        }
}

pub proof fn fields_are_filled_out(
    cx: ContextView,
    st: State,
    at: Value,
    id: ClassId,
    fields: Vec<FieldInit>,
    i: int,
)
    requires
        fields_apart(cx.types.table.classes@[id.0 as int].fields@),
        0 <= i <= fields@.len(),
        forall|j: int| 0 <= j < fields@.len() ==> plain_word(cx, (#[trigger] fields@[j]).value),
        forall|a: int, b: int|
            #![trigger fields@[a], fields@[b]]
            0 <= a < b < fields@.len() ==> fields@[a].name@ != fields@[b].name@,
        scopes_exist(st),
        st.names.len() <= u32::MAX,
        st.current.0 < st.blocks.len(),
        value_within(at, st.names.len()),
        fields_from(cx, st, at, id, fields, i) is Some,
    ensures
        went_on(st, fields_from(cx, st, at, id, fields, i)->0),
        filled_out(cx, st, fields_from(cx, st, at, id, fields, i)->0, at, id, fields@, i),
        forall|j: int|
            i <= j < fields@.len() ==> field_named(
                cx.types.table.classes@[id.0 as int].fields@,
                (#[trigger] fields@[j]).name@,
            ) is Some,
    decreases fields@.len() - i,
{
    let after = fields_from(cx, st, at, id, fields, i)->0;
    let all = cx.types.table.classes@[id.0 as int].fields@;
    if i < fields@.len() {
        let one = fields@[i];
        let (pointed, addr) = field_at(cx, st, at, id, one.name@)->0;
        let offset = field_named(all, one.name@)->0.offset;
        let instr = InstrView::Field { dst: addr, base: at, offset };
        one_into_a_new_register(st, instr);
        assert(scopes_exist(pointed));
        let put = write_through_of(cx, pointed, Value::Reg(addr), one.value, Room::Fresh)->0;
        word_written(cx, pointed, addr, one.value, Room::Fresh);
        went_on_twice(st, pointed, put);
        assert(scopes_exist(put));
        fields_are_filled_out(cx, put, at, id, fields, i + 1);
        went_on_twice(st, put, after);
        assert forall|m: Machine, n: Machine, vars: Map<Seq<char>, i64>|
            #![trigger runs(code(st, after), m, n), holds_vars(st, m, vars)]
            runs(code(st, after), m, n) && holds_vars(st, m, vars) implies {
            &&& forall|reg: VReg| reg.0 < st.names.len() ==> #[trigger] n.regs[reg] == m.regs[reg]
            &&& forall|j: int|
                i <= j < fields@.len() && worth_of(cx, vars, (#[trigger] fields@[j]).value) is Some
                    ==> worth_of(cx, vars, fields@[j].value) == Some(
                    n.cells[m.worth(at) + place_of(cx, id, fields@[j].name@)],
                )
            &&& forall|c: int|
                #![trigger n.cells[c]]
                untouched(cx, id, c, m.worth(at) as int, fields@, i) ==> n.cells[c] == m.cells[c]
        } by {
            let k = runs_both(code(st, put), code(put, after), m, n);
            let p = runs_both(code(st, pointed), code(pointed, put), m, k);
            runs_one(instr, m, p);
            assert(same_below(m, p, st.names.len()));
            still_holds(st, pointed, m, p, vars);
            let w = choose|w: i64| #[trigger]
                p.cells.insert(p.regs[addr] as int, w) == k.cells && (worth_of(
                    cx,
                    vars,
                    one.value,
                ) is Some ==> worth_of(cx, vars, one.value) == Some(w));
            assert forall|reg: VReg| reg.0 < st.names.len() implies #[trigger] k.regs[reg]
                == m.regs[reg] by {
                assert(p.regs[reg] == m.regs[reg]);
                assert(k.regs[reg] == p.regs[reg]);
            }
            let quiet = Machine { regs: k.regs, cells: m.cells };
            still_holds(st, put, m, quiet, vars);
            assert(holds_vars(put, k, vars));
            assert(k.worth(at) == m.worth(at));
            let mine = m.worth(at) + place_of(cx, id, one.name@);
            assert(p.regs[addr] == mine);
            assert forall|j: int|
                i <= j < fields@.len() && worth_of(cx, vars, (#[trigger] fields@[j]).value) is Some implies
                worth_of(cx, vars, fields@[j].value) == Some(
                n.cells[m.worth(at) + place_of(cx, id, fields@[j].name@)],
            ) by {
                if j == i {
                    assert forall|x: int| i + 1 <= x < fields@.len() implies mine != k.worth(at)
                        + place_of(cx, id, (#[trigger] fields@[x]).name@) by {
                        assert(fields@[i].name@ != fields@[x].name@);
                        names_stand_apart(cx, id, one.name@, fields@[x].name@);
                    }
                    assert(untouched(cx, id, mine, k.worth(at) as int, fields@, i + 1));
                    assert(n.cells[mine] == k.cells[mine]);
                }
            }
            assert forall|c: int|
                #![trigger n.cells[c]]
                untouched(cx, id, c, m.worth(at) as int, fields@, i) implies n.cells[c]
                == m.cells[c] by {
                assert(c != m.worth(at) + place_of(cx, id, fields@[i].name@));
                assert(untouched(cx, id, c, k.worth(at) as int, fields@, i + 1));
                assert(n.cells[c] == k.cells[c]);
            }
            assert forall|reg: VReg| reg.0 < st.names.len() implies #[trigger] n.regs[reg]
                == m.regs[reg] by {
                assert(n.regs[reg] == k.regs[reg]);
            }
        }
    } else {
        nothing_appended(st, after);
        assert forall|m: Machine, n: Machine, vars: Map<Seq<char>, i64>|
            #![trigger runs(code(st, after), m, n), holds_vars(st, m, vars)]
            runs(code(st, after), m, n) && holds_vars(st, m, vars) implies n == m by {
            runs_nothing(m, n);
        }
    }
}

/// **A field is read where it stands**: at the address of its object, and as far on as the
/// class says of its name.
pub proof fn fields_are_read_where_they_stand(
    cx: ContextView,
    st: State,
    dst: VReg,
    e: Expr,
    m: Machine,
    n: Machine,
    vars: Map<Seq<char>, i64>,
    at: int,
)
    requires
        e.kind matches ExprKind::Field { object, name } && plain(cx, *object) && (type_of(
            cx,
            object.id,
        ) matches Some(Ty::Class(id)) && 0 <= at
            < cx.types.table.classes@[id.0 as int].fields@.len()
            && cx.types.table.classes@[id.0 as int].fields@[at].name@ == name@ && (forall|k: int|
            0 <= k < at ==> (#[trigger] cx.types.table.classes@[id.0 as int].fields@[k]).name@
                != name@)),
        type_of(cx, e.id) matches Some(ty) && ty.in_a_register(),
        scopes_exist(st),
        st.names.len() <= u32::MAX,
        st.current.0 < st.blocks.len(),
        dst.0 < st.names.len(),
        field_into_of(cx, st, dst, e) is Some,
        runs(code(st, field_into_of(cx, st, dst, e)->0), m, n),
        holds_vars(st, m, vars),
        worth_of(cx, vars, *e.kind->Field_object) is Some,
    ensures
        ({
            let id = (type_of(cx, (*e.kind->Field_object).id)->0)->Class_0;
            let offset = cx.types.table.classes@[id.0 as int].fields@[at].offset;
            &&& n.regs[dst] == m.cells[worth_of(cx, vars, *e.kind->Field_object)->0 + offset]
            &&& n.cells == m.cells
            &&& forall|reg: VReg|
                reg.0 < st.names.len() && reg != dst ==> #[trigger] n.regs[reg] == m.regs[reg]
        }),
{
    let object = *e.kind->Field_object;
    let id = (type_of(cx, object.id)->0)->Class_0;
    let name = e.kind->Field_name@;
    let after = field_into_of(cx, st, dst, e)->0;
    let found = fields_are_found(cx.types.table.classes@[id.0 as int].fields@, name);
    assert(found == at);
    let (one, base) = expr_of(cx, st, object)->0;
    expressions_are_worth_what_they_say(cx, st, object);
    let (two, addr) = field_at(cx, one, base, id, name)->0;
    let offset = cx.types.table.classes@[id.0 as int].fields@[at].offset;
    let point = InstrView::Field { dst: addr, base, offset };
    one_into_a_new_register(one, point);
    let load = InstrView::Load { dst, addr: Value::Reg(addr) };
    one_appended(two, load);
    went_on_twice(st, one, two);
    went_on_twice(st, two, after);
    let b = runs_both(code(st, two), code(two, after), m, n);
    let a = runs_both(code(st, one), code(one, two), m, b);
    assert(operand_right(cx, st, object, one, base));
    runs_one(point, a, b);
    runs_one(load, b, n);
    assert(same_below(a, b, one.names.len()));
    same_below_twice(m, a, b, st.names.len(), one.names.len());
    assert forall|reg: VReg| reg.0 < st.names.len() && reg != dst implies #[trigger] n.regs[reg]
        == m.regs[reg] by {
        assert(b.regs[reg] == m.regs[reg]);
    }
}

/// **What an object is made with is what its fields are.** Run an object literal's
/// filling, and later an expression that reads one of the fields it names, the object
/// untouched in between: what is read is what the expression beside that name was worth.
pub proof fn fields_come_back(
    cx: ContextView,
    st: State,
    at: Value,
    id: ClassId,
    fields: Vec<FieldInit>,
    m: Machine,
    made: Machine,
    vars: Map<Seq<char>, i64>,
    later: State,
    dst: VReg,
    read: Expr,
    before: Machine,
    found: Machine,
    then: Map<Seq<char>, i64>,
    i: int,
)
    requires
        fields_apart(cx.types.table.classes@[id.0 as int].fields@),
        0 <= i < fields@.len(),
        forall|j: int| 0 <= j < fields@.len() ==> plain_word(cx, (#[trigger] fields@[j]).value),
        forall|a: int, b: int|
            #![trigger fields@[a], fields@[b]]
            0 <= a < b < fields@.len() ==> fields@[a].name@ != fields@[b].name@,
        scopes_exist(st),
        st.names.len() <= u32::MAX,
        st.current.0 < st.blocks.len(),
        value_within(at, st.names.len()),
        fill_object_of(cx, st, at, id, fields) is Some,
        runs(code(st, fill_object_of(cx, st, at, id, fields)->0), m, made),
        holds_vars(st, m, vars),
        // The field read.
        read.kind matches ExprKind::Field { object, name } && plain(cx, *object) && type_of(
            cx,
            object.id,
        ) == Some(Ty::Class(id)) && name@ == fields@[i].name@ && worth_of(cx, then, *object)
            == Some(made.worth(at)),
        type_of(cx, read.id) matches Some(ty) && ty.in_a_register(),
        scopes_exist(later),
        later.names.len() <= u32::MAX,
        later.current.0 < later.blocks.len(),
        dst.0 < later.names.len(),
        field_into_of(cx, later, dst, read) is Some,
        before.cells == made.cells,
        runs(code(later, field_into_of(cx, later, dst, read)->0), before, found),
        holds_vars(later, before, then),
    ensures
        worth_of(cx, vars, fields@[i].value) is Some ==> worth_of(cx, vars, fields@[i].value)
            == Some(found.regs[dst]),
{
    let after = fill_object_of(cx, st, at, id, fields)->0;
    let (one, vptr) = temp(st)->0;
    let table = InstrView::VTable { dst: vptr, class: id };
    let store = InstrView::Store { addr: at, value: Value::Reg(vptr) };
    let two = emitted(one, table);
    let three = emitted(two, store);
    one_into_a_new_register(st, table);
    one_appended(two, store);
    went_on_twice(st, two, three);
    assert(scopes_exist(three));
    fields_are_filled_out(cx, three, at, id, fields, 0);
    went_on_twice(st, three, after);
    let k = runs_both(code(st, three), code(three, after), m, made);
    let j = runs_both(code(st, two), code(two, three), m, k);
    runs_one(table, m, j);
    runs_one(store, j, k);
    assert(same_below(m, j, st.names.len()));
    let quiet = Machine { regs: k.regs, cells: m.cells };
    assert(same_below(m, quiet, st.names.len()));
    still_holds(st, three, m, quiet, vars);
    assert(holds_vars(three, k, vars));
    assert(filled_out(cx, three, after, at, id, fields@, 0));
    let name = fields@[i].name@;
    assert(made.worth(at) == k.worth(at));
    let place = fields_are_found(cx.types.table.classes@[id.0 as int].fields@, name);
    fields_are_read_where_they_stand(cx, later, dst, read, before, found, then, place);
}

// -- places -----------------------------------------------------------------

/// The type of what a place names.
pub open spec fn type_at(cx: ContextView, st: State, place: Place) -> Option<Ty>
    decreases place,
{
    match place {
        Place::Var { name } => match bound(st, name@) {
            Some((_, ty)) => Some(ty),
            None => None,
        },
        Place::Element { base, index } => match type_at(cx, st, *base) {
            Some(ty) => Some(held_type(cx, ty)),
            None => None,
        },
        Place::Field { base, name } => match type_at(cx, st, *base) {
            Some(Ty::Class(id)) => match field_named(
                cx.types.table.classes@[id.0 as int].fields@,
                name@,
            ) {
                Some(field) => Some(field.ty),
                None => None,
            },
            _ => None,
        },
    }
}

/// Where in memory a place is, where variables are worth what `vars` says.
pub open spec fn address_of(
    cx: ContextView,
    st: State,
    vars: Map<Seq<char>, i64>,
    cells: Map<int, i64>,
    place: Place,
) -> Option<int>
    decreases place, 0int,
{
    match place {
        Place::Var { .. } => None,
        Place::Element { base, index } => match (
            held_in(cx, st, vars, cells, *base),
            worth_of(cx, vars, index),
            type_at(cx, st, *base),
        ) {
            (Some(at), Some(i), Some(ty)) => Some(at + i * stride(cx, ty)),
            _ => None,
        },
        Place::Field { base, name } => match (
            held_in(cx, st, vars, cells, *base),
            type_at(cx, st, *base),
        ) {
            (Some(at), Some(Ty::Class(id))) => match field_named(
                cx.types.table.classes@[id.0 as int].fields@,
                name@,
            ) {
                Some(field) => Some(at + field.offset),
                None => None,
            },
            _ => None,
        },
    }
}

/// What a place holds: what stands there, or where it stands for what does not fit in a
/// register.
pub open spec fn held_in(
    cx: ContextView,
    st: State,
    vars: Map<Seq<char>, i64>,
    cells: Map<int, i64>,
    place: Place,
) -> Option<int>
    decreases place, 1int,
{
    match place {
        Place::Var { name } => Some(vars[name@] as int),
        _ => match (address_of(cx, st, vars, cells, place), type_at(cx, st, place)) {
            (Some(at), Some(ty)) => Some(
                if ty.in_a_register() {
                    cells[at] as int
                } else {
                    at
                },
            ),
            _ => None,
        },
    }
}

/// Whether every index in a place is plain, and every element is one of an array or a list.
pub open spec fn plain_place(cx: ContextView, st: State, place: Place) -> bool
    decreases place,
{
    match place {
        Place::Var { .. } => true,
        Place::Element { base, index } => {
            &&& plain_place(cx, st, *base)
            &&& plain(cx, index)
            &&& type_at(cx, st, *base) matches Some(ty) && (ty is Array || ty is List)
        },
        Place::Field { base, name } => plain_place(cx, st, *base),
    }
}

proof fn types_agree(cx: ContextView, st: State, place: Place)
    ensures
        place_type_of(cx, st, place) is Some ==> place_type_of(cx, st, place) == type_at(
            cx,
            st,
            place,
        ),
    decreases place,
{
    match place {
        Place::Var { .. } => {},
        Place::Element { base, .. } => {
            types_agree(cx, st, *base);
        },
        Place::Field { base, .. } => {
            types_agree(cx, st, *base);
        },
    }
}

/// Whether a run leaves memory and the registers there were alone, and finds a number.
spec fn finds(
    cx: ContextView,
    st: State,
    after: State,
    value: Value,
    place: Place,
    address: bool,
) -> bool {
    forall|m: Machine, n: Machine, vars: Map<Seq<char>, i64>|
        #![trigger runs(code(st, after), m, n), holds_vars(st, m, vars)]
        runs(code(st, after), m, n) && holds_vars(st, m, vars) ==> {
            &&& same_below(m, n, st.names.len())
            &&& address && address_of(cx, st, vars, m.cells, place) is Some ==> n.worth(value)
                == address_of(cx, st, vars, m.cells, place)->0
            &&& !address && held_in(cx, st, vars, m.cells, place) is Some ==> n.worth(value)
                == held_in(cx, st, vars, m.cells, place)->0
        }
}

proof fn places_are_pointed_at(cx: ContextView, st: State, place: Place)
    requires
        plain_place(cx, st, place),
        scopes_exist(st),
        st.names.len() <= u32::MAX,
        st.current.0 < st.blocks.len(),
        place_address_of(cx, st, place) is Some,
    ensures
        ({
            let (after, addr) = place_address_of(cx, st, place)->0;
            &&& went_on(st, after)
            &&& addr.0 < after.names.len()
            &&& finds(cx, st, after, Value::Reg(addr), place, true)
        }),
    decreases place, 0int,
{
    let (after, addr) = place_address_of(cx, st, place)->0;
    match place {
        Place::Element { base, index } => {
            types_agree(cx, st, *base);
            let ty = type_at(cx, st, *base)->0;
            places_are_read(cx, st, *base);
            let (one, object) = place_value_of(cx, st, *base)->0;
            shape_is_read(cx, one, ty, object);
            let (two, len, scale) = shaped(cx, one, ty, object)->0;
            assert(scopes_exist(two));
            expressions_are_worth_what_they_say(cx, two, index);
            let (three, at) = expr_of(cx, two, index)->0;
            let instr = InstrView::Elem { dst: addr, base: object, index: at, len, scale };
            one_into_a_new_register(three, instr);
            went_on_twice(st, one, two);
            went_on_twice(st, two, three);
            went_on_twice(st, three, after);
            assert forall|m: Machine, n: Machine, vars: Map<Seq<char>, i64>|
                #![trigger runs(code(st, after), m, n), holds_vars(st, m, vars)]
                runs(code(st, after), m, n) && holds_vars(st, m, vars) implies {
                &&& same_below(m, n, st.names.len())
                &&& address_of(cx, st, vars, m.cells, place) is Some ==> n.regs[addr]
                    == address_of(cx, st, vars, m.cells, place)->0
            } by {
                let c = runs_both(code(st, three), code(three, after), m, n);
                let b = runs_both(code(st, two), code(two, three), m, c);
                let a = runs_both(code(st, one), code(one, two), m, b);
                assert(finds(cx, st, one, object, *base, false));
                same_below_twice(m, a, b, st.names.len(), one.names.len());
                still_holds(st, two, m, b, vars);
                assert(operand_right(cx, two, index, three, at));
                same_below_twice(m, b, c, st.names.len(), two.names.len());
                same_below_twice(a, b, c, one.names.len(), two.names.len());
                assert(c.worth(object) == a.worth(object));
                runs_one(instr, c, n);
                assert(same_below(c, n, three.names.len()));
                same_below_twice(m, c, n, st.names.len(), three.names.len());
            }
        },
        Place::Field { base, name: field } => {
            types_agree(cx, st, *base);
            let id = (type_at(cx, st, *base)->0)->Class_0;
            places_are_read(cx, st, *base);
            let (one, object) = place_value_of(cx, st, *base)->0;
            let offset = field_named(
                cx.types.table.classes@[id.0 as int].fields@,
                field@,
            )->0.offset;
            let instr = InstrView::Field { dst: addr, base: object, offset };
            one_into_a_new_register(one, instr);
            went_on_twice(st, one, after);
            assert forall|m: Machine, n: Machine, vars: Map<Seq<char>, i64>|
                #![trigger runs(code(st, after), m, n), holds_vars(st, m, vars)]
                runs(code(st, after), m, n) && holds_vars(st, m, vars) implies {
                &&& same_below(m, n, st.names.len())
                &&& address_of(cx, st, vars, m.cells, place) is Some ==> n.regs[addr]
                    == address_of(cx, st, vars, m.cells, place)->0
            } by {
                let a = runs_both(code(st, one), code(one, after), m, n);
                assert(finds(cx, st, one, object, *base, false));
                runs_one(instr, a, n);
                assert(same_below(a, n, one.names.len()));
                same_below_twice(m, a, n, st.names.len(), one.names.len());
            }
        },
        _ => {},
    }
}

proof fn places_are_read(cx: ContextView, st: State, place: Place)
    requires
        plain_place(cx, st, place),
        scopes_exist(st),
        st.names.len() <= u32::MAX,
        st.current.0 < st.blocks.len(),
        place_value_of(cx, st, place) is Some,
    ensures
        ({
            let (after, value) = place_value_of(cx, st, place)->0;
            &&& went_on(st, after)
            &&& value_within(value, after.names.len())
            &&& finds(cx, st, after, value, place, false)
        }),
    decreases place, 1int,
{
    let (after, value) = place_value_of(cx, st, place)->0;
    if let Place::Var { name } = place {
        super::machine::bound_exists(st, name@);
        nothing_appended(st, after);
        assert forall|m: Machine, n: Machine, vars: Map<Seq<char>, i64>|
            #![trigger runs(code(st, after), m, n), holds_vars(st, m, vars)]
            runs(code(st, after), m, n) && holds_vars(st, m, vars) implies {
            &&& same_below(m, n, st.names.len())
            &&& held_in(cx, st, vars, m.cells, place) is Some ==> n.worth(value) == held_in(
                cx,
                st,
                vars,
                m.cells,
                place,
            )->0
        } by {
            runs_nothing(m, n);
            assert(bound(st, name@) is Some);
        }
    } else {
        types_agree(cx, st, place);
        places_are_pointed_at(cx, st, place);
        let (one, addr) = place_address_of(cx, st, place)->0;
        let ty = type_at(cx, st, place)->0;
        if ty.in_a_register() {
            let (made, dst) = temp(one)->0;
            let load = InstrView::Load { dst, addr: Value::Reg(addr) };
            one_into_a_new_register(one, load);
            went_on_twice(st, one, after);
            assert forall|m: Machine, n: Machine, vars: Map<Seq<char>, i64>|
                #![trigger runs(code(st, after), m, n), holds_vars(st, m, vars)]
                runs(code(st, after), m, n) && holds_vars(st, m, vars) implies {
                &&& same_below(m, n, st.names.len())
                &&& held_in(cx, st, vars, m.cells, place) is Some ==> n.worth(value) == held_in(
                    cx,
                    st,
                    vars,
                    m.cells,
                    place,
                )->0
            } by {
                let a = runs_both(code(st, one), code(one, after), m, n);
                assert(finds(cx, st, one, Value::Reg(addr), place, true));
                runs_one(load, a, n);
                assert(same_below(a, n, one.names.len()));
                same_below_twice(m, a, n, st.names.len(), one.names.len());
            }
        } else {
            assert(after == one);
            assert(finds(cx, st, one, Value::Reg(addr), place, true));
        }
    }
}

/// **A place is read where it stands.** What a place holds is found by going along it:
/// from a variable, through every field as far on as its class says, and through every
/// element as far on as its index says; what fits in a register is read at each step, and
/// what does not is where it stands.
pub proof fn places_hold_what_stands_there(
    cx: ContextView,
    st: State,
    place: Place,
    m: Machine,
    n: Machine,
    vars: Map<Seq<char>, i64>,
)
    requires
        plain_place(cx, st, place),
        held_in(cx, st, vars, m.cells, place) is Some,
        scopes_exist(st),
        st.names.len() <= u32::MAX,
        st.current.0 < st.blocks.len(),
        place_value_of(cx, st, place) is Some,
        runs(code(st, (place_value_of(cx, st, place)->0).0), m, n),
        holds_vars(st, m, vars),
    ensures
        n.worth((place_value_of(cx, st, place)->0).1) == held_in(cx, st, vars, m.cells, place)->0,
        n.cells == m.cells,
{
    places_are_read(cx, st, place);
    let (after, value) = place_value_of(cx, st, place)->0;
    assert(finds(cx, st, after, value, place, false));
}

/// **An assignment to an element or a field writes that one.** One cell of memory is
/// written, at the place named, with what is assigned, and no variable changes.
pub proof fn assigning_writes_the_place(
    cx: ContextView,
    st: State,
    s: Stmt,
    m: Machine,
    n: Machine,
    vars: Map<Seq<char>, i64>,
)
    requires
        s matches Stmt::Assign { target, value } && !(target is Var) && plain_place(
            cx,
            st,
            target,
        ) && plain_word(cx, value) && address_of(cx, st, vars, m.cells, target) is Some
            && worth_of(cx, vars, value) is Some,
        scopes_exist(st),
        st.names.len() <= u32::MAX,
        st.current.0 < st.blocks.len(),
        assignment_of(cx, st, s) is Some,
        runs(code(st, assignment_of(cx, st, s)->0), m, n),
        holds_vars(st, m, vars),
    ensures
        n.cells == m.cells.insert(
            address_of(cx, st, vars, m.cells, s->Assign_target)->0,
            worth_of(cx, vars, s->Assign_value)->0,
        ),
        holds_vars(assignment_of(cx, st, s)->0, n, vars),
{
    let target = s->Assign_target;
    let value = s->Assign_value;
    let after = assignment_of(cx, st, s)->0;
    let (pointed, addr) = place_address_of(cx, st, target)->0;
    places_are_pointed_at(cx, st, target);
    assert(scopes_exist(pointed));
    word_written(cx, pointed, addr, value, Room::Named);
    went_on_twice(st, pointed, after);
    let k = runs_both(code(st, pointed), code(pointed, after), m, n);
    assert(finds(cx, st, pointed, Value::Reg(addr), target, true));
    still_holds(st, pointed, m, k, vars);
    let w = choose|w: i64| #[trigger]
        k.cells.insert(k.regs[addr] as int, w) == n.cells && (worth_of(cx, vars, value) is Some
            ==> worth_of(cx, vars, value) == Some(w));
    let quiet = Machine { regs: n.regs, cells: m.cells };
    assert forall|reg: VReg| reg.0 < st.names.len() implies #[trigger] quiet.regs[reg]
        == m.regs[reg] by {
        assert(k.regs[reg] == m.regs[reg]);
        assert(n.regs[reg] == k.regs[reg]);
    }
    assert(same_below(m, quiet, st.names.len()));
    still_holds(st, after, m, quiet, vars);
    assert(holds_vars(after, n, vars));
}

} // verus!
