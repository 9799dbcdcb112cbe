//! That what goes into a variant comes out of it.
//!
//! Building a variant and taking it apart are lowered far from each other, and meet only in
//! memory. Both are run here, and what the second finds is what the first left.

use vstd::prelude::*;

use super::machine::{
    both_appended, code, expressions_are_worth_what_they_say, holds_vars, nothing_appended,
    one_appended, one_into_a_new_register, operand_right, plain, runs, runs_both, runs_nothing,
    runs_one, same_below, same_below_twice, scopes_exist, still_holds, straight, temp_is_new,
    went_on, went_on_twice, worth_of, Machine,
};
use super::meaning::{
    arm_tested, binding_of, bindings_from, boxed_enum, expr_of, payload_bound, payload_from,
    payload_offset, payload_types, tag_read, type_of, variant_into_of, variant_number,
    write_through_body, write_through_of, Room,
};
use super::state::{bound, called, emitted, named, temp, BindingView, ContextView, State};
use crate::ast::{variant_index, Expr, ExprKind, Pattern, Ty, VariantInfo};
use crate::ir::instr::{InstrView, Runtime};
use crate::ir::value::{value_within, Num, VReg, Value};

verus! {

/// Whether an argument is worked out in registers: a plain expression of a type that is
/// one word and no list.
pub open spec fn plain_word(cx: ContextView, e: Expr) -> bool {
    &&& plain(cx, e)
    &&& type_of(cx, e.id) is Some
    &&& !(type_of(cx, e.id)->0 is List || type_of(cx, e.id)->0 is Array
        || type_of(cx, e.id)->0 is Class)
}

/// Whether what a variant carries is words, and no lists.
pub open spec fn plain_types(payload: Seq<Ty>) -> bool {
    forall|i: int| 0 <= i < payload.len() ==> !(#[trigger] payload[i] is List)
}

// -- putting in -------------------------------------------------------------

/// Where the `i`th value goes.
spec fn slot(cx: ContextView, i: int) -> int {
    payload_offset(cx, i as u32)->0 as int
}

proof fn slots_differ(cx: ContextView, i: int, j: int)
    requires
        cx.types.table.layout.word > 0,
        0 <= i < j <= u32::MAX,
        payload_offset(cx, i as u32) is Some,
        payload_offset(cx, j as u32) is Some,
    ensures
        0 < slot(cx, i) < slot(cx, j),
{
    let word = cx.types.table.layout.word as int;
    assert(i * word < j * word) by (nonlinear_arith)
        requires
            i < j,
            word > 0,
    ;
    assert(0 <= i * word) by (nonlinear_arith)
        requires
            0 <= i,
            word > 0,
    ;
}

/// One value stored through an address in a register.
pub proof fn word_written(cx: ContextView, st: State, at: VReg, e: Expr, room: Room)
    requires
        plain_word(cx, e),
        scopes_exist(st),
        st.names.len() <= u32::MAX,
        st.current.0 < st.blocks.len(),
        at.0 < st.names.len(),
        write_through_of(cx, st, Value::Reg(at), e, room) is Some,
    ensures
        ({
            let after = write_through_of(cx, st, Value::Reg(at), e, room)->0;
            &&& went_on(st, after)
            &&& forall|m: Machine, n: Machine, vars: Map<Seq<char>, i64>|
                #![trigger runs(code(st, after), m, n), holds_vars(st, m, vars)]
                runs(code(st, after), m, n) && holds_vars(st, m, vars) ==> {
                    &&& forall|reg: VReg| reg.0 < st.names.len() ==> #[trigger] n.regs[reg]
                        == m.regs[reg]
                    &&& exists|w: i64| #[trigger]
                        m.cells.insert(m.regs[at] as int, w) == n.cells && (worth_of(
                            cx,
                            vars,
                            e,
                        ) is Some ==> worth_of(cx, vars, e) == Some(w))
                }
        }),
{
    let addr = Value::Reg(at);
    assert(write_through_of(cx, st, addr, e, room) == write_through_body(
        cx,
        st,
        addr,
        e,
        room,
    ));
    let after = write_through_of(cx, st, addr, e, room)->0;
    let (mid, value) = expr_of(cx, st, e)->0;
    expressions_are_worth_what_they_say(cx, st, e);
    let instr = InstrView::Store { addr, value };
    one_appended(mid, instr);
    went_on_twice(st, mid, after);
    assert forall|m: Machine, n: Machine, vars: Map<Seq<char>, i64>|
        #![trigger runs(code(st, after), m, n), holds_vars(st, m, vars)]
        runs(code(st, after), m, n) && holds_vars(st, m, vars) implies (forall|reg: VReg|
        reg.0 < st.names.len() ==> #[trigger] n.regs[reg] == m.regs[reg]) && (exists|w: i64|
        #[trigger]
        m.cells.insert(m.regs[at] as int, w) == n.cells && (worth_of(cx, vars, e) is Some
            ==> worth_of(cx, vars, e) == Some(w))) by {
        let k = runs_both(code(st, mid), code(mid, after), m, n);
        runs_one(instr, k, n);
        assert(operand_right(cx, st, e, mid, value));
        assert(same_below(m, k, st.names.len()));
        assert(k.regs[at] == m.regs[at]);
        assert forall|reg: VReg| reg.0 < st.names.len() implies #[trigger] n.regs[reg]
            == m.regs[reg] by {
            assert(k.regs[reg] == m.regs[reg]);
        }
        assert(m.cells.insert(m.regs[at] as int, k.worth(value)) == n.cells);
    }
}

/// What a run that puts the values from `i` on into room at `dst` leaves.
spec fn carried(
    cx: ContextView,
    st: State,
    after: State,
    dst: VReg,
    args: Seq<Expr>,
    i: int,
) -> bool {
    forall|m: Machine, n: Machine, vars: Map<Seq<char>, i64>|
        #![trigger runs(code(st, after), m, n), holds_vars(st, m, vars)]
        runs(code(st, after), m, n) && holds_vars(st, m, vars) ==> {
            &&& forall|reg: VReg| reg.0 < st.names.len() ==> #[trigger] n.regs[reg] == m.regs[reg]
            &&& forall|j: int|
                i <= j < args.len() && worth_of(cx, vars, #[trigger] args[j]) is Some ==> Some(
                    n.cells[m.regs[dst] + slot(cx, j)],
                ) == worth_of(cx, vars, args[j])
            &&& forall|c: int|
                c < m.regs[dst] + slot(cx, i) && i < args.len() ==> #[trigger] n.cells[c]
                    == m.cells[c]
            &&& i >= args.len() ==> n.cells == m.cells
        }
}

proof fn payload_is_carried(cx: ContextView, st: State, dst: VReg, args: Vec<Expr>, i: int)
    requires
        cx.types.table.layout.word > 0,
        0 <= i <= args@.len() <= u32::MAX,
        forall|j: int| 0 <= j < args@.len() ==> plain_word(cx, #[trigger] args@[j]),
        scopes_exist(st),
        st.names.len() <= u32::MAX,
        st.current.0 < st.blocks.len(),
        dst.0 < st.names.len(),
        payload_from(cx, st, dst, args, i) is Some,
    ensures
        ({
            let after = payload_from(cx, st, dst, args, i)->0;
            &&& went_on(st, after)
            &&& carried(cx, st, after, dst, args@, i)
            &&& forall|j: int|
                i <= j < args@.len() ==> #[trigger] payload_offset(cx, j as u32) is Some
        }),
    decreases args@.len() - i,
{
    let after = payload_from(cx, st, dst, args, i)->0;
    if i < args@.len() {
        let (made, at) = temp(st)->0;
        let offset = payload_offset(cx, i as u32)->0;
        let instr = InstrView::Field { dst: at, base: Value::Reg(dst), offset };
        let pointed = emitted(made, instr);
        one_into_a_new_register(st, instr);
        assert(scopes_exist(pointed));
        assert(plain_word(cx, args@[i]));
        let put = write_through_of(cx, pointed, Value::Reg(at), args@[i], Room::Fresh)->0;
        word_written(cx, pointed, at, args@[i], Room::Fresh);
        went_on_twice(st, pointed, put);
        assert(scopes_exist(put));
        payload_is_carried(cx, put, dst, args, i + 1);
        went_on_twice(st, put, after);
        assert forall|j: int| i <= j < args@.len() implies #[trigger] payload_offset(
            cx,
            j as u32,
        ) is Some by {}
        assert forall|m: Machine, n: Machine, vars: Map<Seq<char>, i64>|
            #![trigger runs(code(st, after), m, n), holds_vars(st, m, vars)]
            runs(code(st, after), m, n) && holds_vars(st, m, vars) implies {
            &&& forall|reg: VReg| reg.0 < st.names.len() ==> #[trigger] n.regs[reg] == m.regs[reg]
            &&& forall|j: int|
                i <= j < args@.len() && worth_of(cx, vars, #[trigger] args@[j]) is Some ==> Some(
                    n.cells[m.regs[dst] + slot(cx, j)],
                ) == worth_of(cx, vars, args@[j])
            &&& forall|c: int|
                c < m.regs[dst] + slot(cx, i) && i < args@.len() ==> #[trigger] n.cells[c]
                    == m.cells[c]
            &&& i >= args@.len() ==> n.cells == m.cells
        } by {
            let k = runs_both(code(st, put), code(put, after), m, n);
            let p = runs_both(code(st, pointed), code(pointed, put), m, k);
            runs_one(instr, m, p);
            assert(same_below(m, p, st.names.len()));
            still_holds(st, pointed, m, p, vars);
            assert(p.regs[dst] == m.regs[dst]);
            assert(p.regs[at] == m.regs[dst] + offset);
            let w = choose|w: i64| #[trigger]
                p.cells.insert(p.regs[at] as int, w) == k.cells && (worth_of(
                    cx,
                    vars,
                    args@[i],
                ) is Some ==> worth_of(cx, vars, args@[i]) == Some(w));
            let e = Machine { regs: k.regs, cells: m.cells };
            assert forall|reg: VReg| reg.0 < st.names.len() implies #[trigger] k.regs[reg]
                == m.regs[reg] by {
                assert(p.regs[reg] == m.regs[reg]);
                assert(k.regs[reg] == p.regs[reg]);
            }
            assert(same_below(m, e, st.names.len()));
            still_holds(st, put, m, e, vars);
            assert(holds_vars(put, k, vars));
            assert(k.regs[dst] == m.regs[dst]);
            assert forall|j: int|
                i <= j < args@.len() && worth_of(cx, vars, #[trigger] args@[j]) is Some implies Some(
                n.cells[m.regs[dst] + slot(cx, j)],
            ) == worth_of(cx, vars, args@[j]) by {
                if j == i {
                    if i + 1 < args@.len() {
                        assert(payload_offset(cx, (i + 1) as u32) is Some);
                        slots_differ(cx, i, i + 1);
                    }
                    assert(n.cells[m.regs[dst] + slot(cx, i)] == k.cells[m.regs[dst] + slot(
                        cx,
                        i,
                    )]);
                }
            }
            assert forall|c: int| c < m.regs[dst] + slot(cx, i) implies #[trigger] n.cells[c]
                == m.cells[c] by {
                if i + 1 < args@.len() {
                    assert(payload_offset(cx, (i + 1) as u32) is Some);
                    slots_differ(cx, i, i + 1);
                }
                assert(n.cells[c] == k.cells[c]);
            }
            assert forall|reg: VReg| reg.0 < st.names.len() implies #[trigger] n.regs[reg]
                == m.regs[reg] by {
                assert(n.regs[reg] == k.regs[reg]);
            }
        }
    } else {
        nothing_appended(st, after);
        assert forall|m: Machine, n: Machine, vars: Map<Seq<char>, i64>|
            #![trigger runs(code(st, after), m, n), holds_vars(st, m, vars)]
            runs(code(st, after), m, n) && holds_vars(st, m, vars) implies n == m by {
            runs_nothing(m, n);
        }
    }
}

// -- taking out -------------------------------------------------------------

/// A name just given stands for what it was given to, and no other name for anything else.
pub proof fn called_is_bound(st: State, name: Seq<char>, reg: VReg, ty: Ty, other: Seq<char>)
    requires
        st.scopes.len() > 0,
    ensures
        bound(called(st, name, reg, ty), name) == Some((reg, ty)),
        other != name ==> bound(called(st, name, reg, ty), other) == bound(st, other),
        called(st, name, reg, ty).scopes.len() == st.scopes.len(),
{
    reveal(bound);
    reveal(called);
    let after = called(st, name, reg, ty);
    let binding = BindingView { name, reg, ty };
    assert(after.scopes.last() == st.scopes.last().push(binding));
    assert(after.scopes.last().last() == binding);
    assert(after.scopes.last().drop_last() =~= st.scopes.last());
    assert(after.scopes.drop_last() =~= st.scopes.drop_last());
}

/// Whether the names from `i` on are in registers, and a run finds there what stands at
/// their places in memory.
spec fn taken_out(
    cx: ContextView,
    st: State,
    after: State,
    value: Value,
    bindings: Seq<String>,
    i: int,
    count: int,
) -> bool {
    &&& straight(st, after)
    &&& forall|j: int|
        i <= j < count ==> bound(after, (#[trigger] bindings[j])@) is Some && st.names.len() <= (
        bound(after, bindings[j]@)->0).0.0
    &&& forall|m: Machine, n: Machine|
        #![trigger runs(code(st, after), m, n)]
        runs(code(st, after), m, n) ==> {
            &&& same_below(m, n, st.names.len())
            &&& forall|j: int|
                i <= j < count ==> n.regs[(bound(after, (#[trigger] bindings[j])@)->0).0]
                    == m.cells[m.worth(value) + slot(cx, j)]
        }
}

proof fn bindings_are_taken_out(
    cx: ContextView,
    st: State,
    value: Value,
    payload: Seq<Ty>,
    bindings: Seq<String>,
    i: int,
)
    requires
        0 <= i <= bindings.len() <= payload.len() <= u32::MAX,
        plain_types(payload),
        forall|a: int, b: int|
            0 <= a < b < bindings.len() ==> (#[trigger] bindings[a])@ != (
            #[trigger] bindings[b])@,
        st.current.0 < st.blocks.len(),
        st.scopes.len() > 0,
        value_within(value, st.names.len()),
        bindings_from(cx, st, value, payload, bindings, i) is Some,
    ensures
        ({
            let after = bindings_from(cx, st, value, payload, bindings, i)->0;
            &&& taken_out(cx, st, after, value, bindings, i, bindings.len() as int)
            &&& forall|name: Seq<char>|
                (forall|j: int| i <= j < bindings.len() ==> (#[trigger] bindings[j])@ != name)
                    ==> #[trigger] bound(after, name) == bound(st, name)
        }),
    decreases bindings.len() - i,
{
    let after = bindings_from(cx, st, value, payload, bindings, i)->0;
    if i < bindings.len() {
        let name = bindings[i]@;
        let next = binding_of(cx, st, value, payload[i], name, i)->0;
        let (first, dst) = named(st, name)->0;
        let (made, at) = temp(first)->0;
        let offset = payload_offset(cx, i as u32)->0;
        let field = InstrView::Field { dst: at, base: value, offset };
        let load = InstrView::Load { dst, addr: Value::Reg(at) };
        let pointed = emitted(made, field);
        let loaded = emitted(pointed, load);
        assert(!(payload[i] is List));
        assert(next == called(loaded, name, dst, payload[i]));
        reveal(named);
        nothing_appended(st, first);
        one_into_a_new_register(first, field);
        one_appended(pointed, load);
        both_appended(st, first, pointed);
        both_appended(st, pointed, loaded);
        assert(loaded.scopes == st.scopes);
        assert(next.blocks == loaded.blocks && next.current == loaded.current && next.names
            == loaded.names) by {
            reveal(called);
        }
        nothing_appended(loaded, next);
        both_appended(st, loaded, next);
        assert(code(st, next) =~= seq![field] + seq![load]);
        called_is_bound(loaded, name, dst, payload[i], name);
        bindings_are_taken_out(cx, next, value, payload, bindings, i + 1);
        both_appended(st, next, after);
        assert(bound(after, name) == bound(next, name)) by {
            assert forall|j: int| i + 1 <= j < bindings.len() implies (#[trigger] bindings[j])@
                != name by {
                assert(bindings[i]@ != bindings[j]@);
            }
        }
        assert forall|other: Seq<char>|
            (forall|j: int| i <= j < bindings.len() ==> (#[trigger] bindings[j])@ != other)
                implies #[trigger] bound(after, other) == bound(st, other) by {
            assert(bindings[i]@ != other);
            called_is_bound(loaded, name, dst, payload[i], other);
            assert(bound(after, other) == bound(next, other));
            assert(bound(loaded, other) == bound(st, other)) by {
                reveal(bound);
            }
        }
        assert forall|m: Machine, n: Machine|
            #![trigger runs(code(st, after), m, n)]
            runs(code(st, after), m, n) implies same_below(m, n, st.names.len()) && (forall|j: int|
            i <= j < bindings.len() ==> n.regs[(bound(after, (#[trigger] bindings[j])@)->0).0]
                == m.cells[m.worth(value) + slot(cx, j)]) by {
            let k = runs_both(code(st, next), code(next, after), m, n);
            let p = runs_both(seq![field], seq![load], m, k);
            runs_one(field, m, p);
            runs_one(load, p, k);
            assert(same_below(m, k, st.names.len()));
            same_below_twice(m, k, n, st.names.len(), next.names.len());
            assert(k.worth(value) == m.worth(value));
            assert forall|j: int| i <= j < bindings.len() implies n.regs[(bound(
                after,
                (#[trigger] bindings[j])@,
            )->0).0] == m.cells[m.worth(value) + slot(cx, j)] by {
                if j == i {
                    assert(n.regs[dst] == k.regs[dst]);
                }
            }
        }
    } else {
        nothing_appended(st, after);
        assert forall|m: Machine, n: Machine|
            #![trigger runs(code(st, after), m, n)]
            runs(code(st, after), m, n) implies n == m by {
            runs_nothing(m, n);
        }
    }
}

// -- the two together -------------------------------------------------------

/// **What a variant is built with is what a pattern binds.** Run a construction that
/// carries something, and later the top of an arm for the same variant on what was built,
/// its room untouched in between: every name of the pattern holds what the argument at its
/// own position was worth.
pub proof fn what_goes_in_comes_out(
    cx: ContextView,
    st: State,
    dst: VReg,
    e: Expr,
    m: Machine,
    built: Machine,
    vars: Map<Seq<char>, i64>,
    at: State,
    value: Value,
    pattern: Pattern,
    before: Machine,
    bound_to: Machine,
)
    requires
        cx.types.table.layout.word > 0,
        // A variant with something to carry, and a pattern of the same variant.
        e.kind matches ExprKind::Variant { variant, args } && (pattern matches Pattern::Variant {
            variant: same,
            bindings,
        } && same@ == variant@ && bindings@.len() == args@.len() && (forall|a: int, b: int|
            0 <= a < b < bindings@.len() ==> (#[trigger] bindings@[a])@ != (
            #[trigger] bindings@[b])@)),
        type_of(cx, e.id) matches Some(Ty::Enum(id)) && boxed_enum(cx, Ty::Enum(id))
            && payload_types(cx, id, e.kind->Variant_variant@).len()
            == e.kind->Variant_args@.len() <= u32::MAX && plain_types(
            payload_types(cx, id, e.kind->Variant_variant@),
        ),
        e.kind->Variant_args@.len() > 0,
        forall|j: int|
            0 <= j < e.kind->Variant_args@.len() ==> plain_word(
                cx,
                #[trigger] e.kind->Variant_args@[j],
            ),
        scopes_exist(st),
        st.names.len() <= u32::MAX,
        st.current.0 < st.blocks.len(),
        dst.0 < st.names.len(),
        forall|name: Seq<char>| (#[trigger] bound(st, name)) matches Some((reg, _)) ==> reg != dst,
        variant_into_of(cx, st, dst, e) is Some,
        runs(code(st, variant_into_of(cx, st, dst, e)->0), m, built),
        holds_vars(st, m, vars),
        at.current.0 < at.blocks.len(),
        at.scopes.len() > 0,
        value_within(value, at.names.len()),
        payload_bound(cx, at, type_of(cx, e.id)->0, value, pattern) is Some,
        before.cells == built.cells,
        before.worth(value) == built.regs[dst],
        runs(
            code(at, payload_bound(cx, at, type_of(cx, e.id)->0, value, pattern)->0),
            before,
            bound_to,
        ),
    ensures
        ({
            let args = e.kind->Variant_args@;
            let bindings = pattern->Variant_bindings@;
            let arm = payload_bound(cx, at, type_of(cx, e.id)->0, value, pattern)->0;
            forall|i: int|
                0 <= i < args.len() && worth_of(cx, vars, #[trigger] args[i]) is Some ==> {
                    &&& bound(arm, bindings[i]@) is Some
                    &&& worth_of(cx, vars, args[i]) == Some(
                        bound_to.regs[(bound(arm, bindings[i]@)->0).0],
                    )
                }
        }),
{
    let args = e.kind->Variant_args;
    let bindings = pattern->Variant_bindings@;
    let id = (type_of(cx, e.id)->0)->Enum_0;
    let after = variant_into_of(cx, st, dst, e)->0;
    let first = after_the_tag(cx, st, dst, e);
    tagged(cx, st, dst, e, m, m);
    assert(first.names == st.names);
    payload_is_carried(cx, first, dst, args, 0);
    both_appended(st, first, after);
    let k = runs_both(code(st, first), code(first, after), m, built);
    tagged(cx, st, dst, e, m, k);
    assert(holds_vars(first, k, vars)) by {
        reveal(bound);
        assert forall|name: Seq<char>| #[trigger] bound(first, name) is Some implies k.regs[(bound(
            first,
            name,
        )->0).0] == vars[name] by {
            assert(bound(st, name) == bound(first, name));
            super::machine::bound_exists(st, name);
        }
    }
    assert(carried(cx, first, after, dst, args@, 0));
    let payload = payload_types(cx, id, e.kind->Variant_variant@);
    bindings_are_taken_out(cx, at, value, payload, bindings, 0);
    assert forall|i: int|
        0 <= i < args@.len() && worth_of(cx, vars, #[trigger] args@[i]) is Some implies {
        let arm = payload_bound(cx, at, type_of(cx, e.id)->0, value, pattern)->0;
        &&& bound(arm, bindings[i]@) is Some
        &&& worth_of(cx, vars, args@[i]) == Some(bound_to.regs[(bound(arm, bindings[i]@)->0).0])
    } by {
        assert(bindings[i]@ == bindings[i]@);
        assert(built.regs[dst] == k.regs[dst]);
    }
}

/// A construction that carries something, up to where its values go in.
spec fn after_the_tag(cx: ContextView, st: State, dst: VReg, e: Expr) -> State {
    let id = (type_of(cx, e.id)->0)->Enum_0;
    let bytes = payload_offset(
        cx,
        crate::ast::most_carried(cx.types.table.enums@[id.0 as int].variants@) as u32,
    )->0;
    let tag = variant_number(cx, id, e.kind->Variant_variant@)->0;
    emitted(
        emitted(
            st,
            InstrView::RtCall {
                dst: Some(dst),
                callee: Runtime::Alloc,
                args: seq![Value::Const(bytes as i64)],
            },
        ),
        InstrView::Store { addr: Value::Reg(dst), value: Value::Const(tag) },
    )
}

proof fn tagged(cx: ContextView, st: State, dst: VReg, e: Expr, m: Machine, n: Machine)
    requires
        st.current.0 < st.blocks.len(),
    ensures
        went_on(st, after_the_tag(cx, st, dst, e)),
        after_the_tag(cx, st, dst, e).names == st.names,
        runs(code(st, after_the_tag(cx, st, dst, e)), m, n) ==> {
            let id = (type_of(cx, e.id)->0)->Enum_0;
            &&& forall|reg: VReg| reg != dst ==> #[trigger] n.regs[reg] == m.regs[reg]
            &&& n.cells == m.cells.insert(
                n.regs[dst] as int,
                variant_number(cx, id, e.kind->Variant_variant@)->0,
            )
        },
{
    let id = (type_of(cx, e.id)->0)->Enum_0;
    let bytes = payload_offset(
        cx,
        crate::ast::most_carried(cx.types.table.enums@[id.0 as int].variants@) as u32,
    )->0;
    let tag = variant_number(cx, id, e.kind->Variant_variant@)->0;
    let alloc = InstrView::RtCall {
        dst: Some(dst),
        callee: Runtime::Alloc,
        args: seq![Value::Const(bytes as i64)],
    };
    let store = InstrView::Store { addr: Value::Reg(dst), value: Value::Const(tag) };
    let one = emitted(st, alloc);
    one_appended(st, alloc);
    one_appended(one, store);
    both_appended(st, one, emitted(one, store));
    if runs(code(st, after_the_tag(cx, st, dst, e)), m, n) {
        let k = runs_both(seq![alloc], seq![store], m, n);
        runs_one(alloc, m, k);
        runs_one(store, k, n);
    }
}

// -- which one it is --------------------------------------------------------

/// The number found is where the name first stands.
pub proof fn variants_are_found(variants: Seq<VariantInfo>, name: Seq<char>, from: nat)
    ensures
        match variant_index(variants, name, from) {
            Some(at) => {
                &&& from <= at < variants.len()
                &&& variants[at as int].name@ == name
                &&& forall|k: int| from <= k < at ==> (#[trigger] variants[k]).name@ != name
            },
            None => forall|k: int| from <= k < variants.len() ==> (#[trigger] variants[k]).name@
                != name,
        },
    decreases variants.len() - from,
{
    if from < variants.len() && variants[from as int].name@ != name {
        variants_are_found(variants, name, from + 1);
    }
}

/// **An arm is for the variant it names and no other.** Build a variant, and later test
/// what was built against the pattern of an arm, its room untouched in between: the test
/// comes out as 1 where the pattern names the variant built, and as 0 where it names
/// another.
pub proof fn arms_tell_variants_apart(
    cx: ContextView,
    st: State,
    dst: VReg,
    e: Expr,
    m: Machine,
    built: Machine,
    vars: Map<Seq<char>, i64>,
    at: State,
    value: Value,
    pattern: Pattern,
    before: Machine,
    told: Machine,
)
    requires
        cx.types.table.layout.word > 0,
        e.kind is Variant,
        pattern is Variant,
        type_of(cx, e.id) matches Some(Ty::Enum(id)) && cx.types.table.enums@[id.0 as int].variants@.len()
            <= u32::MAX,
        e.kind->Variant_args@.len() <= u32::MAX,
        boxed_enum(cx, type_of(cx, e.id)->0) ==> forall|j: int|
            0 <= j < e.kind->Variant_args@.len() ==> plain_word(
                cx,
                #[trigger] e.kind->Variant_args@[j],
            ),
        scopes_exist(st),
        st.names.len() <= u32::MAX,
        st.current.0 < st.blocks.len(),
        dst.0 < st.names.len(),
        forall|name: Seq<char>| (#[trigger] bound(st, name)) matches Some((reg, _)) ==> reg != dst,
        variant_into_of(cx, st, dst, e) is Some,
        runs(code(st, variant_into_of(cx, st, dst, e)->0), m, built),
        holds_vars(st, m, vars),
        at.names.len() <= u32::MAX,
        at.current.0 < at.blocks.len(),
        value_within(value, at.names.len()),
        pattern_tested(cx, at, type_of(cx, e.id)->0, value, pattern) is Some,
        before.cells == built.cells,
        before.worth(value) == built.regs[dst],
        runs(
            code(at, (pattern_tested(cx, at, type_of(cx, e.id)->0, value, pattern)->0).0),
            before,
            told,
        ),
    ensures
        told.worth((pattern_tested(cx, at, type_of(cx, e.id)->0, value, pattern)->0).1) == (
        if pattern->Variant_variant@ == e.kind->Variant_variant@ {
            1int
        } else {
            0
        }),
{
    let ty = type_of(cx, e.id)->0;
    let id = ty->Enum_0;
    let variants = cx.types.table.enums@[id.0 as int].variants@;
    let name = e.kind->Variant_variant@;
    let tag = variant_number(cx, id, name)->0;
    variants_are_found(variants, name, 0);
    variants_are_found(variants, pattern->Variant_variant@, 0);
    let after = variant_into_of(cx, st, dst, e)->0;
    let args = e.kind->Variant_args;
    if !boxed_enum(cx, ty) {
        one_appended(st, InstrView::Const { dst, val: tag });
        runs_one(InstrView::Const { dst, val: tag }, m, built);
    } else if args@.len() == 0 {
        let instr = InstrView::VariantAddr { dst, id, tag: tag as u32 };
        one_appended(st, instr);
        runs_one(instr, m, built);
    } else {
        let first = after_the_tag(cx, st, dst, e);
        tagged(cx, st, dst, e, m, m);
        payload_is_carried(cx, first, dst, args, 0);
        both_appended(st, first, after);
        let k = runs_both(code(st, first), code(first, after), m, built);
        tagged(cx, st, dst, e, m, k);
        assert(holds_vars(first, k, vars)) by {
            reveal(bound);
            assert forall|name: Seq<char>| #[trigger] bound(first, name) is Some implies k.regs[(
            bound(first, name)->0).0] == vars[name] by {
                assert(bound(st, name) == bound(first, name));
            }
        }
        assert(carried(cx, first, after, dst, args@, 0));
        assert(payload_offset(cx, 0) is Some);
        assert(slot(cx, 0) > 0);
        assert(built.cells[k.regs[dst] as int] == k.cells[k.regs[dst] as int]);
        assert(built.regs[dst] == k.regs[dst]);
    }
    let (read, found) = tag_read(cx, at, ty, value)->0;
    let (done, told_in) = arm_tested(cx, read, ty, found, pattern)->0;
    let wanted = variant_number(cx, id, pattern->Variant_variant@)->0;
    if boxed_enum(cx, ty) {
        let (made, reg) = temp(at)->0;
        temp_is_new(at);
        let load = InstrView::Load { dst: reg, addr: value };
        one_appended(made, load);
        nothing_appended(at, made);
        both_appended(at, made, read);
        assert(code(at, read) =~= seq![load]);
    } else {
        nothing_appended(at, read);
    }
    let (made, reg) = temp(read)->0;
    temp_is_new(read);
    let test = InstrView::Cmp {
        num: Num::Int,
        op: crate::ast::CmpOp::Eq,
        dst: reg,
        lhs: found,
        rhs: Value::Const(wanted),
    };
    one_appended(made, test);
    nothing_appended(read, made);
    both_appended(read, made, done);
    both_appended(at, read, done);
    assert(code(read, done) =~= seq![test]);
    let k = runs_both(code(at, read), code(read, done), before, told);
    if boxed_enum(cx, ty) {
        runs_one(InstrView::Load { dst: found->Reg_0, addr: value }, before, k);
    } else {
        runs_nothing(before, k);
    }
    runs_one(test, k, told);
    assert(k.worth(found) == tag);
    assert((tag == wanted) == (name == pattern->Variant_variant@));
}

/// What an arm's test is worked out with: the tag of what is matched, held against what
/// the pattern names.
pub open spec fn pattern_tested(
    cx: ContextView,
    st: State,
    ty: Ty,
    value: Value,
    pattern: Pattern,
) -> Option<(State, Value)> {
    match tag_read(cx, st, ty, value) {
        Some((st, tag)) => arm_tested(cx, st, ty, tag, pattern),
        None => None,
    }
}

} // verus!
