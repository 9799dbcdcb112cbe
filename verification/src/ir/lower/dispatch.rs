//! That a call reaches what it names, with what it was given.

use vstd::prelude::*;

use super::machine::{
    both_appended, code, expressions_are_worth_what_they_say, holds_vars, nothing_appended,
    one_appended, operand_right, plain, runs, runs_both, runs_nothing, runs_one, same_below,
    same_below_twice, scopes_exist, still_holds, temp_is_new, went_on, went_on_twice, worth_of,
    Machine,
};
use super::meaning::{
    args_from, builtin_of, call_into_of, call_parts_of, call_stmt_of, expr_of, method_call_of,
    room_handed, type_of,
};
use super::program::tables_of;
use super::state::{allocated, emitted, first_at, temp, ContextView, State};
use crate::ast::{method_named, Expr, ExprKind, MethodInfo, Ty, TypeTable};
use crate::ir::func::leading;
use crate::ir::instr::{InstrView, Runtime};
use crate::ir::value::{value_within, FuncId, VReg, Value};

verus! {

// -- what a call is given ---------------------------------------------------

/// **Arguments come in the order they are written.** Each is worth what its own
/// expression says, and stands at its own place behind what was there.
pub proof fn arguments_are_worth_what_they_say(
    cx: ContextView,
    st: State,
    args: Vec<Expr>,
    i: int,
    values: Seq<Value>,
)
    requires
        0 <= i <= args@.len(),
        forall|j: int| 0 <= j < args@.len() ==> plain(cx, #[trigger] args@[j]),
        scopes_exist(st),
        st.names.len() <= u32::MAX,
        st.current.0 < st.blocks.len(),
        args_from(cx, st, args, i, values) is Some,
    ensures
        ({
            let (after, given) = args_from(cx, st, args, i, values)->0;
            &&& went_on(st, after)
            &&& given.len() == values.len() + args@.len() - i
            &&& forall|j: int| 0 <= j < values.len() ==> #[trigger] given[j] == values[j]
            &&& forall|j: int|
                values.len() <= j < given.len() ==> value_within(
                    #[trigger] given[j],
                    after.names.len(),
                )
            &&& forall|m: Machine, n: Machine, vars: Map<Seq<char>, i64>|
                #![trigger runs(code(st, after), m, n), holds_vars(st, m, vars)]
                runs(code(st, after), m, n) && holds_vars(st, m, vars) ==> {
                    &&& same_below(m, n, st.names.len())
                    &&& forall|j: int|
                        i <= j < args@.len() && worth_of(cx, vars, #[trigger] args@[j]) is Some
                            ==> worth_of(cx, vars, args@[j]) == Some(
                            n.worth(given[values.len() + j - i]),
                        )
                }
        }),
    decreases args@.len() - i,
{
    let (after, given) = args_from(cx, st, args, i, values)->0;
    if i < args@.len() {
        let (mid, value) = expr_of(cx, st, args@[i])->0;
        assert(plain(cx, args@[i]));
        expressions_are_worth_what_they_say(cx, st, args@[i]);
        assert(scopes_exist(mid));
        arguments_are_worth_what_they_say(cx, mid, args, i + 1, values.push(value));
        went_on_twice(st, mid, after);
        assert(given[values.len() as int] == value) by {
            assert(values.push(value)[values.len() as int] == value);
        }
        assert forall|j: int| 0 <= j < values.len() implies #[trigger] given[j] == values[j] by {
            assert(given[j] == values.push(value)[j]);
        }
        assert forall|m: Machine, n: Machine, vars: Map<Seq<char>, i64>|
            #![trigger runs(code(st, after), m, n), holds_vars(st, m, vars)]
            runs(code(st, after), m, n) && holds_vars(st, m, vars) implies same_below(
            m,
            n,
            st.names.len(),
        ) && (forall|j: int|
            i <= j < args@.len() && worth_of(cx, vars, #[trigger] args@[j]) is Some ==> worth_of(
                cx,
                vars,
                args@[j],
            ) == Some(n.worth(given[values.len() + j - i]))) by {
            let k = runs_both(code(st, mid), code(mid, after), m, n);
            assert(operand_right(cx, st, args@[i], mid, value));
            still_holds(st, mid, m, k, vars);
            same_below_twice(m, k, n, st.names.len(), mid.names.len());
            assert forall|j: int|
                i <= j < args@.len() && worth_of(cx, vars, #[trigger] args@[j]) is Some implies
                worth_of(cx, vars, args@[j]) == Some(n.worth(given[values.len() + j - i])) by {
                if j == i {
                    assert(n.worth(value) == k.worth(value));
                }
            }
        }
    } else {
        nothing_appended(st, after);
        assert forall|m: Machine, n: Machine, vars: Map<Seq<char>, i64>|
            #![trigger runs(code(st, after), m, n), holds_vars(st, m, vars)]
            runs(code(st, after), m, n) && holds_vars(st, m, vars) implies same_below(
            m,
            n,
            st.names.len(),
        ) by {
            runs_nothing(m, n);
        }
    }
}

/// Where an answer goes: into the register it is wanted in, or into room whose address
/// leads what the call is given.
proof fn room_is_handed(
    cx: ContextView,
    st: State,
    dst: Option<VReg>,
    ret: Option<Ty>,
    values: Seq<Value>,
)
    requires
        st.names.len() <= u32::MAX,
        st.current.0 < st.blocks.len(),
        room_handed(cx, st, dst, ret, values) is Some,
    ensures
        ({
            let (after, to, given) = room_handed(cx, st, dst, ret, values)->0;
            &&& went_on(st, after)
            &&& leading(ret) == 0 ==> to == dst && given == values
            &&& leading(ret) == 1 ==> {
                &&& to is None
                &&& given.len() == values.len() + 1
                &&& given[0] is Reg
                &&& dst is Some ==> given[0] == Value::Reg(dst->0)
                &&& dst is None ==> given[0]->Reg_0.0 >= st.names.len()
                &&& forall|j: int| 0 <= j < values.len() ==> given[j + 1] == #[trigger] values[j]
            }
            &&& forall|m: Machine, n: Machine|
                #![trigger runs(code(st, after), m, n)]
                runs(code(st, after), m, n) ==> {
                    &&& n.cells == m.cells
                    &&& forall|reg: VReg|
                        !(leading(ret) == 1 && given[0] == Value::Reg(reg)) ==> #[trigger] n.regs[reg]
                            == m.regs[reg]
                }
        }),
{
    let (after, to, given) = room_handed(cx, st, dst, ret, values)->0;
    if leading(ret) == 0 {
        nothing_appended(st, after);
        assert forall|m: Machine, n: Machine|
            #![trigger runs(code(st, after), m, n)]
            runs(code(st, after), m, n) implies n == m by {
            runs_nothing(m, n);
        }
    } else {
        let (made, out) = match dst {
            Some(reg) => (st, reg),
            None => temp(st)->0,
        };
        if dst is None {
            temp_is_new(st);
            assert(made.names.len() <= u32::MAX) by {
                reveal(temp);
            }
        }
        reveal(allocated);
        let bytes = cx.types.table.bytes_of(ret->0);
        let used = if made.frame_bytes + bytes > u32::MAX {
            u32::MAX
        } else {
            (made.frame_bytes + bytes) as u32
        };
        let roomy = State {
            frame_bytes: used,
            frame_peak: if used > made.frame_peak {
                used
            } else {
                made.frame_peak
            },
            ..made
        };
        let frame = InstrView::Frame { dst: out, offset: made.frame_bytes };
        assert(after == emitted(roomy, frame));
        nothing_appended(st, roomy);
        one_appended(roomy, frame);
        both_appended(st, roomy, after);
        assert(code(st, after) =~= seq![frame]);
        assert forall|m: Machine, n: Machine|
            #![trigger runs(code(st, after), m, n)]
            runs(code(st, after), m, n) implies n.cells == m.cells && (forall|reg: VReg|
            given[0] != Value::Reg(reg) ==> #[trigger] n.regs[reg] == m.regs[reg]) by {
            runs_one(frame, m, n);
        }
    }
}

/// What an instruction hands to what it calls.
pub open spec fn handed_on(instr: InstrView) -> Seq<Value> {
    match instr {
        InstrView::Call { args, .. } => args,
        InstrView::CallVirtual { args, .. } => args,
        InstrView::RtCall { args, .. } => args,
        _ => seq![],
    }
}

/// Where an instruction puts what it was answered.
pub open spec fn answered_in(instr: InstrView) -> Option<VReg> {
    match instr {
        InstrView::Call { dst, .. } => dst,
        InstrView::CallVirtual { dst, .. } => dst,
        InstrView::RtCall { dst, .. } => dst,
        _ => None,
    }
}

/// Whether a call puts its answer where it is wanted, and is given `count` things and no
/// others: what does not fit in a register goes into room whose address comes first.
pub open spec fn answered_as(
    instr: InstrView,
    wanted: Option<VReg>,
    ret: Option<Ty>,
    count: nat,
) -> bool {
    let given = handed_on(instr);
    if ret is Some && !(ret->0).in_a_register() {
        &&& answered_in(instr) is None
        &&& given.len() == count + 1
        &&& given[0] is Reg
        &&& wanted is Some ==> given[0] == Value::Reg(wanted->0)
    } else {
        &&& answered_in(instr) == wanted
        &&& given.len() == count
    }
}

/// Whether what stands behind an address of room is worth what `args` say.
pub open spec fn given_as(
    cx: ContextView,
    vars: Map<Seq<char>, i64>,
    n: Machine,
    given: Seq<Value>,
    lead: int,
    args: Seq<Expr>,
) -> bool {
    forall|j: int|
        0 <= j < args.len() && worth_of(cx, vars, #[trigger] args[j]) is Some && !(lead > 0
            && given[lead + j] == given[0]) ==> worth_of(cx, vars, args[j]) == Some(
            n.worth(given[lead + j]),
        )
}

/// A call of a function, of a method or of a routine, with its answer wanted or not.
pub open spec fn call_made(
    cx: ContextView,
    st: State,
    wanted: Option<VReg>,
    e: Expr,
) -> Option<State> {
    match (e.kind, wanted) {
        (ExprKind::MethodCall { .. }, _) => method_call_of(cx, st, wanted, e),
        (_, Some(dst)) => call_into_of(cx, st, dst, e),
        (_, None) => call_stmt_of(cx, st, e),
    }
}

proof fn last_of_all(st: State, mid: State, instr: InstrView)
    requires
        went_on(st, mid),
    ensures
        went_on(st, emitted(mid, instr)),
        code(st, emitted(mid, instr)) == code(st, mid).push(instr),
        code(st, emitted(mid, instr)).drop_last() == code(st, mid),
        code(st, emitted(mid, instr)).last() == instr,
{
    one_appended(mid, instr);
    went_on_twice(st, mid, emitted(mid, instr));
    assert(code(st, mid) + seq![instr] =~= code(st, mid).push(instr));
    assert(code(st, mid).push(instr).drop_last() =~= code(st, mid));
}

/// **A call calls the function it names, on its arguments.** The last instruction of a
/// call by name is a call of the first function of that name; its answer goes where it is
/// wanted; and where the instructions before it are run, what it is given is worth what
/// the arguments are, each at its own place.
pub proof fn calls_reach_their_function(
    cx: ContextView,
    st: State,
    wanted: Option<VReg>,
    e: Expr,
    m: Machine,
    n: Machine,
    vars: Map<Seq<char>, i64>,
)
    requires
        e.kind is Call,
        builtin_of(e) is None,
        forall|j: int|
            0 <= j < e.kind->Call_args@.len() ==> plain(cx, #[trigger] e.kind->Call_args@[j]),
        scopes_exist(st),
        st.names.len() <= u32::MAX,
        cx.names.len() <= u32::MAX,
        st.current.0 < st.blocks.len(),
        call_made(cx, st, wanted, e) is Some,
        wanted is Some ==> type_of(cx, e.id) is Some,
        runs(code(st, call_made(cx, st, wanted, e)->0).drop_last(), m, n),
        holds_vars(st, m, vars),
    ensures
        ({
            let instr = code(st, call_made(cx, st, wanted, e)->0).last();
            let name = e.kind->Call_name@;
            let args = e.kind->Call_args@;
            &&& instr is Call
            &&& cx.names[instr->Call_callee.0 as int] == name
            &&& forall|k: int| 0 <= k < instr->Call_callee.0 ==> #[trigger] cx.names[k] != name
            &&& ({
                let ret = if wanted is Some {
                    type_of(cx, e.id)
                } else {
                    cx.types.returns@[instr->Call_callee.0 as int]
                };
                answered_as(instr, wanted, ret, args.len())
            })
            &&& given_as(
                cx,
                vars,
                n,
                handed_on(instr),
                handed_on(instr).len() - args.len(),
                args,
            )
        }),
{
    let args = e.kind->Call_args;
    let name = e.kind->Call_name@;
    let after = call_made(cx, st, wanted, e)->0;
    let (mid, callee, values) = call_parts_of(cx, st, e)->0;
    arguments_are_worth_what_they_say(cx, st, args, 0, seq![]);
    first_is_first(cx.names, name, 0);
    let ret = if wanted is Some {
        type_of(cx, e.id)
    } else {
        cx.types.returns@[callee.0 as int]
    };
    room_is_handed(cx, mid, wanted, ret, values);
    let (ready, dst, given) = room_handed(cx, mid, wanted, ret, values)->0;
    went_on_twice(st, mid, ready);
    let instr = InstrView::Call { dst, callee, args: given };
    last_of_all(st, ready, instr);
    let k = runs_both(code(st, mid), code(mid, ready), m, n);
    given_still(cx, mid, vars, k, n, ret, values, given, args@);
}

/// What was given stays worth what it was while room is made for the answer.
proof fn given_still(
    cx: ContextView,
    mid: State,
    vars: Map<Seq<char>, i64>,
    k: Machine,
    n: Machine,
    ret: Option<Ty>,
    values: Seq<Value>,
    given: Seq<Value>,
    args: Seq<Expr>,
)
    requires
        values.len() == args.len(),
        forall|j: int|
            0 <= j < args.len() && worth_of(cx, vars, #[trigger] args[j]) is Some ==> worth_of(
                cx,
                vars,
                args[j],
            ) == Some(k.worth(values[j])),
        leading(ret) == 0 ==> given == values,
        leading(ret) == 1 ==> given.len() == values.len() + 1 && given[0] is Reg && (forall|
            j: int,
        |
            0 <= j < values.len() ==> given[j + 1] == #[trigger] values[j]),
        forall|reg: VReg|
            !(leading(ret) == 1 && given[0] == Value::Reg(reg)) ==> #[trigger] n.regs[reg]
                == k.regs[reg],
    ensures
        given_as(cx, vars, n, given, given.len() - args.len(), args),
{
    let lead = given.len() - args.len();
    assert forall|j: int|
        0 <= j < args.len() && worth_of(cx, vars, #[trigger] args[j]) is Some && !(lead > 0
            && given[lead + j] == given[0]) implies worth_of(cx, vars, args[j]) == Some(
        n.worth(given[lead + j]),
    ) by {
        assert(given[lead + j] == values[j]);
    }
}

/// The first entry found is the first there is.
pub proof fn first_is_first(list: Seq<Seq<char>>, entry: Seq<char>, from: nat)
    ensures
        match first_at(list, entry, from) {
            Some(at) => {
                &&& from <= at < list.len()
                &&& list[at as int] == entry
                &&& forall|k: int| from <= k < at ==> #[trigger] list[k] != entry
            },
            None => forall|k: int| from <= k < list.len() ==> #[trigger] list[k] != entry,
        },
    decreases list.len() - from,
{
    if from < list.len() && list[from as int] != entry {
        first_is_first(list, entry, from + 1);
    }
}

/// **A call of a built-in function hands on its arguments**, and answers where it is
/// wanted.
pub proof fn builtins_are_given_their_arguments(
    cx: ContextView,
    st: State,
    wanted: Option<VReg>,
    e: Expr,
    m: Machine,
    n: Machine,
    vars: Map<Seq<char>, i64>,
)
    requires
        e.kind is Call,
        builtin_of(e) is Some,
        forall|j: int|
            0 <= j < e.kind->Call_args@.len() ==> plain(cx, #[trigger] e.kind->Call_args@[j]),
        scopes_exist(st),
        st.names.len() <= u32::MAX,
        st.current.0 < st.blocks.len(),
        call_made(cx, st, wanted, e) is Some,
        runs(code(st, call_made(cx, st, wanted, e)->0).drop_last(), m, n),
        holds_vars(st, m, vars),
    ensures
        ({
            let instr = code(st, call_made(cx, st, wanted, e)->0).last();
            let args = e.kind->Call_args@;
            &&& instr is RtCall
            &&& instr->RtCall_callee == Runtime::spec_of(builtin_of(e)->0)
            &&& answered_in(instr) == wanted
            &&& handed_on(instr).len() == args.len()
            &&& given_as(cx, vars, n, handed_on(instr), 0, args)
        }),
{
    let args = e.kind->Call_args;
    arguments_are_worth_what_they_say(cx, st, args, 0, seq![]);
    let (mid, values) = args_from(cx, st, args, 0, seq![])->0;
    let callee = Runtime::spec_of(builtin_of(e)->0);
    last_of_all(st, mid, InstrView::RtCall { dst: wanted, callee, args: values });
}

// -- methods ----------------------------------------------------------------

/// Whether one class is another, so many steps up.
pub open spec fn is_above(table: TypeTable, above: int, below: int, steps: nat) -> bool
    decreases steps,
{
    if steps == 0 {
        above == below
    } else {
        0 <= below < table.classes@.len() && match table.classes@[below].parent {
            Some(parent) => is_above(table, above, parent.0 as int, (steps - 1) as nat),
            None => false,
        }
    }
}

/// Whether every class lists its methods in the order of their slots, each name once, and
/// has the names of its parent at the slots the parent has them.
pub open spec fn slots_agree(table: TypeTable) -> bool {
    &&& forall|c: int, k: int|
        #![trigger table.classes@[c].methods@[k]]
        0 <= c < table.classes@.len() && 0 <= k < table.classes@[c].methods@.len()
            ==> table.classes@[c].methods@[k].slot == k
    &&& forall|c: int, i: int, k: int|
        #![trigger table.classes@[c].methods@[i], table.classes@[c].methods@[k]]
        0 <= c < table.classes@.len() && 0 <= i < k < table.classes@[c].methods@.len()
            ==> table.classes@[c].methods@[i].name@ != table.classes@[c].methods@[k].name@
    &&& forall|c: int|
        0 <= c < table.classes@.len() ==> (#[trigger] table.classes@[c]).parent is Some ==> {
            let parent = (table.classes@[c].parent->0).0 as int;
            &&& parent < table.classes@.len()
            &&& keeps_names(table.classes@[parent].methods@, table.classes@[c].methods@)
        }
}

/// Whether one list of methods has the names of another at the same places.
pub open spec fn keeps_names(few: Seq<MethodInfo>, many: Seq<MethodInfo>) -> bool {
    &&& few.len() <= many.len()
    &&& forall|k: int|
        #![trigger many[k]]
        0 <= k < few.len() ==> many[k].name@ == few[k].name@
}

proof fn names_are_kept(table: TypeTable, above: int, below: int, steps: nat)
    requires
        slots_agree(table),
        0 <= below < table.classes@.len(),
        is_above(table, above, below, steps),
    ensures
        0 <= above < table.classes@.len(),
        keeps_names(table.classes@[above].methods@, table.classes@[below].methods@),
    decreases steps,
{
    if steps > 0 {
        assert(table.classes@[below].parent is Some);
        let parent = (table.classes@[below].parent->0).0 as int;
        names_are_kept(table, above, parent, (steps - 1) as nat);
        let few = table.classes@[above].methods@;
        let mid = table.classes@[parent].methods@;
        let many = table.classes@[below].methods@;
        assert forall|k: int| #![trigger many[k]] 0 <= k < few.len() implies many[k].name@
            == few[k].name@ by {
            assert(mid[k].name@ == few[k].name@);
        }
    }
}

/// The method a name means is the first there is of that name.
pub proof fn methods_are_found(methods: Seq<MethodInfo>, name: Seq<char>) -> (at: int)
    ensures
        match method_named(methods, name) {
            Some(method) => {
                &&& 0 <= at < methods.len()
                &&& methods[at] == method
                &&& method.name@ == name
                &&& forall|k: int| 0 <= k < at ==> (#[trigger] methods[k]).name@ != name
            },
            None => forall|k: int| 0 <= k < methods.len() ==> (#[trigger] methods[k]).name@
                != name,
        },
    decreases methods.len(),
{
    if methods.len() == 0 {
        0
    } else if methods[0].name@ == name {
        0
    } else {
        let rest = methods.drop_first();
        let at = methods_are_found(rest, name);
        assert forall|k: int|
            0 < k < methods.len() && (method_named(rest, name) is None || k < at + 1) implies (
        #[trigger] methods[k]).name@ != name by {
            assert(rest[k - 1].name@ != name);
        }
        at + 1
    }
}

/// The function an instruction calls on an object of a class.
pub open spec fn reached(table: TypeTable, instr: InstrView, class: int) -> FuncId {
    match instr {
        InstrView::CallVirtual { slot, .. } => tables_of(table)[class][slot as int],
        _ => instr->Call_callee,
    }
}

/// **A method call reaches the method the object's own class has.** Whatever class at or
/// below the declared one the object is of, what the call finds, directly or in that
/// class's table, is the function that class has under the name; the object is the
/// receiver and comes first of what the function is given, and the arguments follow, each
/// worth what it says.
pub proof fn methods_are_reached(
    cx: ContextView,
    st: State,
    wanted: Option<VReg>,
    e: Expr,
    class: int,
    steps: nat,
    m: Machine,
    n: Machine,
    vars: Map<Seq<char>, i64>,
)
    requires
        e.kind is MethodCall,
        type_of(cx, e.kind->MethodCall_receiver.id) matches Some(Ty::Class(id)) && is_above(
            cx.types.table,
            id.0 as int,
            class,
            steps,
        ),
        0 <= class < cx.types.table.classes@.len(),
        slots_agree(cx.types.table),
        plain(cx, *e.kind->MethodCall_receiver),
        forall|j: int|
            0 <= j < e.kind->MethodCall_args@.len() ==> plain(
                cx,
                #[trigger] e.kind->MethodCall_args@[j],
            ),
        scopes_exist(st),
        st.names.len() <= u32::MAX,
        st.current.0 < st.blocks.len(),
        call_made(cx, st, wanted, e) is Some,
        runs(code(st, call_made(cx, st, wanted, e)->0).drop_last(), m, n),
        holds_vars(st, m, vars),
    ensures
        ({
            let table = cx.types.table;
            let instr = code(st, call_made(cx, st, wanted, e)->0).last();
            let name = e.kind->MethodCall_name@;
            let args = e.kind->MethodCall_args@;
            let methods = table.classes@[class].methods@;
            let given = handed_on(instr);
            let lead = given.len() - args.len() - 1;
            &&& instr is Call || instr is CallVirtual
            &&& exists|k: int|
                0 <= k < methods.len() && (#[trigger] methods[k]).name@ == name
            &&& forall|k: int|
                0 <= k < methods.len() && (#[trigger] methods[k]).name@ == name ==> {
                    &&& reached(table, instr, class) == FuncId(methods[k].function)
                    &&& steps == 0 ==> answered_as(
                        instr,
                        wanted,
                        if wanted is Some {
                            type_of(cx, e.id)
                        } else {
                            cx.types.returns@[methods[k].function as int]
                        },
                        args.len() + 1,
                    )
                }
            &&& 0 <= lead <= 1
            &&& instr is CallVirtual ==> instr->receiver == given[lead]
            &&& given_as(cx, vars, n, given, lead, seq![*e.kind->MethodCall_receiver] + args)
        }),
{
    let table = cx.types.table;
    let id = (type_of(cx, e.kind->MethodCall_receiver.id)->0)->Class_0;
    let above = id.0 as int;
    let name = e.kind->MethodCall_name@;
    let args = e.kind->MethodCall_args;
    let receiver = *e.kind->MethodCall_receiver;
    let methods = table.classes@[class].methods@;
    names_are_kept(table, above, class, steps);
    let at = methods_are_found(table.classes@[above].methods@, name);
    let method = method_named(table.classes@[above].methods@, name)->0;
    assert(table.classes@[above].methods@[at].slot == at);
    assert(methods[at].name@ == name);
    let (first, object) = expr_of(cx, st, receiver)->0;
    expressions_are_worth_what_they_say(cx, st, receiver);
    assert(scopes_exist(first));
    arguments_are_worth_what_they_say(cx, first, args, 0, seq![object]);
    let (mid, values) = args_from(cx, first, args, 0, seq![object])->0;
    assert(values[0] == seq![object][0]);
    went_on_twice(st, first, mid);
    let ret = if wanted is Some {
        type_of(cx, e.id)
    } else {
        cx.types.returns@[method.function as int]
    };
    room_is_handed(cx, mid, wanted, ret, values);
    let (ready, dst, given) = room_handed(cx, mid, wanted, ret, values)->0;
    went_on_twice(st, mid, ready);
    let after = call_made(cx, st, wanted, e)->0;
    let instr = if table.sealed(id) {
        InstrView::Call { dst, callee: FuncId(method.function), args: given }
    } else {
        InstrView::CallVirtual { dst, slot: method.slot, receiver: object, args: given }
    };
    assert(after == emitted(ready, instr));
    last_of_all(st, ready, instr);
    assert forall|k: int|
        0 <= k < methods.len() && (#[trigger] methods[k]).name@ == name implies reached(
        table,
        instr,
        class,
    ) == FuncId(methods[k].function) by {
        if k < at {
            assert(methods[k].name@ != methods[at].name@);
        } else if at < k {
            assert(methods[at].name@ != methods[k].name@);
        }
        if table.sealed(id) {
            if steps > 0 {
                has_a_child(table, above, class, steps);
            }
        }
    }
    let k = runs_both(code(st, mid), code(mid, ready), m, n);
    let j = runs_both(code(st, first), code(first, mid), m, k);
    assert(operand_right(cx, st, receiver, first, object));
    still_holds(st, first, m, j, vars);
    let all = seq![receiver] + args@;
    assert(k.worth(object) == j.worth(object));
    assert forall|i: int|
        0 <= i < all.len() && worth_of(cx, vars, #[trigger] all[i]) is Some implies worth_of(
        cx,
        vars,
        all[i],
    ) == Some(k.worth(values[i])) by {
        if i > 0 {
            assert(all[i] == args@[i - 1]);
        }
    }
    given_still(cx, mid, vars, k, n, ret, values, given, all);
}

/// What has something below it is not sealed.
proof fn has_a_child(table: TypeTable, above: int, below: int, steps: nat)
    requires
        slots_agree(table),
        0 <= below < table.classes@.len(),
        steps > 0,
        is_above(table, above, below, steps),
    ensures
        exists|c: int|
            0 <= c < table.classes@.len() && (#[trigger] table.classes@[c]).parent is Some
                && (table.classes@[c].parent->0).0 == above,
    decreases steps,
{
    assert(table.classes@[below].parent is Some);
    if steps > 1 {
        has_a_child(table, above, (table.classes@[below].parent->0).0 as int, (steps - 1) as nat);
    } else {
        reveal_with_fuel(is_above, 2);
    }
}

} // verus!
