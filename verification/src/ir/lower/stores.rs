//! That what is put somewhere is found there again.

use vstd::prelude::*;

use super::machine::{
    both_appended, bound_exists, code, does, expressions_are_worth_what_they_say, holds_vars,
    nothing_appended, one_appended, operand_right, operands_are_right, pair_right, plain, read_as,
    runs, runs_both, runs_nothing, runs_one, same_below, scopes_exist, went_on, went_on_twice,
    worth_of, Machine,
};
use super::meaning::{
    assignment_of, bin_instr, comparison_instr, declaration_of, expr_into_body, expr_into_of,
    expr_of, is_append, keep_into_body, keep_into_of, negated_of, negation_instr, operands_of,
    reads, turned_round, type_of,
};
use super::state::{announced, bound, called, emitted, met, named, ContextView, State};
use super::variants::called_is_bound;
use crate::ast::{Expr, ExprKind, Place, Stmt, Ty};
use crate::ir::exact::negating_is_taking_from_zero;
use crate::ir::fold::{negated_comparison, word};
use crate::ir::instr::InstrView;
use crate::ir::value::{VReg, Value};

verus! {

// -- registers --------------------------------------------------------------

/// Whether a run leaves an expression's worth in a register and every other that there
/// was, and all of memory, alone.
pub open spec fn landed(cx: ContextView, st: State, after: State, dst: VReg, e: Expr) -> bool {
    forall|m: Machine, n: Machine, vars: Map<Seq<char>, i64>|
        #![trigger runs(code(st, after), m, n), holds_vars(st, m, vars)]
        runs(code(st, after), m, n) && holds_vars(st, m, vars) ==> {
            &&& n.cells == m.cells
            &&& forall|reg: VReg|
                reg.0 < st.names.len() && reg != dst ==> #[trigger] n.regs[reg] == m.regs[reg]
            &&& worth_of(cx, vars, e) is Some ==> worth_of(cx, vars, e) == Some(n.regs[dst])
        }
}

/// **An expression lands in the register it is wanted in**, worth what the tree says, and
/// in no other.
pub proof fn expressions_land_where_wanted(cx: ContextView, st: State, dst: VReg, e: Expr)
    requires
        plain(cx, e),
        scopes_exist(st),
        st.names.len() <= u32::MAX,
        st.current.0 < st.blocks.len(),
        dst.0 < st.names.len(),
        expr_into_of(cx, st, dst, e) is Some,
    ensures
        went_on(st, expr_into_of(cx, st, dst, e)->0),
        landed(cx, st, expr_into_of(cx, st, dst, e)->0, dst, e),
{
    assert(expr_into_of(cx, st, dst, e) == expr_into_body(cx, st, dst, e));
    match e.kind {
        ExprKind::Neg(x) => {
            negations_land(cx, st, dst, e, *x);
        },
        ExprKind::Not(x) => {
            opposites_land(cx, st, dst, e, *x);
        },
        ExprKind::Bin { op, lhs, rhs } => {
            operands_are_right(cx, st, e, *lhs, *rhs);
            let (mid, a, b) = operands_of(cx, st, e)->0;
            let instr = bin_instr(read_as(cx, e.id), op, dst, a, b);
            assert(expr_into_of(cx, st, dst, e) == Some(emitted(mid, instr)));
            assert(pair_right(cx, st, *lhs, *rhs, mid, a, b));
            lands(cx, st, mid, instr, dst, e);
        },
        ExprKind::Cmp { op, lhs, rhs } => {
            operands_are_right(cx, st, e, *lhs, *rhs);
            let (mid, a, b) = operands_of(cx, st, e)->0;
            let instr = comparison_instr(read_as(cx, lhs.id), op, dst, a, b);
            assert(expr_into_of(cx, st, dst, e) == Some(emitted(mid, instr)));
            assert(pair_right(cx, st, *lhs, *rhs, mid, a, b));
            lands(cx, st, mid, instr, dst, e);
        },
        _ => {
            leaves_land(cx, st, dst, e);
        },
    }
}

/// An instruction behind what works its operands out, where it is known what it leaves.
proof fn lands(cx: ContextView, st: State, mid: State, instr: InstrView, dst: VReg, e: Expr)
    requires
        went_on(st, mid),
        forall|m: Machine, k: Machine, n: Machine, vars: Map<Seq<char>, i64>|
            #![trigger runs(code(st, mid), m, k), holds_vars(st, m, vars), does(instr, k, n)]
            runs(code(st, mid), m, k) && holds_vars(st, m, vars) && does(instr, k, n) ==> {
                &&& same_below(m, k, st.names.len())
                &&& n == k.with(dst, n.regs[dst])
                &&& worth_of(cx, vars, e) is Some ==> worth_of(cx, vars, e) == Some(n.regs[dst])
            },
    ensures
        went_on(st, emitted(mid, instr)),
        landed(cx, st, emitted(mid, instr), dst, e),
{
    let after = emitted(mid, instr);
    one_appended(mid, instr);
    went_on_twice(st, mid, after);
    assert forall|m: Machine, n: Machine, vars: Map<Seq<char>, i64>|
        #![trigger runs(code(st, after), m, n), holds_vars(st, m, vars)]
        runs(code(st, after), m, n) && holds_vars(st, m, vars) implies {
        &&& n.cells == m.cells
        &&& forall|reg: VReg|
            reg.0 < st.names.len() && reg != dst ==> #[trigger] n.regs[reg] == m.regs[reg]
        &&& worth_of(cx, vars, e) is Some ==> worth_of(cx, vars, e) == Some(n.regs[dst])
    } by {
        let k = runs_both(code(st, mid), code(mid, after), m, n);
        runs_one(instr, k, n);
        assert forall|reg: VReg| reg.0 < st.names.len() && reg != dst implies #[trigger] n.regs[reg]
            == m.regs[reg] by {
            assert(k.regs[reg] == m.regs[reg]);
            assert(k.with(dst, n.regs[dst]).regs[reg] == k.regs[reg]);
        }
    }
}

proof fn negations_land(cx: ContextView, st: State, dst: VReg, e: Expr, x: Expr)
    requires
        e.kind matches ExprKind::Neg(inner) && *inner == x,
        plain(cx, x),
        scopes_exist(st),
        st.names.len() <= u32::MAX,
        st.current.0 < st.blocks.len(),
        expr_into_body(cx, st, dst, e) is Some,
    ensures
        went_on(st, expr_into_body(cx, st, dst, e)->0),
        landed(cx, st, expr_into_body(cx, st, dst, e)->0, dst, e),
{
    expressions_are_worth_what_they_say(cx, st, x);
    let (mid, val) = expr_of(cx, st, x)->0;
    let num = read_as(cx, e.id);
    let instr = negation_instr(num, dst, val);
    assert(expr_into_body(cx, st, dst, e) == Some(emitted(mid, instr)));
    assert forall|m: Machine, k: Machine, n: Machine, vars: Map<Seq<char>, i64>|
        #![trigger runs(code(st, mid), m, k), holds_vars(st, m, vars), does(instr, k, n)]
        runs(code(st, mid), m, k) && holds_vars(st, m, vars) && does(instr, k, n) implies {
        &&& same_below(m, k, st.names.len())
        &&& n == k.with(dst, n.regs[dst])
        &&& worth_of(cx, vars, e) is Some ==> worth_of(cx, vars, e) == Some(n.regs[dst])
    } by {
        assert(operand_right(cx, st, x, mid, val));
        negating_is_taking_from_zero(k.worth(val));
    }
    lands(cx, st, mid, instr, dst, e);
}

proof fn opposites_land(cx: ContextView, st: State, dst: VReg, e: Expr, x: Expr)
    requires
        e.kind matches ExprKind::Not(inner) && *inner == x,
        plain(cx, x),
        scopes_exist(st),
        st.names.len() <= u32::MAX,
        st.current.0 < st.blocks.len(),
        expr_into_body(cx, st, dst, e) is Some,
    ensures
        went_on(st, expr_into_body(cx, st, dst, e)->0),
        landed(cx, st, expr_into_body(cx, st, dst, e)->0, dst, e),
{
    let (mid, num, op, a, b) = negated_of(cx, st, x)->0;
    if turned_round(cx, x) {
        if let ExprKind::Cmp { op: by, lhs, rhs } = x.kind {
            operands_are_right(cx, st, x, *lhs, *rhs);
        }
    } else {
        expressions_are_worth_what_they_say(cx, st, x);
    }
    let instr = comparison_instr(num, op, dst, a, b);
    assert(expr_into_body(cx, st, dst, e) == Some(emitted(mid, instr)));
    assert forall|m: Machine, k: Machine, n: Machine, vars: Map<Seq<char>, i64>|
        #![trigger runs(code(st, mid), m, k), holds_vars(st, m, vars), does(instr, k, n)]
        runs(code(st, mid), m, k) && holds_vars(st, m, vars) && does(instr, k, n) implies {
        &&& same_below(m, k, st.names.len())
        &&& n == k.with(dst, n.regs[dst])
        &&& worth_of(cx, vars, e) is Some ==> worth_of(cx, vars, e) == Some(n.regs[dst])
    } by {
        if turned_round(cx, x) {
            if let ExprKind::Cmp { op: by, lhs, rhs } = x.kind {
                assert(pair_right(cx, st, *lhs, *rhs, mid, a, b));
                if worth_of(cx, vars, *lhs) is Some && worth_of(cx, vars, *rhs) is Some {
                    negated_comparison(num, by, k.worth(a), k.worth(b));
                }
            }
        } else {
            assert(operand_right(cx, st, x, mid, a));
        }
    }
    lands(cx, st, mid, instr, dst, e);
}

proof fn leaves_land(cx: ContextView, st: State, dst: VReg, e: Expr)
    requires
        plain(cx, e),
        !(e.kind is Neg || e.kind is Not || e.kind is Bin || e.kind is Cmp),
        scopes_exist(st),
        st.current.0 < st.blocks.len(),
        expr_into_body(cx, st, dst, e) is Some,
    ensures
        went_on(st, expr_into_body(cx, st, dst, e)->0),
        landed(cx, st, expr_into_body(cx, st, dst, e)->0, dst, e),
{
    let (mid, instr) = match e.kind {
        ExprKind::Int(v) => (st, InstrView::Const { dst, val: v }),
        ExprKind::Float(b) => (st, InstrView::Const { dst, val: word(b) }),
        ExprKind::Bool(v) => (
            st,
            InstrView::Const {
                dst,
                val: if v {
                    1
                } else {
                    0
                },
            },
        ),
        ExprKind::Char(c) => (st, InstrView::Const { dst, val: c as i64 }),
        ExprKind::Var(name) => {
            let reg = (bound(st, name@)->0).0;
            (met(st, reg), InstrView::Copy { dst, src: Value::Reg(reg) })
        },
        _ => (st, InstrView::Const { dst, val: 0 }),
    };
    assert(expr_into_body(cx, st, dst, e) == Some(emitted(mid, instr)));
    nothing_appended(st, mid);
    assert forall|m: Machine, k: Machine, n: Machine, vars: Map<Seq<char>, i64>|
        #![trigger runs(code(st, mid), m, k), holds_vars(st, m, vars), does(instr, k, n)]
        runs(code(st, mid), m, k) && holds_vars(st, m, vars) && does(instr, k, n) implies {
        &&& same_below(m, k, st.names.len())
        &&& n == k.with(dst, n.regs[dst])
        &&& worth_of(cx, vars, e) is Some ==> worth_of(cx, vars, e) == Some(n.regs[dst])
    } by {
        runs_nothing(m, k);
        if let ExprKind::Var(name) = e.kind {
            assert(bound(st, name@) is Some);
        }
    }
    lands(cx, st, mid, instr, dst, e);
}

/// What an expression is worth does not depend on what it does not read.
pub proof fn unread_does_not_matter(
    cx: ContextView,
    vars: Map<Seq<char>, i64>,
    e: Expr,
    name: Seq<char>,
    w: i64,
)
    requires
        plain(cx, e),
        !reads(e, name),
    ensures
        worth_of(cx, vars.insert(name, w), e) == worth_of(cx, vars, e),
    decreases e,
{
    match e.kind {
        ExprKind::Neg(x) => {
            unread_does_not_matter(cx, vars, *x, name, w);
        },
        ExprKind::Not(x) => {
            unread_does_not_matter(cx, vars, *x, name, w);
        },
        ExprKind::Bin { op, lhs, rhs } => {
            unread_does_not_matter(cx, vars, *lhs, name, w);
            unread_does_not_matter(cx, vars, *rhs, name, w);
        },
        ExprKind::Cmp { op, lhs, rhs } => {
            unread_does_not_matter(cx, vars, *lhs, name, w);
            unread_does_not_matter(cx, vars, *rhs, name, w);
        },
        _ => {},
    }
}

/// A name announced stands for its register, and every other for what it did.
proof fn announcing(st: State, name: Seq<char>, ty: Ty)
    requires
        scopes_exist(st),
        st.scopes.len() > 0,
        named(st, name) is Some,
    ensures
        ({
            let (before, dst) = named(st, name)->0;
            let told = announced(before, name, dst, ty);
            &&& dst.0 == st.names.len()
            &&& told.names.len() == st.names.len() + 1
            &&& told.names.len() <= u32::MAX
            &&& told.blocks == st.blocks
            &&& told.current == st.current
            &&& scopes_exist(told)
            &&& bound(told, name) == Some((dst, ty))
            &&& forall|other: Seq<char>|
                other != name ==> #[trigger] bound(told, other) == bound(st, other)
        }),
{
    let (before, dst) = named(st, name)->0;
    let told = announced(before, name, dst, ty);
    reveal(named);
    reveal(called);
    assert forall|i: int, k: int|
        #![trigger told.scopes[i][k]]
        0 <= i < told.scopes.len() && 0 <= k < told.scopes[i].len() implies told.scopes[i][k].reg.0
        < told.names.len() by {
        if i < st.scopes.len() - 1 {
            assert(told.scopes[i] == st.scopes[i]);
            assert(st.scopes[i][k].reg.0 < st.names.len());
        } else if k < st.scopes[i].len() {
            assert(told.scopes[i][k] == st.scopes[i][k]);
        }
    }
    let plainly = called(before, name, dst, ty);
    assert(bound(told, name) == Some((dst, ty))) by {
        called_is_bound(before, name, dst, ty, name);
        reveal(bound);
        assert(bound(told, name) == bound(plainly, name));
    }
    assert forall|other: Seq<char>| other != name implies #[trigger] bound(told, other) == bound(
        st,
        other,
    ) by {
        called_is_bound(before, name, dst, ty, other);
        reveal(bound);
        assert(bound(told, other) == bound(plainly, other));
        assert(bound(before, other) == bound(st, other));
    }
}

/// **A declaration gives its variable the value it is declared with**: in a register of
/// its own, under its name, with every other variable as it was.
pub proof fn declaring_gives_the_value(
    cx: ContextView,
    st: State,
    s: Stmt,
    m: Machine,
    n: Machine,
    vars: Map<Seq<char>, i64>,
)
    requires
        s matches Stmt::Decl { id, name, init } && plain(cx, init) && !reads(init, name@)
            && type_of(cx, id) is Some && (type_of(cx, id)->0).in_a_register() && !(type_of(
            cx,
            init.id,
        ) matches Some(Ty::List(_))),
        scopes_exist(st),
        st.scopes.len() > 0,
        st.names.len() <= u32::MAX,
        st.current.0 < st.blocks.len(),
        declaration_of(cx, st, s) is Some,
        runs(code(st, declaration_of(cx, st, s)->0), m, n),
        holds_vars(st, m, vars),
    ensures
        ({
            let after = declaration_of(cx, st, s)->0;
            let name = s->Decl_name@;
            &&& bound(after, name) matches Some((reg, ty)) && reg.0 == st.names.len() && ty
                == type_of(cx, s->Decl_id)->0
            &&& n.cells == m.cells
            &&& worth_of(cx, vars, s->Decl_init) matches Some(w) ==> holds_vars(
                after,
                n,
                vars.insert(name, w),
            )
        }),
{
    let name = s->Decl_name@;
    let init = s->Decl_init;
    let ty = type_of(cx, s->Decl_id)->0;
    let after = declaration_of(cx, st, s)->0;
    let (before, dst) = named(st, name)->0;
    let told = announced(before, name, dst, ty);
    assert(keep_into_of(cx, told, dst, init) == keep_into_body(cx, told, dst, init));
    let done = expr_into_of(cx, told, dst, init)->0;
    announcing(st, name, ty);
    expressions_land_where_wanted(cx, told, dst, init);
    nothing_appended(st, told);
    both_appended(st, told, done);
    assert(code(st, done) =~= code(told, done));
    assert(code(st, after) == code(st, done));
    let held = vars.insert(name, m.regs[dst]);
    assert forall|other: Seq<char>| #[trigger] bound(told, other) is Some implies m.regs[(bound(
        told,
        other,
    )->0).0] == held[other] by {
        if other != name {
            assert(bound(told, other) == bound(st, other));
        }
    }
    assert(holds_vars(told, m, held));
    unread_does_not_matter(cx, vars, init, name, m.regs[dst]);
    same_scopes(told, after);
    if let Some(w) = worth_of(cx, vars, init) {
        let next = vars.insert(name, w);
        assert(landed(cx, told, done, dst, init));
        assert(n.regs[dst] == w);
        assert forall|other: Seq<char>| #[trigger] bound(after, other) is Some implies n.regs[(bound(
            after,
            other,
        )->0).0] == next[other] by {
            assert(bound(after, other) == bound(told, other));
            if other != name {
                assert(bound(told, other) == bound(st, other));
                bound_exists(st, other);
            }
        }
    }
}

proof fn same_scopes(a: State, b: State)
    requires
        a.scopes == b.scopes,
    ensures
        forall|name: Seq<char>| #[trigger] bound(b, name) == bound(a, name),
{
    reveal(bound);
}

/// Whether no two names stand for one register.
pub open spec fn apart(st: State) -> bool {
    forall|a: Seq<char>, b: Seq<char>|
        #![trigger bound(st, a), bound(st, b)]
        a != b && bound(st, a) is Some && bound(st, b) is Some ==> (bound(st, a)->0).0 != (bound(
            st,
            b,
        )->0).0
}

/// **An assignment gives its variable the value assigned**, and no other variable.
pub proof fn assigning_gives_the_value(
    cx: ContextView,
    st: State,
    s: Stmt,
    m: Machine,
    n: Machine,
    vars: Map<Seq<char>, i64>,
)
    requires
        s matches Stmt::Assign { target, value } && (target matches Place::Var { name } && !is_append(
            cx,
            name@,
            value,
        ) && (bound(st, name@) matches Some((_, ty)) && ty.in_a_register())) && plain(cx, value)
            && !(type_of(cx, value.id) matches Some(Ty::List(_))),
        scopes_exist(st),
        apart(st),
        st.names.len() <= u32::MAX,
        st.current.0 < st.blocks.len(),
        assignment_of(cx, st, s) is Some,
        runs(code(st, assignment_of(cx, st, s)->0), m, n),
        holds_vars(st, m, vars),
    ensures
        n.cells == m.cells,
        worth_of(cx, vars, s->Assign_value) matches Some(w) ==> holds_vars(
            assignment_of(cx, st, s)->0,
            n,
            vars.insert(s->Assign_target->Var_name@, w),
        ),
{
    let name = s->Assign_target->Var_name@;
    let value = s->Assign_value;
    let after = assignment_of(cx, st, s)->0;
    let dst = (bound(st, name)->0).0;
    assert(keep_into_of(cx, st, dst, value) == keep_into_body(cx, st, dst, value));
    bound_exists(st, name);
    expressions_land_where_wanted(cx, st, dst, value);
    if let Some(w) = worth_of(cx, vars, value) {
        let next = vars.insert(name, w);
        assert forall|other: Seq<char>| #[trigger] bound(after, other) is Some implies n.regs[(bound(
            after,
            other,
        )->0).0] == next[other] by {
            assert(bound(after, other) == bound(st, other)) by {
                reveal(bound);
            }
            assert(bound(st, name) is Some);
            bound_exists(st, other);
        }
    }
}

} // verus!
