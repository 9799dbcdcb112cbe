//! Which way a run goes.
//!
//! Where a branch or a loop holds nothing but assignments of plain values, what it builds
//! can be run from block to block, and leaves its variables as the statements say.

use vstd::prelude::*;

use super::machine::{
    code, expressions_are_worth_what_they_say, holds_vars, nothing_appended, one_appended,
    operand_right, plain, runs, runs_both, runs_nothing, runs_one, scopes_exist, still_holds,
    went_on, went_on_twice, worth_of, Machine,
};
use super::meaning::{
    all_sent, assignment_of, block_body, block_of, diamond, expr_body, expr_into_body,
    expr_into_of, expr_of, half_diamond, if_of, is_append, jumped, keep_into_body, keep_into_of,
    logic_branch_of, logic_into_of, loop_closed, negated_of, operands_of, return_of, returned,
    stmt_body, stmt_of, stmts_from, turned_round, type_of,
};
use super::state::{
    bound, emitted, ended, entered, held_here, opened, temp, ContextView, LoopView, State,
};
use super::stores::{apart, assigning_gives_the_value, expressions_land_where_wanted, landed};
use crate::ast::{Block, Expr, ExprKind, LogicOp, Place, Stmt, Ty};
use crate::ir::block::{BlockKind, TermView};
use crate::ir::instr::InstrView;
use crate::ir::value::{BlockId, VReg, Value};

verus! {

// -- what is left alone -----------------------------------------------------

/// Whether building only added to the block it was in, and left every other block, every
/// ending and every loop alone.
pub open spec fn aside(a: State, b: State) -> bool {
    let at = a.current.0 as int;
    &&& at < a.blocks.len()
    &&& b.current == a.current
    &&& b.blocks.len() == a.blocks.len()
    &&& b.loops == a.loops
    &&& b.blocks[at].term == a.blocks[at].term
    &&& forall|i: int| 0 <= i < a.blocks.len() && i != at ==> #[trigger] b.blocks[i] == a.blocks[i]
}

proof fn emitting_is_aside(st: State, instr: InstrView)
    requires
        st.current.0 < st.blocks.len(),
    ensures
        aside(st, emitted(st, instr)),
{
    reveal(emitted);
}

proof fn new_is_aside(st: State, instr: InstrView)
    requires
        temp(st) is Some,
        st.current.0 < st.blocks.len(),
    ensures
        aside(st, emitted((temp(st)->0).0, instr)),
{
    reveal(temp);
    reveal(emitted);
}

/// A plain operand is worked out in the block it is asked for in.
pub proof fn plain_is_aside(cx: ContextView, st: State, e: Expr)
    requires
        plain(cx, e),
        st.current.0 < st.blocks.len(),
        expr_of(cx, st, e) is Some,
    ensures
        aside(st, (expr_of(cx, st, e)->0).0),
    decreases e,
{
    assert(expr_of(cx, st, e) == expr_body(cx, st, e));
    let (after, value) = expr_of(cx, st, e)->0;
    match e.kind {
        ExprKind::Neg(x) => {
            plain_is_aside(cx, st, *x);
            let (mid, val) = expr_of(cx, st, *x)->0;
            if after != mid {
                let (made, dst) = temp(mid)->0;
                new_is_aside(
                    mid,
                    InstrView::Bin {
                        num: super::machine::read_as(cx, e.id),
                        op: crate::ast::BinOp::Sub,
                        dst,
                        lhs: crate::ir::fold::zero_of(super::machine::read_as(cx, e.id)),
                        rhs: val,
                    },
                );
            }
        },
        ExprKind::Not(x) => {
            let (mid, num, op, a, b) = negated_of(cx, st, *x)->0;
            if turned_round(cx, *x) {
                pair_is_aside(cx, st, *x);
            } else {
                plain_is_aside(cx, st, *x);
            }
            if after != mid {
                let (made, dst) = temp(mid)->0;
                new_is_aside(mid, InstrView::Cmp { num, op, dst, lhs: a, rhs: b });
            }
        },
        ExprKind::Bin { op, lhs, rhs } => {
            pair_is_aside(cx, st, e);
            let (mid, a, b) = operands_of(cx, st, e)->0;
            if after != mid {
                let (made, dst) = temp(mid)->0;
                let num = super::machine::read_as(cx, e.id);
                new_is_aside(mid, InstrView::Bin { num, op, dst, lhs: a, rhs: b });
            }
        },
        ExprKind::Cmp { op, lhs, rhs } => {
            pair_is_aside(cx, st, e);
            let (mid, a, b) = operands_of(cx, st, e)->0;
            if after != mid {
                let (made, dst) = temp(mid)->0;
                let num = super::machine::read_as(cx, lhs.id);
                new_is_aside(mid, InstrView::Cmp { num, op, dst, lhs: a, rhs: b });
            }
        },
        _ => {},
    }
}

proof fn pair_is_aside(cx: ContextView, st: State, e: Expr)
    requires
        e.kind is Bin || e.kind is Cmp,
        plain(cx, e),
        st.current.0 < st.blocks.len(),
        operands_of(cx, st, e) is Some,
    ensures
        aside(st, (operands_of(cx, st, e)->0).0),
    decreases e, 0int,
{
    match e.kind {
        ExprKind::Bin { op, lhs, rhs } => {
            plain_is_aside(cx, st, *lhs);
            plain_is_aside(cx, (expr_of(cx, st, *lhs)->0).0, *rhs);
        },
        ExprKind::Cmp { op, lhs, rhs } => {
            plain_is_aside(cx, st, *lhs);
            plain_is_aside(cx, (expr_of(cx, st, *lhs)->0).0, *rhs);
        },
        _ => {},
    }
}

/// So is one that lands in a register.
pub proof fn landing_is_aside(cx: ContextView, st: State, dst: VReg, e: Expr)
    requires
        plain(cx, e),
        st.current.0 < st.blocks.len(),
        expr_into_of(cx, st, dst, e) is Some,
    ensures
        aside(st, expr_into_of(cx, st, dst, e)->0),
{
    assert(expr_into_of(cx, st, dst, e) == expr_into_body(cx, st, dst, e));
    reveal(emitted);
    match e.kind {
        ExprKind::Neg(x) => {
            plain_is_aside(cx, st, *x);
        },
        ExprKind::Not(x) => {
            if turned_round(cx, *x) {
                pair_is_aside(cx, st, *x);
            } else {
                plain_is_aside(cx, st, *x);
            }
        },
        ExprKind::Bin { op, lhs, rhs } => {
            pair_is_aside(cx, st, e);
        },
        ExprKind::Cmp { op, lhs, rhs } => {
            pair_is_aside(cx, st, e);
        },
        _ => {},
    }
}

// -- plain statements -------------------------------------------------------

/// Whether a statement assigns a plain value to a variable in scope.
pub open spec fn plain_stmt(cx: ContextView, st: State, s: Stmt) -> bool {
    s matches Stmt::Assign { target, value } && (target matches Place::Var { name } && !is_append(
        cx,
        name@,
        value,
    ) && (bound(st, name@) matches Some((_, ty)) && ty.in_a_register())) && plain(cx, value)
        && !(type_of(cx, value.id) matches Some(Ty::List(_)))
}

pub open spec fn plain_stmts(cx: ContextView, st: State, stmts: Seq<Stmt>) -> bool {
    forall|j: int| 0 <= j < stmts.len() ==> plain_stmt(cx, st, #[trigger] stmts[j])
}

/// What variables are worth once the statements from `i` on have run, one after the other.
pub open spec fn vars_after(
    cx: ContextView,
    vars: Map<Seq<char>, i64>,
    stmts: Seq<Stmt>,
    i: int,
) -> Option<Map<Seq<char>, i64>>
    decreases stmts.len() - i,
{
    if 0 <= i < stmts.len() {
        match worth_of(cx, vars, stmts[i]->Assign_value) {
            Some(w) => vars_after(
                cx,
                vars.insert(stmts[i]->Assign_target->Var_name@, w),
                stmts,
                i + 1,
            ),
            None => None,
        }
    } else {
        Some(vars)
    }
}

/// Whether a run leaves variables as statements say.
pub open spec fn left_as(
    cx: ContextView,
    st: State,
    after: State,
    stmts: Seq<Stmt>,
    i: int,
) -> bool {
    forall|m: Machine, n: Machine, vars: Map<Seq<char>, i64>|
        #![trigger runs(code(st, after), m, n), holds_vars(st, m, vars)]
        runs(code(st, after), m, n) && holds_vars(st, m, vars) ==> {
            &&& n.cells == m.cells
            &&& vars_after(cx, vars, stmts, i) matches Some(then) ==> holds_vars(after, n, then)
        }
}

pub proof fn same_names(a: State, b: State)
    requires
        a.scopes == b.scopes,
    ensures
        forall|name: Seq<char>| #[trigger] bound(b, name) == bound(a, name),
{
    reveal(bound);
}

/// The statements from `i` up to `end` built.
pub open spec fn part_of(
    cx: ContextView,
    st: State,
    stmts: Vec<Stmt>,
    i: int,
    end: int,
) -> Option<State>
    decreases end - i,
{
    if i < end {
        match stmt_of(cx, st, stmts@[i]) {
            Some(next) => part_of(cx, next, stmts, i + 1, end),
            None => None,
        }
    } else {
        Some(st)
    }
}

/// One plain statement.
pub proof fn a_statement_runs(cx: ContextView, st: State, s: Stmt)
    requires
        plain_stmt(cx, st, s),
        scopes_exist(st),
        apart(st),
        st.names.len() <= u32::MAX,
        st.current.0 < st.blocks.len(),
        stmt_of(cx, st, s) is Some,
    ensures
        ({
            let after = stmt_of(cx, st, s)->0;
            &&& went_on(st, after)
            &&& aside(st, after)
            &&& scopes_exist(after)
            &&& apart(after)
            &&& forall|m: Machine, n: Machine, vars: Map<Seq<char>, i64>|
                #![trigger runs(code(st, after), m, n), holds_vars(st, m, vars)]
                runs(code(st, after), m, n) && holds_vars(st, m, vars) ==> {
                    &&& n.cells == m.cells
                    &&& worth_of(cx, vars, s->Assign_value) matches Some(w) ==> holds_vars(
                        after,
                        n,
                        vars.insert(s->Assign_target->Var_name@, w),
                    )
                }
        }),
{
    let after = stmt_of(cx, st, s)->0;
    assert(stmt_of(cx, st, s) == stmt_body(cx, st, s));
    assert(after == assignment_of(cx, st, s)->0);
    let name = s->Assign_target->Var_name@;
    let value = s->Assign_value;
    let dst = (bound(st, name)->0).0;
    super::machine::bound_exists(st, name);
    assert(keep_into_of(cx, st, dst, value) == keep_into_body(cx, st, dst, value));
    assert(after == expr_into_of(cx, st, dst, value)->0);
    expressions_land_where_wanted(cx, st, dst, value);
    landing_is_aside(cx, st, dst, value);
    same_names(st, after);
    assert forall|m: Machine, n: Machine, vars: Map<Seq<char>, i64>|
        #![trigger runs(code(st, after), m, n), holds_vars(st, m, vars)]
        runs(code(st, after), m, n) && holds_vars(st, m, vars) implies {
        &&& n.cells == m.cells
        &&& worth_of(cx, vars, value) matches Some(w) ==> holds_vars(
            after,
            n,
            vars.insert(name, w),
        )
    } by {
        assigning_gives_the_value(cx, st, s, m, n, vars);
    }
}

/// **Statements run one after the other**, as far as they are plain.
pub proof fn a_part_runs_in_order(cx: ContextView, st: State, stmts: Vec<Stmt>, i: int, end: int)
    requires
        0 <= i <= end <= stmts@.len(),
        plain_stmts(cx, st, stmts@.take(end)),
        scopes_exist(st),
        apart(st),
        st.names.len() <= u32::MAX,
        st.current.0 < st.blocks.len(),
        part_of(cx, st, stmts, i, end) is Some,
    ensures
        went_on(st, part_of(cx, st, stmts, i, end)->0),
        aside(st, part_of(cx, st, stmts, i, end)->0),
        left_as(cx, st, part_of(cx, st, stmts, i, end)->0, stmts@.take(end), i),
    decreases end - i,
{
    let after = part_of(cx, st, stmts, i, end)->0;
    let part = stmts@.take(end);
    if i < end {
        let s = stmts@[i];
        let mid = stmt_of(cx, st, s)->0;
        assert(part[i] == s);
        assert(plain_stmt(cx, st, part[i]));
        a_statement_runs(cx, st, s);
        same_names(st, mid);
        assert forall|j: int| 0 <= j < part.len() implies plain_stmt(cx, mid, #[trigger] part[j]) by {
            assert(plain_stmt(cx, st, part[j]));
        }
        a_part_runs_in_order(cx, mid, stmts, i + 1, end);
        went_on_twice(st, mid, after);
        assert forall|m: Machine, n: Machine, vars: Map<Seq<char>, i64>|
            #![trigger runs(code(st, after), m, n), holds_vars(st, m, vars)]
            runs(code(st, after), m, n) && holds_vars(st, m, vars) implies {
            &&& n.cells == m.cells
            &&& vars_after(cx, vars, part, i) matches Some(then) ==> holds_vars(after, n, then)
        } by {
            let k = runs_both(code(st, mid), code(mid, after), m, n);
            assert(left_as(cx, mid, after, part, i + 1));
            if let Some(w) = worth_of(cx, vars, s->Assign_value) {
                assert(holds_vars(mid, k, vars.insert(s->Assign_target->Var_name@, w)));
            } else {
                let held = Map::new(
                    |other: Seq<char>| true,
                    |other: Seq<char>|
                        match bound(mid, other) {
                            Some((reg, _)) => k.regs[reg],
                            None => 0,
                        },
                );
                assert(holds_vars(mid, k, held));
            }
        }
    } else {
        nothing_appended(st, after);
        assert forall|m: Machine, n: Machine, vars: Map<Seq<char>, i64>|
            #![trigger runs(code(st, after), m, n), holds_vars(st, m, vars)]
            runs(code(st, after), m, n) && holds_vars(st, m, vars) implies n == m by {
            runs_nothing(m, n);
        }
    }
}

/// A list of statements is a part of it and what follows.
pub proof fn a_part_comes_first(cx: ContextView, st: State, stmts: Vec<Stmt>, i: int, end: int)
    requires
        0 <= i <= end <= stmts@.len(),
    ensures
        stmts_from(cx, st, stmts, i) == match part_of(cx, st, stmts, i, end) {
            Some(mid) => stmts_from(cx, mid, stmts, end),
            None => None,
        },
    decreases end - i,
{
    if i < end {
        if let Some(next) = stmt_of(cx, st, stmts@[i]) {
            a_part_comes_first(cx, next, stmts, i + 1, end);
        }
    }
}

/// A scope with nothing in it changes nothing.
pub proof fn entering_names_nothing(st: State)
    ensures
        forall|name: Seq<char>| #[trigger] bound(entered(st), name) == bound(st, name),
        scopes_exist(st) ==> scopes_exist(entered(st)),
{
    reveal(bound);
    let inner = entered(st);
    assert(inner.scopes.drop_last() =~= st.scopes);
    assert(inner.scopes.last() == Seq::<super::state::BindingView>::empty());
    if scopes_exist(st) {
        assert forall|i: int, k: int|
            #![trigger inner.scopes[i][k]]
            0 <= i < inner.scopes.len() && 0 <= k < inner.scopes[i].len() implies inner.scopes[i][k].reg.0
            < inner.names.len() by {
            assert(inner.scopes[i] == st.scopes[i]);
            assert(st.scopes[i][k].reg.0 < st.names.len());
        }
    }
}

/// **A block runs its statements in order**, and leaves the scopes there were.
pub proof fn blocks_run_in_order(cx: ContextView, st: State, block: Block)
    requires
        plain_stmts(cx, st, block.stmts@),
        scopes_exist(st),
        apart(st),
        st.names.len() <= u32::MAX,
        st.current.0 < st.blocks.len(),
        block_of(cx, st, block) is Some,
    ensures
        went_on(st, block_of(cx, st, block)->0),
        aside(st, block_of(cx, st, block)->0),
        left_as(cx, st, block_of(cx, st, block)->0, block.stmts@, 0),
{
    assert(block_of(cx, st, block) == block_body(cx, st, block));
    let after = block_of(cx, st, block)->0;
    let inner = entered(st);
    let done = stmts_from(cx, inner, block.stmts, 0)->0;
    entering_names_nothing(st);
    assert(apart(inner));
    assert forall|j: int| 0 <= j < block.stmts@.len() implies plain_stmt(
        cx,
        inner,
        #[trigger] block.stmts@[j],
    ) by {
        assert(plain_stmt(cx, st, block.stmts@[j]));
    }
    let all = block.stmts@.len() as int;
    a_part_comes_first(cx, inner, block.stmts, 0, all);
    assert(block.stmts@.take(all) =~= block.stmts@);
    a_part_runs_in_order(cx, inner, block.stmts, 0, all);
    assert(done.scopes == inner.scopes);
    assert(inner.scopes.drop_last() =~= st.scopes);
    assert(after.scopes == st.scopes);
    assert(code(st, after) == code(inner, done));
    same_names(inner, done);
    same_names(st, after);
    assert forall|m: Machine, n: Machine, vars: Map<Seq<char>, i64>|
        #![trigger runs(code(st, after), m, n), holds_vars(st, m, vars)]
        runs(code(st, after), m, n) && holds_vars(st, m, vars) implies {
        &&& n.cells == m.cells
        &&& vars_after(cx, vars, block.stmts@, 0) matches Some(then) ==> holds_vars(after, n, then)
    } by {
        assert(holds_vars(inner, m, vars)) by {
            assert forall|name: Seq<char>| #[trigger] bound(inner, name) is Some implies m.regs[(
            bound(inner, name)->0).0] == vars[name] by {
                assert(bound(st, name) is Some);
            }
        }
        assert(left_as(cx, inner, done, block.stmts@, 0));
        if let Some(then) = vars_after(cx, vars, block.stmts@, 0) {
            assert(holds_vars(done, n, then));
            assert forall|name: Seq<char>| #[trigger] bound(after, name) is Some implies n.regs[(
            bound(after, name)->0).0] == then[name] by {
                assert(bound(done, name) == bound(inner, name));
            }
        }
    }
}

// -- branches ---------------------------------------------------------------

/// Where a run goes from the end of a block.
pub open spec fn way(term: Option<TermView>, m: Machine) -> Option<BlockId> {
    match term {
        Some(TermView::Jump(target)) => Some(target.block),
        Some(TermView::Branch { cond, then_blk, else_blk }) => if m.worth(cond) != 0 {
            Some(then_blk.block)
        } else {
            Some(else_blk.block)
        },
        _ => None,
    }
}

/// What is added to the block building stands in by the time it is done.
pub open spec fn rest(st: State, after: State) -> Seq<InstrView> {
    let at = st.current.0 as int;
    after.blocks[at].instrs.skip(st.blocks[at].instrs.len() as int)
}

proof fn diamond_ends(
    st: State,
    entry: BlockId,
    cond: Value,
    one: BlockId,
    other: BlockId,
    first: BlockId,
    last: BlockId,
)
    requires
        entry.0 < one.0,
        entry.0 < other.0,
        one.0 != other.0,
        one.0 < st.blocks.len(),
        other.0 < st.blocks.len(),
        (first == one && last == other) || (first == other && last == one),
        diamond(st, entry, cond, one, other, first, last) is Some,
    ensures
        ({
            let after = diamond(st, entry, cond, one, other, first, last)->0;
            &&& after.blocks.len() == st.blocks.len() + 1
            &&& after.current.0 == st.blocks.len()
            &&& after.scopes == st.scopes
            &&& after.blocks[entry.0 as int].term == Some(TermView::branch(cond, one, other))
            &&& after.blocks[one.0 as int].term == Some(TermView::jump(after.current))
            &&& after.blocks[other.0 as int].term == Some(TermView::jump(after.current))
            &&& after.blocks[after.current.0 as int].instrs.len() == 0
            &&& forall|i: int|
                0 <= i < st.blocks.len() ==> (#[trigger] after.blocks[i]).instrs
                    == st.blocks[i].instrs
        }),
{
    reveal(opened);
    reveal(ended);
}

/// **An `if` runs the side its condition says.** From the block it stands in, a run goes
/// to a block that does what the one side says where the condition holds, and what the
/// other side says, or nothing, where it does not; and from there on to where building
/// goes on.
pub proof fn an_if_runs_its_side(
    cx: ContextView,
    st: State,
    s: Stmt,
    m: Machine,
    k: Machine,
    n: Machine,
    vars: Map<Seq<char>, i64>,
)
    requires
        s matches Stmt::If { cond, then_block, else_block } && plain(cx, cond) && plain_stmts(
            cx,
            st,
            then_block.stmts@,
        ) && (else_block matches Some(block) ==> plain_stmts(cx, st, block.stmts@)) && worth_of(
            cx,
            vars,
            cond,
        ) is Some,
        scopes_exist(st),
        apart(st),
        st.names.len() <= u32::MAX,
        st.current.0 < st.blocks.len(),
        if_of(cx, st, s) is Some,
        holds_vars(st, m, vars),
        runs(rest(st, if_of(cx, st, s)->0), m, k),
    ensures
        ({
            let after = if_of(cx, st, s)->0;
            let side = way(after.blocks[st.current.0 as int].term, k);
            let there = after.blocks[(side->0).0 as int];
            let holds = worth_of(cx, vars, s->If_cond)->0 != 0;
            &&& side is Some
            &&& after.blocks[after.current.0 as int].instrs.len() == 0
            &&& k.cells == m.cells
            &&& holds ==> {
                &&& way(there.term, n) == Some(after.current)
                &&& runs(there.instrs, k, n) ==> (vars_after(cx, vars, s->then_block.stmts@, 0) matches Some(
                    then,
                ) ==> holds_vars(after, n, then))
            }
            &&& !holds && s->else_block is Some ==> {
                &&& way(there.term, n) == Some(after.current)
                &&& runs(there.instrs, k, n) ==> (vars_after(
                    cx,
                    vars,
                    (s->else_block->0).stmts@,
                    0,
                ) matches Some(then) ==> holds_vars(after, n, then))
            }
            &&& !holds && s->else_block is None ==> {
                &&& side == Some(after.current)
                &&& holds_vars(after, k, vars)
            }
        }),
{
    let after = if_of(cx, st, s)->0;
    let (asked, cond) = expr_of(cx, st, s->If_cond)->0;
    expressions_are_worth_what_they_say(cx, st, s->If_cond);
    plain_is_aside(cx, st, s->If_cond);
    let entry = asked.current;
    let known = held_here(asked);
    let (one, then_id) = opened(asked, BlockKind::Then, known)->0;
    reveal(opened);
    reveal(ended);
    same_names(st, one);
    assert(scopes_exist(one));
    assert(apart(one));
    assert(plain_stmts(cx, one, s->then_block.stmts@)) by {
        assert forall|j: int| 0 <= j < s->then_block.stmts@.len() implies plain_stmt(
            cx,
            one,
            #[trigger] s->then_block.stmts@[j],
        ) by {
            assert(plain_stmt(cx, st, s->then_block.stmts@[j]));
        }
    }
    let two = block_of(cx, one, s->then_block)->0;
    blocks_run_in_order(cx, one, s->then_block);
    assert(code(one, two) =~= two.blocks[then_id.0 as int].instrs);
    assert(two.blocks[entry.0 as int] == one.blocks[entry.0 as int]);
    assert(asked.blocks[entry.0 as int] == one.blocks[entry.0 as int]);
    if let Some(block) = s->else_block {
        let (three, else_id) = opened(two, BlockKind::Else, known)->0;
        same_names(st, three);
        assert(scopes_exist(three));
        assert(apart(three));
        assert(plain_stmts(cx, three, block.stmts@)) by {
            assert forall|j: int| 0 <= j < block.stmts@.len() implies plain_stmt(
                cx,
                three,
                #[trigger] block.stmts@[j],
            ) by {
                assert(plain_stmt(cx, st, block.stmts@[j]));
            }
        }
        let four = block_of(cx, three, block)->0;
        blocks_run_in_order(cx, three, block);
        assert(code(three, four) =~= four.blocks[else_id.0 as int].instrs);
        assert(four.blocks[entry.0 as int] == three.blocks[entry.0 as int]);
        assert(four.blocks[then_id.0 as int] == three.blocks[then_id.0 as int]);
        diamond_ends(four, entry, cond, then_id, else_id, then_id, else_id);
        assert(after == diamond(four, entry, cond, then_id, else_id, then_id, else_id)->0);
        assert(after.blocks[entry.0 as int].instrs == four.blocks[entry.0 as int].instrs);
        assert(after.blocks[then_id.0 as int].instrs == four.blocks[then_id.0 as int].instrs);
        assert(after.blocks[else_id.0 as int].instrs == four.blocks[else_id.0 as int].instrs);
        assert(rest(st, after) == code(st, asked));
        assert(operand_right(cx, st, s->If_cond, asked, cond));
        still_holds(st, one, m, k, vars);
        still_holds(st, three, m, k, vars);
        same_names(four, after);
        same_names(two, after);
        assert(left_as(cx, one, two, s->then_block.stmts@, 0));
        assert(left_as(cx, three, four, block.stmts@, 0));
        if runs(after.blocks[then_id.0 as int].instrs, k, n) {
            if let Some(then) = vars_after(cx, vars, s->then_block.stmts@, 0) {
                assert(holds_vars(two, n, then));
                named_alike(two, after, n, then);
            }
        }
        if runs(after.blocks[else_id.0 as int].instrs, k, n) {
            if let Some(then) = vars_after(cx, vars, block.stmts@, 0) {
                assert(holds_vars(four, n, then));
                named_alike(four, after, n, then);
            }
        }
    } else {
        assert(after == half_diamond(two, entry, cond, then_id, known)->0);
        assert(after.blocks[entry.0 as int].instrs == two.blocks[entry.0 as int].instrs);
        assert(after.blocks[then_id.0 as int].instrs == two.blocks[then_id.0 as int].instrs);
        assert(rest(st, after) == code(st, asked));
        assert(operand_right(cx, st, s->If_cond, asked, cond));
        still_holds(st, one, m, k, vars);
        same_names(two, after);
        assert(left_as(cx, one, two, s->then_block.stmts@, 0));
        if runs(after.blocks[then_id.0 as int].instrs, k, n) {
            if let Some(then) = vars_after(cx, vars, s->then_block.stmts@, 0) {
                assert(holds_vars(two, n, then));
                named_alike(two, after, n, then);
            }
        }
        named_alike(one, after, k, vars);
    }
}

pub proof fn named_alike(a: State, b: State, m: Machine, vars: Map<Seq<char>, i64>)
    requires
        a.scopes == b.scopes,
        holds_vars(a, m, vars),
    ensures
        holds_vars(b, m, vars),
{
    same_names(a, b);
    assert forall|name: Seq<char>| #[trigger] bound(b, name) is Some implies m.regs[(bound(
        b,
        name,
    )->0).0] == vars[name] by {
        assert(bound(a, name) is Some);
    }
}

// -- `&&` and `||` ----------------------------------------------------------

/// Whether the left side of `&&` or `||` settles the answer.
pub open spec fn settles(op: LogicOp, lhs: i64) -> bool {
    match op {
        LogicOp::And => lhs == 0,
        LogicOp::Or => lhs != 0,
    }
}

/// **`&&` and `||` ask no further than they must.** Where the left side settles the
/// answer, a run goes to a block that puts the answer in its register and does nothing
/// else; and where it does not, to one that puts there what the right side is worth.
pub proof fn logic_asks_no_further_than_it_must(
    cx: ContextView,
    st: State,
    dst: VReg,
    op: LogicOp,
    cond: Value,
    rhs: Expr,
    m: Machine,
    n: Machine,
    vars: Map<Seq<char>, i64>,
)
    requires
        plain(cx, rhs),
        scopes_exist(st),
        st.names.len() <= u32::MAX,
        st.current.0 < st.blocks.len(),
        dst.0 < st.names.len(),
        logic_branch_of(cx, st, dst, op, cond, rhs) is Some,
        holds_vars(st, m, vars),
    ensures
        ({
            let after = logic_branch_of(cx, st, dst, op, cond, rhs)->0;
            let side = way(after.blocks[st.current.0 as int].term, m);
            let there = after.blocks[(side->0).0 as int];
            &&& rest(st, after).len() == 0
            &&& side is Some
            &&& way(there.term, n) == Some(after.current)
            &&& after.blocks[after.current.0 as int].instrs.len() == 0
            &&& runs(there.instrs, m, n) ==> {
                &&& settles(op, m.worth(cond)) ==> n == m.with(
                    dst,
                    if op is And {
                        0
                    } else {
                        1
                    },
                )
                &&& !settles(op, m.worth(cond)) ==> {
                    &&& worth_of(cx, vars, rhs) matches Some(w) ==> n.regs[dst] == w
                    &&& n.cells == m.cells
                    &&& forall|reg: VReg|
                        reg.0 < st.names.len() && reg != dst ==> #[trigger] n.regs[reg]
                            == m.regs[reg]
                }
            }
        }),
{
    let after = logic_branch_of(cx, st, dst, op, cond, rhs)->0;
    let entry = st.current;
    let known = held_here(st);
    reveal(opened);
    let settled = InstrView::Const {
        dst,
        val: if op is And {
            0
        } else {
            1
        },
    };
    match op {
        LogicOp::And => {
            let (one, rhs_block) = opened(st, BlockKind::Rhs, known)->0;
            let two = expr_into_of(cx, one, dst, rhs)->0;
            assert(scopes_exist(one));
            expressions_land_where_wanted(cx, one, dst, rhs);
            landing_is_aside(cx, one, dst, rhs);
            assert(code(one, two) =~= two.blocks[rhs_block.0 as int].instrs);
            let (three, short) = opened(two, BlockKind::Short, known)->0;
            let four = emitted(three, settled);
            emitting_is_aside(three, settled);
            one_appended(three, settled);
            assert(code(three, four) =~= four.blocks[short.0 as int].instrs);
            assert(four.blocks[rhs_block.0 as int] == three.blocks[rhs_block.0 as int]);
            assert(four.blocks[entry.0 as int] == three.blocks[entry.0 as int]);
            assert(two.blocks[entry.0 as int] == one.blocks[entry.0 as int]);
            diamond_ends(four, entry, cond, rhs_block, short, rhs_block, short);
            assert(after == diamond(four, entry, cond, rhs_block, short, rhs_block, short)->0);
            assert(after.blocks[rhs_block.0 as int].instrs == code(one, two));
            assert(after.blocks[short.0 as int].instrs == seq![settled]);
            assert(after.blocks[entry.0 as int].instrs == st.blocks[entry.0 as int].instrs);
            named_alike(st, one, m, vars);
            assert(landed(cx, one, two, dst, rhs));
            if m.worth(cond) == 0 && runs(seq![settled], m, n) {
                runs_one(settled, m, n);
            }
        },
        LogicOp::Or => {
            let (one, short) = opened(st, BlockKind::Short, known)->0;
            let two = emitted(one, settled);
            emitting_is_aside(one, settled);
            one_appended(one, settled);
            assert(code(one, two) =~= two.blocks[short.0 as int].instrs);
            let (three, rhs_block) = opened(two, BlockKind::Rhs, known)->0;
            let four = expr_into_of(cx, three, dst, rhs)->0;
            assert(scopes_exist(three));
            expressions_land_where_wanted(cx, three, dst, rhs);
            landing_is_aside(cx, three, dst, rhs);
            assert(code(three, four) =~= four.blocks[rhs_block.0 as int].instrs);
            assert(four.blocks[short.0 as int] == three.blocks[short.0 as int]);
            assert(four.blocks[entry.0 as int] == three.blocks[entry.0 as int]);
            assert(two.blocks[entry.0 as int] == one.blocks[entry.0 as int]);
            diamond_ends(four, entry, cond, short, rhs_block, rhs_block, short);
            assert(after == diamond(four, entry, cond, short, rhs_block, rhs_block, short)->0);
            assert(after.blocks[rhs_block.0 as int].instrs == code(three, four));
            assert(after.blocks[short.0 as int].instrs == seq![settled]);
            assert(after.blocks[entry.0 as int].instrs == st.blocks[entry.0 as int].instrs);
            named_alike(st, three, m, vars);
            assert(landed(cx, three, four, dst, rhs));
            if m.worth(cond) != 0 && runs(seq![settled], m, n) {
                runs_one(settled, m, n);
            }
        },
    }
}

/// **Where the left side is known, no branch is needed**, and the answer is the same.
pub proof fn known_logic_is_settled(
    cx: ContextView,
    st: State,
    dst: VReg,
    op: LogicOp,
    known: i64,
    rhs: Expr,
    m: Machine,
    n: Machine,
    vars: Map<Seq<char>, i64>,
)
    requires
        plain(cx, rhs),
        scopes_exist(st),
        st.names.len() <= u32::MAX,
        st.current.0 < st.blocks.len(),
        dst.0 < st.names.len(),
        logic_into_of(cx, st, dst, op, Value::Const(known), rhs) is Some,
        holds_vars(st, m, vars),
        runs(code(st, logic_into_of(cx, st, dst, op, Value::Const(known), rhs)->0), m, n),
    ensures
        settles(op, known) ==> n == m.with(
            dst,
            if op is And {
                0
            } else {
                1
            },
        ),
        !settles(op, known) ==> (worth_of(cx, vars, rhs) matches Some(w) ==> n.regs[dst] == w),
{
    if settles(op, known) {
        let settled = InstrView::Const {
            dst,
            val: if op is And {
                0
            } else {
                1
            },
        };
        one_appended(st, settled);
        runs_one(settled, m, n);
    } else {
        expressions_land_where_wanted(cx, st, dst, rhs);
    }
}

// -- leaving ----------------------------------------------------------------

/// **A `break` or a `continue` is for the innermost loop.** The block it ends is put down
/// with that loop as one that leaves, or one that goes round again; no other loop hears
/// of it; and building goes on in a block of its own.
pub proof fn jumps_are_for_the_innermost_loop(st: State, breaks: bool)
    requires
        st.current.0 < st.blocks.len(),
        jumped(st, breaks) is Some,
    ensures
        ({
            let after = jumped(st, breaks)->0;
            let last = st.loops.len() - 1;
            &&& st.loops.len() > 0
            &&& after.loops.len() == st.loops.len()
            &&& forall|i: int| 0 <= i < last ==> #[trigger] after.loops[i] == st.loops[i]
            &&& after.loops[last].breaks == (if breaks {
                st.loops[last].breaks.push(st.current)
            } else {
                st.loops[last].breaks
            })
            &&& after.loops[last].continues == (if breaks {
                st.loops[last].continues
            } else {
                st.loops[last].continues.push(st.current)
            })
            &&& after.loops[last].base == st.loops[last].base
            &&& after.current.0 == st.blocks.len()
            &&& after.blocks.len() == st.blocks.len() + 1
            &&& after.blocks[after.current.0 as int].instrs.len() == 0
            &&& forall|i: int|
                0 <= i < st.blocks.len() ==> #[trigger] after.blocks[i] == st.blocks[i]
            &&& after.scopes == st.scopes
            &&& after.names == st.names
        }),
{
    reveal(opened);
}

/// Blocks sent somewhere all go there, and no others.
pub proof fn sent_are(st: State, from: Seq<BlockId>, to: BlockId, i: int)
    requires
        0 <= i <= from.len(),
        forall|j: int| 0 <= j < from.len() ==> (#[trigger] from[j]).0 < st.blocks.len(),
    ensures
        ({
            let after = all_sent(st, from, to, i);
            &&& after.blocks.len() == st.blocks.len()
            &&& after.current == st.current
            &&& after.scopes == st.scopes
            &&& forall|b: int|
                0 <= b < st.blocks.len() ==> (#[trigger] after.blocks[b]).instrs
                    == st.blocks[b].instrs
            &&& forall|j: int|
                i <= j < from.len() ==> after.blocks[(#[trigger] from[j]).0 as int].term == Some(
                    TermView::jump(to),
                )
            &&& forall|b: int|
                0 <= b < st.blocks.len() && (forall|j: int|
                    i <= j < from.len() ==> (#[trigger] from[j]).0 != b) ==> (
                #[trigger] after.blocks[b]).term == st.blocks[b].term
        }),
    decreases from.len() - i,
{
    if i < from.len() {
        reveal(ended);
        let next = ended(st, from[i], TermView::jump(to));
        sent_are(next, from, to, i + 1);
        let after = all_sent(st, from, to, i);
        assert forall|j: int| i <= j < from.len() implies after.blocks[(
        #[trigger] from[j]).0 as int].term == Some(TermView::jump(to)) by {
            if exists|x: int| i + 1 <= x < from.len() && (#[trigger] from[x]).0 == from[j].0 {
                let x = choose|x: int|
                    i + 1 <= x < from.len() && (#[trigger] from[x]).0 == from[j].0;
                assert(after.blocks[from[x].0 as int].term == Some(TermView::jump(to)));
            } else {
                assert(after.blocks[from[j].0 as int].term
                    == next.blocks[from[j].0 as int].term);
            }
        }
        assert forall|b: int|
            0 <= b < st.blocks.len() && (forall|j: int|
                i <= j < from.len() ==> (#[trigger] from[j]).0 != b) implies (
        #[trigger] after.blocks[b]).term == st.blocks[b].term by {
            assert(from[i].0 != b);
        }
    }
}

/// Whether a block is none of a list.
pub open spec fn none_of(block: BlockId, list: Seq<BlockId>) -> bool {
    forall|j: int| 0 <= j < list.len() ==> (#[trigger] list[j]).0 != block.0
}

/// **A loop goes round.** What came before it goes to its header; the header goes to the
/// body where the condition holds and past the loop where it does not; the end of the
/// body goes back to the header; every `continue` goes to the latch and every `break`
/// past the loop, which is where building goes on.
pub proof fn loops_send_each_where_it_goes(
    st: State,
    before: BlockId,
    header: BlockId,
    cond: Value,
    header_exit: BlockId,
    body: BlockId,
    latch: BlockId,
    frame: LoopView,
)
    requires
        before.0 < st.blocks.len(),
        header_exit.0 < st.blocks.len(),
        st.current.0 < st.blocks.len(),
        forall|j: int|
            0 <= j < frame.breaks.len() ==> (#[trigger] frame.breaks[j]).0 < st.blocks.len(),
        forall|j: int|
            0 <= j < frame.continues.len() ==> (#[trigger] frame.continues[j]).0
                < st.blocks.len() && none_of(frame.continues[j], frame.breaks),
        before.0 != header_exit.0,
        before.0 != st.current.0,
        header_exit.0 != st.current.0,
        none_of(before, frame.breaks),
        none_of(before, frame.continues),
        none_of(header_exit, frame.breaks),
        none_of(header_exit, frame.continues),
        none_of(st.current, frame.breaks),
        none_of(st.current, frame.continues),
        loop_closed(st, before, header, cond, header_exit, body, latch, frame) is Some,
    ensures
        ({
            let after = loop_closed(st, before, header, cond, header_exit, body, latch, frame)->0;
            &&& after.blocks.len() == st.blocks.len() + 1
            &&& after.current.0 == st.blocks.len()
            &&& after.scopes == st.scopes
            &&& after.blocks[after.current.0 as int].instrs.len() == 0
            &&& forall|b: int|
                0 <= b < st.blocks.len() ==> (#[trigger] after.blocks[b]).instrs
                    == st.blocks[b].instrs
            &&& forall|m: Machine| #[trigger]
                way(after.blocks[before.0 as int].term, m) == Some(header)
            &&& forall|m: Machine| #[trigger]
                way(after.blocks[header_exit.0 as int].term, m) == Some(
                    if m.worth(cond) != 0 {
                        body
                    } else {
                        after.current
                    },
                )
            &&& forall|m: Machine| #[trigger]
                way(after.blocks[st.current.0 as int].term, m) == Some(header)
            &&& forall|j: int, m: Machine|
                #![trigger way(after.blocks[frame.continues[j].0 as int].term, m)]
                0 <= j < frame.continues.len() ==> way(
                    after.blocks[frame.continues[j].0 as int].term,
                    m,
                ) == Some(latch)
            &&& forall|j: int, m: Machine|
                #![trigger way(after.blocks[frame.breaks[j].0 as int].term, m)]
                0 <= j < frame.breaks.len() ==> way(
                    after.blocks[frame.breaks[j].0 as int].term,
                    m,
                ) == Some(after.current)
            &&& forall|b: int|
                0 <= b < st.blocks.len() && b != before.0 && b != header_exit.0 && b
                    != st.current.0 && none_of(BlockId(b as u32), frame.breaks) && none_of(
                    BlockId(b as u32),
                    frame.continues,
                ) ==> (#[trigger] after.blocks[b]).term == st.blocks[b].term
        }),
{
    reveal(opened);
    reveal(ended);
    let (open, past) = opened(st, BlockKind::Done, frame.base)->0;
    let one = ended(open, before, TermView::jump(header));
    let two = ended(one, header_exit, TermView::branch(cond, body, past));
    let three = ended(two, st.current, TermView::jump(header));
    let four = all_sent(three, frame.continues, latch, 0);
    sent_are(three, frame.continues, latch, 0);
    sent_are(four, frame.breaks, past, 0);
    let five = all_sent(four, frame.breaks, past, 0);
    let after = loop_closed(st, before, header, cond, header_exit, body, latch, frame)->0;
    assert(after.blocks == five.blocks);
    assert forall|j: int, m: Machine|
        #![trigger way(after.blocks[frame.continues[j].0 as int].term, m)]
        0 <= j < frame.continues.len() implies way(
        after.blocks[frame.continues[j].0 as int].term,
        m,
    ) == Some(latch) by {
        let b = frame.continues[j].0 as int;
        assert(none_of(frame.continues[j], frame.breaks));
        assert(four.blocks[b].term == Some(TermView::jump(latch)));
        assert(five.blocks[b].term == four.blocks[b].term);
    }
    assert(five.blocks[before.0 as int].term == three.blocks[before.0 as int].term);
    assert(five.blocks[header_exit.0 as int].term == three.blocks[header_exit.0 as int].term);
    assert(five.blocks[st.current.0 as int].term == three.blocks[st.current.0 as int].term);
    assert forall|b: int|
        0 <= b < st.blocks.len() && b != before.0 && b != header_exit.0 && b != st.current.0
            && none_of(BlockId(b as u32), frame.breaks) && none_of(
            BlockId(b as u32),
            frame.continues,
        ) implies (#[trigger] after.blocks[b]).term == st.blocks[b].term by {
        assert(four.blocks[b].term == three.blocks[b].term);
        assert(five.blocks[b].term == four.blocks[b].term);
    }
}

/// **A `return` ends its block with its value**, and nothing is built behind it.
pub proof fn returning_ends_the_block(st: State, value: Option<Value>)
    requires
        st.current.0 < st.blocks.len(),
        returned(st, value) is Some,
    ensures
        ({
            let after = returned(st, value)->0;
            let at = st.current.0 as int;
            &&& after.blocks[at].term == Some(TermView::Return(value))
            &&& after.blocks[at].instrs == st.blocks[at].instrs
            &&& after.current.0 == st.blocks.len()
            &&& after.blocks[after.current.0 as int].instrs.len() == 0
            &&& forall|i: int|
                0 <= i < st.blocks.len() && i != at ==> #[trigger] after.blocks[i] == st.blocks[i]
        }),
{
    reveal(opened);
    reveal(ended);
}

/// **What is returned is what the expression is worth.**
pub proof fn returning_gives_the_value(
    cx: ContextView,
    st: State,
    s: Stmt,
    m: Machine,
    n: Machine,
    vars: Map<Seq<char>, i64>,
)
    requires
        s matches Stmt::Return { value: Some(e) } && plain(cx, e) && (type_of(cx, e.id) matches Some(
            ty,
        ) && ty.in_a_register() && !(ty is List)) && worth_of(cx, vars, e) is Some,
        st.out_pointer is None,
        scopes_exist(st),
        st.names.len() <= u32::MAX,
        st.current.0 < st.blocks.len(),
        return_of(cx, st, s) is Some,
        holds_vars(st, m, vars),
        runs(rest(st, return_of(cx, st, s)->0), m, n),
    ensures
        return_of(cx, st, s)->0.blocks[st.current.0 as int].term matches Some(TermView::Return(
            Some(value),
        )) && n.worth(value) == worth_of(cx, vars, (s->Return_value)->0)->0,
        n.cells == m.cells,
{
    let e = (s->Return_value)->0;
    let (mid, value) = expr_of(cx, st, e)->0;
    expressions_are_worth_what_they_say(cx, st, e);
    plain_is_aside(cx, st, e);
    assert(return_of(cx, st, s) == returned(mid, Some(value)));
    returning_ends_the_block(mid, Some(value));
    assert(rest(st, return_of(cx, st, s)->0) == code(st, mid));
    assert(operand_right(cx, st, e, mid, value));
}

} // verus!
