//! That a loop goes round as often as its condition holds, and is left as it says.

use vstd::prelude::*;

use super::branches::{
    a_part_comes_first, a_part_runs_in_order, a_statement_runs, blocks_run_in_order,
    entering_names_nothing, jumps_are_for_the_innermost_loop, left_as,
    loops_send_each_where_it_goes, named_alike, none_of, part_of, plain_is_aside, plain_stmt,
    plain_stmts, rest, same_names, vars_after, way,
};
use super::builder::{looped, unlooped};
use super::machine::{
    code, expressions_are_worth_what_they_say, holds_vars, operand_right, plain, runs, runs_both,
    scopes_exist, still_holds, worth_of, Machine,
};
use super::meaning::{
    block_body, block_of, expr_of, jumped, loop_closed, loop_of, stepped, stmt_body, stmt_of,
    stmts_from,
};
use super::state::{bound, ended, entered, held_here, opened, ContextView, State};
use super::stores::apart;
use crate::ast::{Block, Expr, Stmt};
use crate::ir::block::{BlockKind, TermView};
use crate::ir::instr::InstrView;
use crate::ir::value::{BlockId, Value};

verus! {

/// How a list of statements ends: with a `break`, with a `continue`, or with neither.
pub open spec fn tail(stmts: Seq<Stmt>) -> Option<bool> {
    if stmts.len() > 0 && stmts.last() is Break {
        Some(true)
    } else if stmts.len() > 0 && stmts.last() is Continue {
        Some(false)
    } else {
        None
    }
}

/// The statements in front of that.
pub open spec fn in_front(stmts: Seq<Stmt>) -> Seq<Stmt> {
    if tail(stmts) is Some {
        stmts.take(stmts.len() - 1)
    } else {
        stmts
    }
}

/// Whether what a run does in a block leaves variables as statements say.
pub open spec fn done_in(
    cx: ContextView,
    st: State,
    instrs: Seq<InstrView>,
    stmts: Seq<Stmt>,
) -> bool {
    forall|m: Machine, n: Machine, vars: Map<Seq<char>, i64>|
        #![trigger runs(instrs, m, n), holds_vars(st, m, vars)]
        runs(instrs, m, n) && holds_vars(st, m, vars) ==> {
            &&& n.cells == m.cells
            &&& vars_after(cx, vars, stmts, 0) matches Some(then) ==> holds_vars(st, n, then)
        }
}

/// Whether building left everything but the block it was in alone, and handed that block
/// to the innermost loop if it ended with a jump.
pub open spec fn body_built(st: State, after: State, ends: Option<bool>) -> bool {
    let at = st.current.0 as int;
    let last = st.loops.len() - 1;
    &&& after.scopes == st.scopes
    &&& after.names.len() <= u32::MAX
    &&& st.names.len() <= after.names.len()
    &&& after.blocks[at].term == st.blocks[at].term
    &&& forall|i: int|
        0 <= i < st.blocks.len() && i != at ==> #[trigger] after.blocks[i] == st.blocks[i]
    &&& after.loops.len() == st.loops.len()
    &&& forall|i: int| 0 <= i < last ==> #[trigger] after.loops[i] == st.loops[i]
    &&& after.loops[last].base == st.loops[last].base
    &&& match ends {
        None => {
            &&& after.current == st.current
            &&& after.blocks.len() == st.blocks.len()
            &&& after.loops[last] == st.loops[last]
        },
        Some(breaks) => {
            &&& after.current.0 == st.blocks.len()
            &&& after.blocks.len() == st.blocks.len() + 1
            &&& after.blocks[after.current.0 as int].instrs.len() == 0
            &&& after.loops[last].breaks == (if breaks {
                st.loops[last].breaks.push(st.current)
            } else {
                st.loops[last].breaks
            })
            &&& after.loops[last].continues == (if breaks {
                st.loops[last].continues
            } else {
                st.loops[last].continues.push(st.current)
            })
        },
    }
}

proof fn a_body_is_built(cx: ContextView, st: State, block: Block)
    requires
        plain_stmts(cx, st, in_front(block.stmts@)),
        scopes_exist(st),
        apart(st),
        st.names.len() <= u32::MAX,
        st.current.0 < st.blocks.len(),
        st.loops.len() > 0,
        st.blocks[st.current.0 as int].instrs.len() == 0,
        block_of(cx, st, block) is Some,
    ensures
        ({
            let after = block_of(cx, st, block)->0;
            &&& body_built(st, after, tail(block.stmts@))
            &&& done_in(
                cx,
                st,
                after.blocks[st.current.0 as int].instrs,
                in_front(block.stmts@),
            )
        }),
{
    let after = block_of(cx, st, block)->0;
    let at = st.current.0 as int;
    let stmts = block.stmts@;
    if tail(stmts) is None {
        blocks_run_in_order(cx, st, block);
        assert(code(st, after) =~= after.blocks[at].instrs);
        assert(left_as(cx, st, after, stmts, 0));
        assert forall|m: Machine, n: Machine, vars: Map<Seq<char>, i64>|
            #![trigger runs(after.blocks[at].instrs, m, n), holds_vars(st, m, vars)]
            runs(after.blocks[at].instrs, m, n) && holds_vars(st, m, vars) implies {
            &&& n.cells == m.cells
            &&& vars_after(cx, vars, stmts, 0) matches Some(then) ==> holds_vars(st, n, then)
        } by {
            if let Some(then) = vars_after(cx, vars, stmts, 0) {
                named_alike(after, st, n, then);
            }
        }
    } else {
        assert(block_of(cx, st, block) == block_body(cx, st, block));
        let inner = entered(st);
        let end = stmts.len() - 1;
        let breaks = tail(stmts)->0;
        entering_names_nothing(st);
        assert(apart(inner));
        assert(plain_stmts(cx, inner, stmts.take(end))) by {
            assert forall|j: int| 0 <= j < end implies plain_stmt(
                cx,
                inner,
                #[trigger] stmts.take(end)[j],
            ) by {
                assert(plain_stmt(cx, st, in_front(stmts)[j]));
            }
        }
        a_part_comes_first(cx, inner, block.stmts, 0, end);
        let mid = part_of(cx, inner, block.stmts, 0, end)->0;
        a_part_runs_in_order(cx, inner, block.stmts, 0, end);
        let done = stmt_of(cx, mid, stmts[end])->0;
        assert(stmt_of(cx, mid, stmts[end]) == stmt_body(cx, mid, stmts[end]));
        assert(stmt_of(cx, mid, stmts[end]) == jumped(mid, breaks));
        assert(stmts_from(cx, mid, block.stmts, end) == stmts_from(
            cx,
            done,
            block.stmts,
            end + 1,
        ));
        jumps_are_for_the_innermost_loop(mid, breaks);
        assert(inner.scopes.drop_last() =~= st.scopes);
        assert(after.blocks == done.blocks && after.loops == done.loops && after.current
            == done.current && after.names == done.names);
        assert(after.blocks[at] == mid.blocks[at]);
        assert(code(inner, mid) =~= mid.blocks[at].instrs);
        same_names(inner, mid);
        assert(left_as(cx, inner, mid, stmts.take(end), 0));
        assert forall|m: Machine, n: Machine, vars: Map<Seq<char>, i64>|
            #![trigger runs(after.blocks[at].instrs, m, n), holds_vars(st, m, vars)]
            runs(after.blocks[at].instrs, m, n) && holds_vars(st, m, vars) implies {
            &&& n.cells == m.cells
            &&& vars_after(cx, vars, in_front(stmts), 0) matches Some(then) ==> holds_vars(
                st,
                n,
                then,
            )
        } by {
            assert(holds_vars(inner, m, vars)) by {
                assert forall|name: Seq<char>| #[trigger] bound(inner, name) is Some implies m.regs[(
                bound(inner, name)->0).0] == vars[name] by {
                    assert(bound(st, name) is Some);
                }
            }
            if let Some(then) = vars_after(cx, vars, in_front(stmts), 0) {
                assert(holds_vars(mid, n, then));
                assert forall|name: Seq<char>| #[trigger] bound(st, name) is Some implies n.regs[(
                bound(st, name)->0).0] == then[name] by {
                    assert(bound(inner, name) == bound(st, name));
                    assert(bound(mid, name) == bound(inner, name));
                }
            }
        }
    }
}

/// A loop as far as its body: the header's condition and the body in their own blocks.
proof fn a_loop_is_entered(cx: ContextView, st: State, cond: Expr, body: Block)
    requires
        plain(cx, cond),
        plain_stmts(cx, st, in_front(body.stmts@)),
        scopes_exist(st),
        apart(st),
        st.names.len() <= u32::MAX,
        st.current.0 < st.blocks.len(),
        bodied(cx, st, cond, body) is Some,
    ensures
        ({
            let (header, tested, body_id, done) = bodied(cx, st, cond, body)->0;
            &&& header.0 == st.blocks.len()
            &&& body_id.0 == st.blocks.len() + 1
            &&& done.scopes == st.scopes
            &&& scopes_exist(done)
            &&& apart(done)
            &&& done.names.len() <= u32::MAX
            &&& done.blocks[st.current.0 as int] == st.blocks[st.current.0 as int]
            &&& done.loops.len() == st.loops.len() + 1
            &&& tail(body.stmts@) is None ==> {
                &&& done.current == body_id
                &&& done.blocks.len() == st.blocks.len() + 2
                &&& done.loops.last().breaks.len() == 0
                &&& done.loops.last().continues.len() == 0
            }
            &&& tail(body.stmts@) matches Some(breaks) ==> {
                &&& done.current.0 == st.blocks.len() + 2
                &&& done.blocks.len() == st.blocks.len() + 3
                &&& done.blocks[done.current.0 as int].instrs.len() == 0
                &&& done.loops.last().breaks == (if breaks {
                    seq![body_id]
                } else {
                    seq![]
                })
                &&& done.loops.last().continues == (if breaks {
                    seq![]
                } else {
                    seq![body_id]
                })
            }
            &&& done_in(
                cx,
                st,
                done.blocks[body_id.0 as int].instrs,
                in_front(body.stmts@),
            )
            &&& forall|m: Machine, n: Machine, vars: Map<Seq<char>, i64>|
                #![trigger runs(done.blocks[header.0 as int].instrs, m, n), holds_vars(st, m, vars)]
                runs(done.blocks[header.0 as int].instrs, m, n) && holds_vars(st, m, vars) ==> {
                    &&& n.cells == m.cells
                    &&& holds_vars(st, n, vars)
                    &&& worth_of(cx, vars, cond) matches Some(w) ==> n.worth(tested) == w
                }
        }),
{
    let (header, tested, body_id, done) = bodied(cx, st, cond, body)->0;
    let base = held_here(st);
    reveal(opened);
    let (one, _) = opened(st, BlockKind::Loop, base)->0;
    same_names(st, one);
    assert(scopes_exist(one));
    let (two, _) = expr_of(cx, one, cond)->0;
    expressions_are_worth_what_they_say(cx, one, cond);
    plain_is_aside(cx, one, cond);
    let (three, _) = opened(two, BlockKind::Body, held_here(two))->0;
    let inside = looped(three, base);
    same_names(st, inside);
    assert(scopes_exist(inside));
    assert(apart(inside));
    assert(plain_stmts(cx, inside, in_front(body.stmts@))) by {
        assert forall|j: int| 0 <= j < in_front(body.stmts@).len() implies plain_stmt(
            cx,
            inside,
            #[trigger] in_front(body.stmts@)[j],
        ) by {
            assert(plain_stmt(cx, st, in_front(body.stmts@)[j]));
        }
    }
    a_body_is_built(cx, inside, body);
    assert(body_built(inside, done, tail(body.stmts@)));
    same_names(st, done);
    assert(scopes_exist(done)) by {
        assert forall|i: int, k: int|
            #![trigger done.scopes[i][k]]
            0 <= i < done.scopes.len() && 0 <= k < done.scopes[i].len() implies done.scopes[i][k].reg.0
            < done.names.len() by {
            assert(st.scopes[i][k].reg.0 < st.names.len());
        }
    }
    assert(apart(done));
    assert(inside.loops.last().breaks =~= seq![]);
    assert(seq![].push(body_id) =~= seq![body_id]);
    let h = header.0 as int;
    assert(done.blocks[h] == inside.blocks[h]);
    assert(code(one, two) =~= two.blocks[h].instrs);
    assert(done.blocks[st.current.0 as int] == inside.blocks[st.current.0 as int]);
    assert(two.blocks[st.current.0 as int] == one.blocks[st.current.0 as int]);
    assert forall|m: Machine, n: Machine, vars: Map<Seq<char>, i64>|
        #![trigger runs(done.blocks[header.0 as int].instrs, m, n), holds_vars(st, m, vars)]
        runs(done.blocks[h].instrs, m, n) && holds_vars(st, m, vars) implies {
        &&& n.cells == m.cells
        &&& holds_vars(st, n, vars)
        &&& worth_of(cx, vars, cond) matches Some(w) ==> n.worth(tested) == w
    } by {
        named_alike(st, one, m, vars);
        assert(operand_right(cx, one, cond, two, tested));
        still_holds(one, two, m, n, vars);
        named_alike(two, st, n, vars);
    }
    assert forall|m: Machine, n: Machine, vars: Map<Seq<char>, i64>|
        #![trigger runs(done.blocks[body_id.0 as int].instrs, m, n), holds_vars(st, m, vars)]
        runs(done.blocks[body_id.0 as int].instrs, m, n) && holds_vars(st, m, vars) implies {
        &&& n.cells == m.cells
        &&& vars_after(cx, vars, in_front(body.stmts@), 0) matches Some(then) ==> holds_vars(
            st,
            n,
            then,
        )
    } by {
        named_alike(st, inside, m, vars);
        assert(done_in(
            cx,
            inside,
            done.blocks[body_id.0 as int].instrs,
            in_front(body.stmts@),
        ));
        if let Some(then) = vars_after(cx, vars, in_front(body.stmts@), 0) {
            named_alike(inside, st, n, then);
        }
    }
}

/// The header, the value it tests, the body's block, and what is built by the body's end.
spec fn bodied(cx: ContextView, st: State, cond: Expr, body: Block) -> Option<
    (BlockId, Value, BlockId, State),
> {
    let base = held_here(st);
    match opened(st, BlockKind::Loop, base) {
        Some((st, header)) => match expr_of(cx, st, cond) {
            Some((st, tested)) => match opened(st, BlockKind::Body, held_here(st)) {
                Some((st, body_id)) => match block_of(cx, looped(st, base), body) {
                    Some(st) => Some((header, tested, body_id, st)),
                    None => None,
                },
                None => None,
            },
            None => None,
        },
        None => None,
    }
}

/// **A `while` tests before every turn.** What came before it goes to a block that tests
/// the condition. Where that holds, a run goes on to a block that does what the body says,
/// and from there back to the test, or past the loop if the body ends with a `break`;
/// where it does not hold, a run goes past the loop at once.
pub proof fn a_while_goes_round(
    cx: ContextView,
    st: State,
    s: Stmt,
    m: Machine,
    k: Machine,
    n: Machine,
    vars: Map<Seq<char>, i64>,
)
    requires
        s matches Stmt::While { cond, body } && plain(cx, cond) && plain_stmts(
            cx,
            st,
            in_front(body.stmts@),
        ) && worth_of(cx, vars, cond) is Some,
        scopes_exist(st),
        apart(st),
        st.names.len() <= u32::MAX,
        st.current.0 < st.blocks.len(),
        loop_of(cx, st, s) is Some,
        holds_vars(st, m, vars),
        ({
            let after = loop_of(cx, st, s)->0;
            let header = way(after.blocks[st.current.0 as int].term, m)->0;
            runs(after.blocks[header.0 as int].instrs, m, k)
        }),
    ensures
        ({
            let after = loop_of(cx, st, s)->0;
            let first = way(after.blocks[st.current.0 as int].term, m);
            let header = first->0;
            let side = way(after.blocks[header.0 as int].term, k);
            let there = after.blocks[(side->0).0 as int];
            let stmts = s->While_body.stmts@;
            &&& first is Some
            &&& rest(st, after).len() == 0
            &&& after.blocks[after.current.0 as int].instrs.len() == 0
            &&& side is Some
            &&& worth_of(cx, vars, s->While_cond)->0 == 0 ==> {
                &&& side == Some(after.current)
                &&& holds_vars(after, k, vars)
            }
            &&& worth_of(cx, vars, s->While_cond)->0 != 0 ==> {
                &&& way(there.term, n) == Some(
                    if tail(stmts) == Some(true) {
                        after.current
                    } else {
                        header
                    },
                )
                &&& runs(there.instrs, k, n) ==> (vars_after(cx, vars, in_front(stmts), 0) matches Some(
                    then,
                ) ==> holds_vars(after, n, then))
            }
        }),
{
    let cond = s->While_cond;
    let body = s->While_body;
    let stmts = body.stmts@;
    let after = loop_of(cx, st, s)->0;
    let (header, tested, body_id, done) = bodied(cx, st, cond, body)->0;
    a_loop_is_entered(cx, st, cond, body);
    let frame = done.loops.last();
    let closing = unlooped(done);
    opened_stays(st, cond, cx);
    assert(after == loop_closed(
        closing,
        st.current,
        header,
        tested,
        header,
        body_id,
        header,
        frame,
    )->0);
    assert(none_of(st.current, frame.breaks));
    loops_send_each_where_it_goes(
        closing,
        st.current,
        header,
        tested,
        header,
        body_id,
        header,
        frame,
    );
    assert(after.blocks[header.0 as int].instrs == closing.blocks[header.0 as int].instrs);
    assert(after.blocks[body_id.0 as int].instrs == closing.blocks[body_id.0 as int].instrs);
    assert(after.blocks[st.current.0 as int].instrs == closing.blocks[st.current.0 as int].instrs);
    named_alike(st, after, k, vars);
    let there = after.blocks[body_id.0 as int];
    if tail(stmts) == Some(true) {
        assert(frame.breaks[0] == body_id);
        assert(way(after.blocks[frame.breaks[0].0 as int].term, n) == Some(after.current));
    } else if tail(stmts) == Some(false) {
        assert(frame.continues[0] == body_id);
        assert(way(after.blocks[frame.continues[0].0 as int].term, n) == Some(header));
    }
    if runs(there.instrs, k, n) {
        if let Some(then) = vars_after(cx, vars, in_front(stmts), 0) {
            named_alike(st, after, n, then);
        }
    }
}

/// Testing a condition that is plain stays in the block it is tested in.
proof fn opened_stays(st: State, cond: Expr, cx: ContextView)
    requires
        plain(cx, cond),
        st.current.0 < st.blocks.len(),
        opened(st, BlockKind::Loop, held_here(st)) is Some,
        expr_of(cx, (opened(st, BlockKind::Loop, held_here(st))->0).0, cond) is Some,
    ensures
        (expr_of(cx, (opened(st, BlockKind::Loop, held_here(st))->0).0, cond)->0).0.current.0
            == st.blocks.len(),
{
    reveal(opened);
    plain_is_aside(cx, (opened(st, BlockKind::Loop, held_here(st))->0).0, cond);
}

/// **A `for` takes its step after every turn.** As a `while`; but what the step says is
/// done at the end of the body, and after a `continue` too, on the way back to the test.
pub proof fn a_for_takes_its_step(
    cx: ContextView,
    st: State,
    s: Stmt,
    m: Machine,
    k: Machine,
    n: Machine,
    p: Machine,
    vars: Map<Seq<char>, i64>,
)
    requires
        s matches Stmt::For { init, cond, step, body } && plain(cx, cond) && plain_stmts(
            cx,
            st,
            in_front(body.stmts@),
        ) && plain_stmt(cx, st, *step) && worth_of(cx, vars, cond) is Some,
        scopes_exist(st),
        apart(st),
        st.names.len() <= u32::MAX,
        st.current.0 < st.blocks.len(),
        loop_of(cx, st, s) is Some,
        holds_vars(st, m, vars),
        ({
            let after = loop_of(cx, st, s)->0;
            let header = way(after.blocks[st.current.0 as int].term, m)->0;
            runs(after.blocks[header.0 as int].instrs, m, k)
        }),
    ensures
        ({
            let after = loop_of(cx, st, s)->0;
            let first = way(after.blocks[st.current.0 as int].term, m);
            let header = first->0;
            let side = way(after.blocks[header.0 as int].term, k);
            let there = after.blocks[(side->0).0 as int];
            let stmts = s->For_body.stmts@;
            let step = *s->For_step;
            &&& first is Some
            &&& rest(st, after).len() == 0
            &&& after.blocks[after.current.0 as int].instrs.len() == 0
            &&& side is Some
            &&& worth_of(cx, vars, s->For_cond)->0 == 0 ==> {
                &&& side == Some(after.current)
                &&& holds_vars(after, k, vars)
            }
            &&& worth_of(cx, vars, s->For_cond)->0 != 0 && tail(stmts) is None ==> {
                &&& way(there.term, n) == Some(header)
                &&& runs(there.instrs, k, n) ==> (vars_after(cx, vars, stmts, 0) matches Some(
                    then,
                ) ==> stepped_on(cx, after, then, step, n))
            }
            &&& worth_of(cx, vars, s->For_cond)->0 != 0 && tail(stmts) == Some(true) ==> {
                &&& way(there.term, n) == Some(after.current)
                &&& runs(there.instrs, k, n) ==> (vars_after(cx, vars, in_front(stmts), 0) matches Some(
                    then,
                ) ==> holds_vars(after, n, then))
            }
            &&& worth_of(cx, vars, s->For_cond)->0 != 0 && tail(stmts) == Some(false) ==> {
                let latch = way(there.term, n);
                &&& latch is Some
                &&& way(after.blocks[(latch->0).0 as int].term, p) == Some(header)
                &&& runs(there.instrs, k, n) && runs(
                    after.blocks[(latch->0).0 as int].instrs,
                    n,
                    p,
                ) ==> (vars_after(cx, vars, in_front(stmts), 0) matches Some(then) ==> stepped_on(
                    cx,
                    after,
                    then,
                    step,
                    p,
                ))
            }
        }),
{
    let cond = s->For_cond;
    let body = s->For_body;
    let stmts = body.stmts@;
    let step = *s->For_step;
    let after = loop_of(cx, st, s)->0;
    let (header, tested, body_id, done) = bodied(cx, st, cond, body)->0;
    a_loop_is_entered(cx, st, cond, body);
    opened_stays(st, cond, cx);
    let frame = done.loops.last();
    let inside = unlooped(done);
    let base = held_here(st);
    same_names(st, inside);
    assert(plain_stmt(cx, inside, step));
    assert(scopes_exist(inside));
    assert(apart(inside));
    let b = body_id.0 as int;
    if tail(stmts) == Some(false) {
        reveal(opened);
        reveal(ended);
        let (open, latch) = opened(inside, BlockKind::Step, base)->0;
        same_names(st, open);
        assert(plain_stmt(cx, open, step));
        assert(scopes_exist(open));
        assert(apart(open));
        a_statement_runs(cx, open, step);
        let ready = stmt_of(cx, open, step)->0;
        let closing = ended(stepped(open, ready), done.current, TermView::jump(latch));
        assert(after == loop_closed(
            closing,
            st.current,
            header,
            tested,
            header,
            body_id,
            latch,
            frame,
        )->0);
        assert(closing.current == latch);
        loops_send_each_where_it_goes(
            closing,
            st.current,
            header,
            tested,
            header,
            body_id,
            latch,
            frame,
        );
        assert(frame.continues[0] == body_id);
        assert(way(after.blocks[frame.continues[0].0 as int].term, n) == Some(latch));
        let l = latch.0 as int;
        assert(after.blocks[l].instrs == closing.blocks[l].instrs);
        assert(code(open, ready) =~= ready.blocks[l].instrs);
        assert(ready.blocks[b] == open.blocks[b]);
        assert(ready.blocks[header.0 as int] == open.blocks[header.0 as int]);
        assert(ready.blocks[st.current.0 as int] == open.blocks[st.current.0 as int]);
        assert(after.blocks[b].instrs == closing.blocks[b].instrs);
        assert(after.blocks[header.0 as int].instrs == closing.blocks[header.0 as int].instrs);
        assert(after.blocks[st.current.0 as int].instrs
            == closing.blocks[st.current.0 as int].instrs);
        named_alike(st, after, k, vars);
        if runs(after.blocks[b].instrs, k, n) && runs(after.blocks[l].instrs, n, p) {
            if let Some(then) = vars_after(cx, vars, in_front(stmts), 0) {
                named_alike(st, open, n, then);
                if let Some(w) = worth_of(cx, then, step->Assign_value) {
                    let last = then.insert(step->Assign_target->Var_name@, w);
                    assert(holds_vars(ready, p, last));
                    named_alike(ready, after, p, last);
                }
            }
        }
    } else {
        a_statement_runs(cx, inside, step);
        let ready = stmt_of(cx, inside, step)->0;
        let closing = stepped(inside, ready);
        assert(after == loop_closed(
            closing,
            st.current,
            header,
            tested,
            header,
            body_id,
            header,
            frame,
        )->0);
        loops_send_each_where_it_goes(
            closing,
            st.current,
            header,
            tested,
            header,
            body_id,
            header,
            frame,
        );
        assert(ready.blocks[header.0 as int] == inside.blocks[header.0 as int]);
        assert(ready.blocks[st.current.0 as int] == inside.blocks[st.current.0 as int]);
        assert(after.blocks[b].instrs == closing.blocks[b].instrs);
        assert(after.blocks[header.0 as int].instrs == closing.blocks[header.0 as int].instrs);
        assert(after.blocks[st.current.0 as int].instrs
            == closing.blocks[st.current.0 as int].instrs);
        named_alike(st, after, k, vars);
        if tail(stmts) == Some(true) {
            assert(frame.breaks[0] == body_id);
            assert(way(after.blocks[frame.breaks[0].0 as int].term, n) == Some(after.current));
            assert(ready.blocks[b] == inside.blocks[b]);
            if runs(after.blocks[b].instrs, k, n) {
                if let Some(then) = vars_after(cx, vars, in_front(stmts), 0) {
                    named_alike(st, after, n, then);
                }
            }
        } else {
            assert(inside.blocks[b].instrs + code(inside, ready) =~= ready.blocks[b].instrs);
            if runs(after.blocks[b].instrs, k, n) {
                let mid = runs_both(inside.blocks[b].instrs, code(inside, ready), k, n);
                if let Some(then) = vars_after(cx, vars, stmts, 0) {
                    named_alike(st, inside, mid, then);
                    if let Some(w) = worth_of(cx, then, step->Assign_value) {
                        let last = then.insert(step->Assign_target->Var_name@, w);
                        assert(holds_vars(ready, n, last));
                        named_alike(ready, after, n, last);
                    }
                }
            }
        }
    }
}

/// Whether the step of a loop has been taken.
pub open spec fn stepped_on(
    cx: ContextView,
    st: State,
    vars: Map<Seq<char>, i64>,
    step: Stmt,
    m: Machine,
) -> bool {
    worth_of(cx, vars, step->Assign_value) matches Some(w) ==> holds_vars(
        st,
        m,
        vars.insert(step->Assign_target->Var_name@, w),
    )
}

} // verus!
