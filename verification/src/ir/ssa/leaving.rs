//! Why taking a function out of SSA form changes nothing it does.
//!
//! It is done in two steps, and a run is followed through both: first every edge
//! that hands something on and is not the only one out of its block goes through
//! a block of its own, then what an edge hands on becomes copies.

use vstd::prelude::*;

use super::destruct::{
    at_risk, bare_block, bare_term, bared, bared_grows, bared_length, copied, destinations,
    destructed, destructible, edge_block, moves_are_within, moves_of, moves_within, saved_before,
    saves_grow, saves_within, sequenced, sequencing_is_parallel, settles, split, split_before,
    split_exit, split_exits, split_grows, split_well, splits_well, worth, writes_apart,
    written_out, written_out_within, Move,
};
use super::form::{defined_once, definitions};
use super::meaning::handed_params;
use super::names::NamesView;
use crate::ir::block::{BlockView, TargetView, TermView};
use crate::ir::deeds::{
    asks_the_same, deed, deeds, does_as, is_deed, run_answer, run_deeds, same_deeds, visit_deeds,
    words, Deed,
};
use crate::ir::func::{block_within, target_args_empty, well_formed, FunctionView};
use crate::ir::halt::{done_before, goes_through, halts, lengths_kept, stops_as, stuck_again};
use crate::ir::instr::{instr_within, InstrView};
use crate::ir::run::{
    all_written, answers, goes, goes_to, handed_over, held_by, is_execution, may_write,
    nothing_held, steps, visits, walks, Held, Visit,
};
use crate::ir::value::{value_within, BlockId, VReg, Value};

verus! {

// -- what splitting does ----------------------------------------------------

/// Splitting changes a block when it comes to it and never again.
proof fn split_once(blocks: Seq<BlockView>, n: int, m: int, x: int)
    requires
        0 <= n <= m <= blocks.len(),
        0 <= x < split_before(blocks, n).len(),
        x < n || x >= m,
    ensures
        split_before(blocks, m).len() >= split_before(blocks, n).len(),
        split_before(blocks, m)[x] == split_before(blocks, n)[x],
    decreases m - n,
{
    if n < m {
        split_once(blocks, n, m - 1, x);
        split_grows(blocks, m - 1, m);
        let before = split_before(blocks, m - 1);
        let middle = split_exit(before, m - 1, 0);
        assert(x != m - 1);
        assert(middle[x] == before[x]);
    }
}

/// Whether the exit a block had is the exit it has, or goes on to the same block
/// from a block of its own.
pub open spec fn exit_kept(before: TargetView, after: Seq<BlockView>, now: TargetView, from: int) -> bool {
    if before.args.len() == 0 {
        now == before
    } else {
        &&& now == TargetView::plain(now.block)
        &&& from <= now.block.0 < after.len()
        &&& after[now.block.0 as int] == edge_block(now.block.0 as int, before)
    }
}

/// What splitting makes of a block.
#[verifier::spinoff_prover]
#[verifier::rlimit(40)]
proof fn split_block(blocks: Seq<BlockView>, b: int)
    requires
        0 <= b < blocks.len(),
        split(blocks).len() <= u32::MAX,
    ensures
        ({
            let after = split(blocks);
            let term = after[b].term;
            &&& blocks.len() <= after.len()
            &&& after[b].params == blocks[b].params
            &&& after[b].instrs == blocks[b].instrs
            &&& after[b].kind == blocks[b].kind
            &&& match blocks[b].term {
                TermView::Branch { cond, then_blk, else_blk } => {
                    &&& term is Branch
                    &&& term->cond == cond
                    &&& exit_kept(then_blk, after, term->then_blk, blocks.len() as int)
                    &&& exit_kept(else_blk, after, term->else_blk, blocks.len() as int)
                },
                _ => term == blocks[b].term,
            }
        }),
{
    let n = blocks.len() as int;
    let after = split(blocks);
    split_grows(blocks, 0, b);
    split_grows(blocks, b, b + 1);
    split_grows(blocks, b + 1, n);
    split_once(blocks, 0, b, b);
    let before = split_before(blocks, b);
    assert(before[b] == blocks[b]);
    let now = split_before(blocks, b + 1);
    assert(now == split_exits(before, b));
    split_once(blocks, b + 1, n, b);
    if let TermView::Branch { cond, then_blk, else_blk } = blocks[b].term {
        assert(blocks[b].term.targets() =~= seq![then_blk, else_blk]);
        let middle = split_exit(before, b, 0);
        let first = before.len() as int;
        let second = middle.len() as int;
        assert(now == split_exit(middle, b, 1));
        assert(second <= now.len() <= after.len());
        if then_blk.args.len() > 0 {
            assert(middle[first] == edge_block(first, then_blk));
            assert(middle[b].term == TermView::Branch {
                cond,
                then_blk: TargetView::plain(BlockId(first as u32)),
                else_blk,
            }) by {
                assert(seq![then_blk, else_blk].update(
                    0,
                    TargetView::plain(BlockId(first as u32)),
                ) =~= seq![TargetView::plain(BlockId(first as u32)), else_blk]);
            }
            assert(now[first] == middle[first]);
            split_once(blocks, b + 1, n, first);
        } else {
            assert(middle == before);
        }
        let start = (middle[b].term)->then_blk;
        assert(middle[b].term == TermView::Branch { cond, then_blk: start, else_blk });
        assert(middle[b].term.targets() =~= seq![start, else_blk]);
        if else_blk.args.len() > 0 {
            assert(now[second] == edge_block(second, else_blk));
            assert(seq![start, else_blk].update(1, TargetView::plain(BlockId(second as u32)))
                =~= seq![start, TargetView::plain(BlockId(second as u32))]);
            assert(now[b].term == TermView::Branch {
                cond,
                then_blk: start,
                else_blk: TargetView::plain(BlockId(second as u32)),
            });
            split_once(blocks, b + 1, n, second);
        } else {
            assert(now == middle);
        }
    }
}

// -- running the split function ---------------------------------------------

/// Whether more registers hold what these hold.
pub open spec fn extends(held: Held, more: Held) -> bool {
    &&& held.len() <= more.len()
    &&& forall|r: int| 0 <= r < held.len() ==> #[trigger] more[r] == held[r]
}

/// Whether a visit does what another does: in the same block, it goes through
/// the same instructions with every register holding the same, and what it may
/// do behind them changes nothing that is answered.
pub open spec fn visit_kept(
    function: FunctionView,
    visit: Visit,
    after: FunctionView,
    other: Visit,
) -> bool {
    let block = function.blocks[visit.block];
    let now = after.blocks[visit.block];
    let n = block.instrs.len() as int;
    &&& other.block == visit.block
    &&& n <= now.instrs.len()
    &&& other.states.len() == now.instrs.len() + 1
    &&& forall|k: int| 0 <= k < n ==> #[trigger] now.instrs[k] == block.instrs[k]
    &&& forall|k: int|
        0 <= k <= n ==> extends(#[trigger] visit.states[k], other.states[k])
    &&& answers(now.term, other.states.last()) == answers(block.term, visit.states.last())
}

/// Whether a run does what another does: visit for visit, with nothing in
/// between but blocks that stand on an edge.
pub open spec fn run_kept(
    function: FunctionView,
    run: Seq<Visit>,
    after: FunctionView,
    other: Seq<Visit>,
    at: Seq<int>,
) -> bool {
    &&& at.len() == run.len() > 0
    &&& at[0] == 0
    &&& at.last() == other.len() - 1
    &&& forall|i: int, j: int| 0 <= i < j < at.len() ==> #[trigger] at[i] < #[trigger] at[j]
    &&& forall|i: int|
        0 <= i < run.len() ==> 0 <= #[trigger] at[i] < other.len() && visit_kept(
            function,
            run[i],
            after,
            other[at[i]],
        )
    &&& forall|k: int|
        0 <= k < other.len() && !at.contains(k) ==> (#[trigger] other[k]).block
            >= function.blocks.len()
}

/// A function with its edges split.
pub open spec fn with_split_edges(function: FunctionView) -> FunctionView {
    FunctionView { blocks: split(function.blocks), ..function }
}

/// A visit to a block whose exits were split.
proof fn split_visit(function: FunctionView, visit: Visit)
    requires
        well_formed(function),
        split(function.blocks).len() <= u32::MAX,
        visits(function, visit),
    ensures
        visits(with_split_edges(function), visit),
        visit_kept(function, visit, with_split_edges(function), visit),
{
    split_block(function.blocks, visit.block);
}

/// An edge of a function whose edges were split: straight, or through a block of
/// its own.
#[verifier::rlimit(40)]
proof fn split_edge(
    function: FunctionView,
    b: int,
    leaving: Held,
    c: int,
    entering: Held,
) -> (through: Option<Visit>)
    requires
        well_formed(function),
        split(function.blocks).len() <= u32::MAX,
        0 <= b < function.blocks.len(),
        0 <= c < function.blocks.len(),
        leaving.len() == function.names.len(),
        goes(function.blocks, b, leaving, c, entering),
    ensures
        match through {
            None => goes(split(function.blocks), b, leaving, c, entering),
            Some(visit) => {
                &&& visit.block >= function.blocks.len()
                &&& visits(with_split_edges(function), visit)
                &&& goes(split(function.blocks), b, leaving, visit.block, visit.states[0])
                &&& goes(
                    split(function.blocks),
                    visit.block,
                    visit.states.last(),
                    c,
                    entering,
                )
            },
        },
{
    let blocks = function.blocks;
    let after = split(blocks);
    split_block(blocks, b);
    split_block(blocks, c);
    let target = goes_to(blocks[b].term, leaving)->0;
    let now = goes_to(after[b].term, leaving)->0;
    match blocks[b].term {
        TermView::Branch { cond, then_blk, else_blk } => {
            if target.args.len() == 0 {
                assert(now == target);
                None
            } else {
                let e = now.block.0 as int;
                assert(after[e] == edge_block(e, target));
                let visit = Visit { block: e, states: seq![leaving] };
                assert(walks(after[e].instrs, visit.states, 0));
                assert(handed_over(after[e].params, now.args, leaving, 0) == leaving);
                assert(all_written(now.args, leaving));
                assert(goes_to(after[e].term, leaving) == Some(target));
                Some(visit)
            }
        },
        _ => {
            assert(now == target);
            None
        },
    }
}

/// A run of a function is followed by one of the function with its edges split.
proof fn through_split(function: FunctionView, run: Seq<Visit>) -> (found: (Seq<Visit>, Seq<int>))
    requires
        well_formed(function),
        split(function.blocks).len() <= u32::MAX,
        is_execution(function, run),
    ensures
        is_execution(with_split_edges(function), found.0),
        run_kept(function, run, with_split_edges(function), found.0, found.1),
        found.0.last() == run.last(),
    decreases run.len(),
{
    let after = with_split_edges(function);
    let last = run.last();
    assert(visits(function, run[run.len() - 1]));
    split_visit(function, last);
    if run.len() == 1 {
        let other = seq![last];
        let at = seq![0int];
        assert(at[0] == 0);
        assert forall|k: int| 0 <= k < other.len() && !at.contains(k) implies (
        #[trigger] other[k]).block >= function.blocks.len() by {
            assert(k == 0);
            assert(at[0] == k);
        }
        (other, at)
    } else {
        let shorter = run.drop_last();
        shorter_execution(function, run);
        let (before, at_before) = through_split(function, shorter);
        let n = run.len() - 1;
        let from = run[n - 1];
        assert(visits(function, run[n - 1]));
        assert(from == shorter.last());
        assert(goes(
            function.blocks,
            run[n - 1].block,
            run[n - 1].states.last(),
            run[n].block,
            run[n].states[0],
        ));
        state_lengths(function, from, from.states.len() - 1);
        let through = split_edge(
            function,
            from.block,
            from.states.last(),
            last.block,
            last.states[0],
        );
        let other = match through {
            None => before.push(last),
            Some(visit) => before.push(visit).push(last),
        };
        let at = at_before.push(other.len() - 1);
        longer_run(function, run, after, before, at_before, other, at);
        assert forall|i: int| 0 <= i < other.len() implies visits(after, #[trigger] other[i]) by {
            if i < before.len() {
                assert(other[i] == before[i]);
            }
        }
        assert forall|i: int|
            #![trigger other[i]]
            0 < i < other.len() implies goes(
            after.blocks,
            other[i - 1].block,
            other[i - 1].states.last(),
            other[i].block,
            other[i].states[0],
        ) by {
            if i < before.len() {
                assert(other[i] == before[i] && other[i - 1] == before[i - 1]);
            } else if i == before.len() {
                assert(other[i - 1] == before.last());
            }
        }
        assert(other[0] == before[0]);
        (other, at)
    }
}

/// A run without its last visit is a run.
pub proof fn shorter_execution(function: FunctionView, run: Seq<Visit>)
    requires
        is_execution(function, run),
        run.len() > 1,
    ensures
        is_execution(function, run.drop_last()),
{
    let shorter = run.drop_last();
    assert forall|i: int| 0 <= i < shorter.len() implies visits(
        function,
        #[trigger] shorter[i],
    ) by {
        assert(visits(function, run[i]));
    }
    assert forall|i: int|
        #![trigger shorter[i]]
        0 < i < shorter.len() implies goes(
        function.blocks,
        shorter[i - 1].block,
        shorter[i - 1].states.last(),
        shorter[i].block,
        shorter[i].states[0],
    ) by {
        assert(run[i] == shorter[i] && run[i - 1] == shorter[i - 1]);
    }
}

/// A function has as many registers all along.
pub proof fn state_lengths(function: FunctionView, visit: Visit, k: int)
    requires
        well_formed(function),
        visits(function, visit),
        0 <= k < visit.states.len(),
    ensures
        visit.states[k].len() == function.names.len(),
    decreases k,
{
    if k > 0 {
        state_lengths(function, visit, k - 1);
        let block = function.blocks[visit.block];
        assert(steps(block.instrs[k - 1], visit.states[k - 1], visit.states[k - 1 + 1]));
        assert(block_within(block, function.names.len(), function.blocks.len()));
        assert(instr_within(block.instrs[k - 1], function.names.len()));
    }
}

/// A run that is followed is followed by one more visit.
proof fn longer_run(
    function: FunctionView,
    run: Seq<Visit>,
    after: FunctionView,
    before: Seq<Visit>,
    at_before: Seq<int>,
    other: Seq<Visit>,
    at: Seq<int>,
)
    requires
        run.len() > 1,
        run_kept(function, run.drop_last(), after, before, at_before),
        before.len() < other.len(),
        at == at_before.push(other.len() - 1),
        forall|k: int| 0 <= k < before.len() ==> #[trigger] other[k] == before[k],
        forall|k: int|
            before.len() <= k < other.len() - 1 ==> (#[trigger] other[k]).block
                >= function.blocks.len(),
        visit_kept(function, run.last(), after, other.last()),
    ensures
        run_kept(function, run, after, other, at),
{
    let n = run.len() - 1;
    let shorter = run.drop_last();
    assert(at_before[at_before.len() - 1] == before.len() - 1);
    assert forall|i: int, j: int| 0 <= i < j < at.len() implies #[trigger] at[i]
        < #[trigger] at[j] by {
        assert(at[i] == at_before[i]);
        assert(0 <= at_before[i] < before.len());
        if j < n {
            assert(at[j] == at_before[j]);
        }
    }
    assert forall|i: int| 0 <= i < run.len() implies 0 <= #[trigger] at[i] < other.len()
        && visit_kept(function, run[i], after, other[at[i]]) by {
        if i < n {
            assert(at[i] == at_before[i]);
            assert(0 <= at_before[i] < before.len());
            assert(visit_kept(function, shorter[i], after, before[at_before[i]]));
            assert(other[at[i]] == before[at[i]]);
        }
    }
    assert forall|k: int| 0 <= k < other.len() && !at.contains(k) implies (
    #[trigger] other[k]).block >= function.blocks.len() by {
        if k < before.len() {
            assert(other[k] == before[k]);
            if at_before.contains(k) {
                let i = choose|i: int| 0 <= i < at_before.len() && at_before[i] == k;
                assert(at[i] == k);
            }
            assert(before[k].block >= function.blocks.len());
        } else if k == other.len() - 1 {
            assert(at[n] == k);
        }
    }
}

// -- running copies ---------------------------------------------------------

/// What a register holds as a number, nothing being one past every word.
spec fn coded(word: Option<i64>) -> int {
    match word {
        Some(n) => n as int,
        None => i64::MAX + 1,
    }
}

spec fn all_coded(held: Held) -> Seq<int> {
    held.map_values(|word: Option<i64>| coded(word))
}

/// Whether the first `n` of a run of copies write a register.
spec fn copied_into(copies: Seq<InstrView>, n: int, reg: VReg) -> bool {
    exists|j: int| 0 <= j < n && #[trigger] copies[j].written() == Some(reg)
}

/// Whether what a copy reads has been written: before, or by a copy before it.
spec fn copy_is_ready(copies: Seq<InstrView>, k: int, held: Held) -> bool {
    match copies[k] {
        InstrView::Copy { dst, src } => {
            &&& dst.0 < held.len()
            &&& value_within(src, held.len())
            &&& match src {
                Value::Reg(reg) => held[reg.0 as int] is Some || copied_into(copies, k, reg),
                Value::Const(_) => true,
            }
        },
        _ => false,
    }
}

/// Copies whose sources are ready run, and do what copying does.
proof fn run_copies(copies: Seq<InstrView>, held: Held, n: int) -> (states: Seq<Held>)
    requires
        0 <= n <= copies.len(),
        held.len() <= u32::MAX,
        forall|k: int| 0 <= k < n ==> #[trigger] copy_is_ready(copies, k, held),
    ensures
        states.len() == n + 1,
        states[0] == held,
        forall|k: int| 0 <= k < n ==> #[trigger] steps(copies[k], states[k], states[k + 1]),
        states[n].len() == held.len(),
        all_coded(states[n]) == copied(copies, all_coded(held), n),
        forall|r: int|
            0 <= r < held.len() && (held[r] is Some || copied_into(copies, n, VReg(r as u32)))
                ==> #[trigger] states[n][r] is Some,
    decreases n,
{
    if n == 0 {
        seq![held]
    } else {
        let before = run_copies(copies, held, n - 1);
        let now = before[n - 1];
        assert(copy_is_ready(copies, n - 1, held));
        let (dst, src) = (copies[n - 1]->Copy_dst, copies[n - 1]->Copy_src);
        assert(copies[n - 1] == InstrView::Copy { dst, src });
        let word = held_by(src, now);
        assert(word is Some) by {
            if let Value::Reg(reg) = src {
                let r = reg.0 as int;
                assert(reg == VReg(r as u32));
                assert(now[r] is Some);
            }
        }
        let next = now.update(dst.0 as int, word);
        let states = before.push(next);
        assert(copies[n - 1].operands() =~= seq![src]);
        assert(all_written(copies[n - 1].operands(), now));
        assert(steps(copies[n - 1], now, next));
        assert(coded(word) == worth(src, all_coded(now)));
        assert(all_coded(next) =~= all_coded(now).update(dst.0 as int, coded(word)));
        assert forall|k: int| 0 <= k < n implies #[trigger] steps(
            copies[k],
            states[k],
            states[k + 1],
        ) by {
            if k < n - 1 {
                assert(states[k] == before[k] && states[k + 1] == before[k + 1]);
                assert(steps(copies[k], before[k], before[k + 1]));
            }
        }
        assert forall|r: int|
            0 <= r < held.len() && (held[r] is Some || copied_into(
                copies,
                n,
                VReg(r as u32),
            )) implies #[trigger] states[n][r] is Some by {
            if r != dst.0 {
                if !(held[r] is Some) {
                    let j = choose|j: int|
                        0 <= j < n && #[trigger] copies[j].written() == Some(VReg(r as u32));
                    assert(j < n - 1);
                    assert(copied_into(copies, n - 1, VReg(r as u32)));
                }
                assert(now[r] is Some);
            }
        }
        states
    }
}

/// Where the sources of what was put aside and of what is left come from.
proof fn sources_of(names: NamesView, parallel: Seq<Move>, n: int)
    requires
        0 <= n <= parallel.len(),
    ensures
        ({
            let all = saved_before(names, parallel, n);
            &&& all.writes.len() == n
            &&& forall|k: int|
                0 <= k < all.saves.len() ==> (#[trigger] all.saves[k]) is Copy && is_source(
                    parallel,
                    all.saves[k]->Copy_src,
                )
            &&& forall|i: int|
                0 <= i < n ==> #[trigger] all.writes[i].1 == parallel[i].1 || is_saved(
                    all.saves,
                    all.writes[i].1,
                )
        }),
    decreases n,
{
    if n > 0 {
        sources_of(names, parallel, n - 1);
        let before = saved_before(names, parallel, n - 1);
        let after = saved_before(names, parallel, n);
        let m = parallel[n - 1];
        if at_risk(parallel, m) {
            let k = before.saves.len() as int;
            assert(after.saves[k] == InstrView::Copy { dst: before.names.fresh(), src: m.1 });
            assert(is_source(parallel, m.1));
            assert(is_saved(after.saves, after.writes[n - 1].1)) by {
                assert(after.saves[k].written() == Some(before.names.fresh()));
            }
        }
        assert forall|i: int| 0 <= i < n implies #[trigger] after.writes[i].1 == parallel[i].1
            || is_saved(after.saves, after.writes[i].1) by {
            if i < n - 1 {
                assert(after.writes[i] == before.writes[i]);
                if before.writes[i].1 != parallel[i].1 {
                    let value = before.writes[i].1;
                    assert(is_saved(before.saves, value));
                    let j = choose|j: int|
                        0 <= j < before.saves.len() && value == Value::Reg(
                            #[trigger] before.saves[j]->Copy_dst,
                        ) && before.saves[j] is Copy;
                    assert(after.saves[j] == before.saves[j]);
                }
            }
        }
        assert forall|k: int| 0 <= k < after.saves.len() implies (#[trigger] after.saves[k]) is Copy
            && is_source(parallel, after.saves[k]->Copy_src) by {
            if k < before.saves.len() {
                assert(after.saves[k] == before.saves[k]);
            }
        }
    }
}

/// Whether a value is the source of one of a run of moves.
spec fn is_source(parallel: Seq<Move>, value: Value) -> bool {
    exists|i: int| 0 <= i < parallel.len() && (#[trigger] parallel[i]).1 == value
}

/// Whether a value was put aside.
spec fn is_saved(saves: Seq<InstrView>, value: Value) -> bool {
    exists|j: int|
        0 <= j < saves.len() && value == Value::Reg(#[trigger] saves[j]->Copy_dst)
            && saves[j] is Copy
}

/// Every copy that is written out is one of the moves.
proof fn written_out_are(writes: Seq<Move>, n: int, k: int)
    requires
        0 <= n <= writes.len(),
        0 <= k < written_out(writes, n).len(),
    ensures
        exists|i: int|
            0 <= i < n && written_out(writes, n)[k] == (InstrView::Copy {
                dst: (#[trigger] writes[i]).0,
                src: writes[i].1,
            }),
    decreases n,
{
    if n > 0 {
        let before = written_out(writes, n - 1);
        if k < before.len() {
            written_out_are(writes, n - 1, k);
            let i = choose|i: int|
                0 <= i < n - 1 && before[k] == (InstrView::Copy {
                    dst: (#[trigger] writes[i]).0,
                    src: writes[i].1,
                });
            assert(written_out(writes, n)[k] == before[k]);
        } else {
            assert(written_out(writes, n)[k] == InstrView::Copy {
                dst: writes[n - 1].0,
                src: writes[n - 1].1,
            });
        }
    }
}

/// A run of moves in sequence, where everything moved has been written.
proof fn run_sequenced(names: NamesView, parallel: Seq<Move>, held: Held) -> (states: Seq<Held>)
    requires
        moves_within(parallel, names.names.len()),
        writes_apart(parallel),
        sequenced(names, parallel).1.names.len() <= held.len() <= u32::MAX,
        forall|i: int|
            0 <= i < parallel.len() ==> held_by((#[trigger] parallel[i]).1, held) is Some,
    ensures
        ({
            let copies = sequenced(names, parallel).0;
            let n = copies.len() as int;
            &&& states.len() == n + 1
            &&& states[0] == held
            &&& forall|k: int| 0 <= k < n ==> #[trigger] steps(copies[k], states[k], states[k + 1])
            &&& states[n].len() == held.len()
            &&& forall|i: int|
                0 <= i < parallel.len() ==> states[n][(#[trigger] parallel[i]).0.0 as int]
                    == held_by(parallel[i].1, held)
            &&& forall|r: int|
                0 <= r < names.names.len() && !destinations(parallel).contains(VReg(r as u32))
                    ==> #[trigger] states[n][r] == held[r]
        }),
{
    let m = parallel.len() as int;
    let all = saved_before(names, parallel, m);
    let out = written_out(all.writes, m);
    let (copies, after) = sequenced(names, parallel);
    let n = copies.len() as int;
    saves_grow(names, parallel, 0, m);
    sources_of(names, parallel, m);
    saves_within(names, parallel, m);
    written_out_within(all.writes, m, after.names.len());
    assert(copies == all.saves + out);
    assert forall|k: int| 0 <= k < n implies #[trigger] copy_is_ready(copies, k, held) by {
        if k < all.saves.len() {
            assert(copies[k] == all.saves[k]);
            let src = all.saves[k]->Copy_src;
            assert(is_source(parallel, src));
            let i = choose|i: int| 0 <= i < parallel.len() && (#[trigger] parallel[i]).1 == src;
            assert(held_by(parallel[i].1, held) is Some);
            assert(instr_within(all.saves[k], after.names.len()));
            assert(all.saves[k].operands() =~= seq![src]);
            assert(value_within(all.saves[k].operands()[0], after.names.len()));
        } else {
            let at = k - all.saves.len();
            assert(copies[k] == out[at]);
            assert(instr_within(out[at], after.names.len()) && out[at] is Copy);
            written_out_are(all.writes, m, at);
            let i = choose|i: int|
                0 <= i < m && out[at] == (InstrView::Copy {
                    dst: (#[trigger] all.writes[i]).0,
                    src: all.writes[i].1,
                });
            let src = all.writes[i].1;
            assert(out[at].operands() =~= seq![src]);
            assert(value_within(out[at].operands()[0], after.names.len()));
            if src == parallel[i].1 {
                assert(held_by(parallel[i].1, held) is Some);
            } else {
                assert(is_saved(all.saves, src));
                let j = choose|j: int|
                    0 <= j < all.saves.len() && src == Value::Reg(
                        #[trigger] all.saves[j]->Copy_dst,
                    ) && all.saves[j] is Copy;
                assert(copies[j] == all.saves[j]);
                assert(copies[j].written() == Some(src->Reg_0));
                assert(copied_into(copies, k, src->Reg_0));
            }
        }
    }
    let states = run_copies(copies, held, n);
    sequencing_is_parallel(names, parallel, all_coded(held));
    let last = all_coded(states[n]);
    assert forall|i: int| 0 <= i < parallel.len() implies states[n][(
    #[trigger] parallel[i]).0.0 as int] == held_by(parallel[i].1, held) by {
        let r = parallel[i].0.0 as int;
        assert(r < names.names.len() && value_within(parallel[i].1, names.names.len()));
        assert(last[r] == worth(parallel[i].1, all_coded(held)));
        assert(last[r] == coded(states[n][r]));
        assert(worth(parallel[i].1, all_coded(held)) == coded(held_by(parallel[i].1, held)));
    }
    assert forall|r: int|
        0 <= r < names.names.len() && !destinations(parallel).contains(
            VReg(r as u32),
        ) implies #[trigger] states[n][r] == held[r] by {
        assert(last[r] == all_coded(held)[r]);
        assert(last[r] == coded(states[n][r]));
    }
    states
}

// -- running what is left ---------------------------------------------------

/// Whether no block takes two parameters in the same register.
pub open spec fn params_differ(blocks: Seq<BlockView>) -> bool {
    forall|b: int, i: int, j: int|
        #![trigger blocks[b].params[i], blocks[b].params[j]]
        0 <= b < blocks.len() && 0 <= i < j < blocks[b].params.len() ==> blocks[b].params[i]
            != blocks[b].params[j]
}

/// What each block becomes.
proof fn bared_block(blocks: Seq<BlockView>, names: NamesView, n: int, b: int)
    requires
        0 <= b < n,
    ensures
        bared(blocks, names, n).0.len() == n,
        bared(blocks, names, n).0[b] == bare_block(
            blocks[b],
            sequenced(bared(blocks, names, b).1, moves_of(blocks, b)).0,
        ),
    decreases n,
{
    bared_length(blocks, names, n);
    bared_length(blocks, names, n - 1);
    if b < n - 1 {
        bared_block(blocks, names, n - 1, b);
    }
}

/// More registers change nothing an instruction does.
#[verifier::spinoff_prover]
proof fn step_extends(instr: InstrView, held: Held, next: Held, more: Held) -> (more_next: Held)
    requires
        instr_within(instr, held.len()),
        extends(held, more),
        steps(instr, held, next),
    ensures
        steps(instr, more, more_next),
        extends(next, more_next),
        more_next.len() == more.len(),
{
    let operands = instr.operands();
    assert forall|i: int| 0 <= i < operands.len() implies held_by(#[trigger] operands[i], more)
        == held_by(operands[i], held) by {
        assert(value_within(operands[i], held.len()));
    }
    assert(all_written(operands, more)) by {
        assert forall|i: int| 0 <= i < operands.len() implies held_by(
            #[trigger] operands[i],
            more,
        ) is Some by {
            assert(held_by(operands[i], held) is Some);
        }
    }
    match instr.written() {
        Some(dst) => {
            let word = next[dst.0 as int];
            let more_next = more.update(dst.0 as int, word);
            assert(may_write(instr, more, word->0)) by {
                match instr {
                    InstrView::Copy { src, .. } => {
                        assert(held_by(operands[0], more) == held_by(operands[0], held));
                    },
                    InstrView::Bin { lhs, rhs, .. } => {
                        assert(held_by(operands[0], more) == held_by(operands[0], held));
                        assert(held_by(operands[1], more) == held_by(operands[1], held));
                    },
                    InstrView::Cmp { lhs, rhs, .. } => {
                        assert(held_by(operands[0], more) == held_by(operands[0], held));
                        assert(held_by(operands[1], more) == held_by(operands[1], held));
                    },
                    InstrView::Elem { .. } => {
                        assert(held_by(operands[1], more) == held_by(operands[1], held));
                        assert(held_by(operands[2], more) == held_by(operands[2], held));
                    },
                    _ => {},
                }
            }
            more_next
        },
        None => more,
    }
}

/// The first `n` steps of a visit, with more registers.
proof fn steps_extend(function: FunctionView, visit: Visit, more: Held, n: int) -> (states: Seq<Held>)
    requires
        well_formed(function),
        goes_through(function, visit, n),
        extends(visit.states[0], more),
    ensures
        states.len() == n + 1,
        states[0] == more,
        forall|k: int|
            0 <= k < n ==> #[trigger] steps(
                function.blocks[visit.block].instrs[k],
                states[k],
                states[k + 1],
            ),
        forall|k: int| 0 <= k <= n ==> extends(#[trigger] visit.states[k], states[k]),
        states[n].len() == more.len(),
    decreases n,
{
    if n == 0 {
        seq![more]
    } else {
        let block = function.blocks[visit.block];
        let before = steps_extend(function, visit, more, n - 1);
        assert(steps(block.instrs[n - 1], visit.states[n - 1], visit.states[n - 1 + 1]));
        assert(block_within(block, function.names.len(), function.blocks.len()));
        assert(instr_within(block.instrs[n - 1], function.names.len()));
        lengths_kept(function, visit, n - 1);
        assert(extends(visit.states[n - 1], before[n - 1]));
        let next = step_extends(
            block.instrs[n - 1],
            visit.states[n - 1],
            visit.states[n],
            before[n - 1],
        );
        let states = before.push(next);
        assert forall|k: int| 0 <= k < n implies #[trigger] steps(
            block.instrs[k],
            states[k],
            states[k + 1],
        ) by {
            if k < n - 1 {
                assert(states[k] == before[k] && states[k + 1] == before[k + 1]);
                assert(steps(block.instrs[k], before[k], before[k + 1]));
            }
        }
        assert forall|k: int| 0 <= k <= n implies extends(
            #[trigger] visit.states[k],
            states[k],
        ) by {
            if k < n {
                assert(states[k] == before[k]);
            }
        }
        states
    }
}

/// What holds of a function whose edges are split.
pub open spec fn edges_are_split(function: FunctionView) -> bool {
    &&& well_formed(function)
    &&& splits_well(function.blocks, function.names.len())
    &&& params_differ(function.blocks)
    &&& forall|b: int| 0 <= b < function.blocks.len() ==> settles(#[trigger] function.blocks[b])
}

/// A function without parameters and arguments, once its edges are split.
pub open spec fn without_arguments(function: FunctionView) -> FunctionView {
    let (done, names) = bared(
        function.blocks,
        NamesView::of(function.names),
        function.blocks.len() as int,
    );
    FunctionView { blocks: done, names: names.names, ..function }
}

/// Whether what a run hands on behind its last visit has been written.
pub open spec fn can_go_on(function: FunctionView, run: Seq<Visit>) -> bool {
    match function.blocks[run.last().block].term {
        TermView::Jump(target) => all_written(target.args, run.last().states.last()),
        _ => true,
    }
}

/// A visit to a block that copies what its edge handed on.
proof fn bare_visit(
    function: FunctionView,
    visit: Visit,
    more: Held,
) -> (other: Visit)
    requires
        edges_are_split(function),
        without_arguments(function).names.len() <= u32::MAX,
        visits(function, visit),
        extends(visit.states[0], more),
        more.len() == without_arguments(function).names.len(),
        function.blocks[visit.block].term matches TermView::Jump(target) ==> all_written(
            target.args,
            visit.states.last(),
        ),
    ensures
        visits(without_arguments(function), other),
        other.states[0] == more,
        visit_kept(function, visit, without_arguments(function), other),
        other.states.last().len() == more.len(),
        match function.blocks[visit.block].term {
            TermView::Jump(target) => extends(
                handed_over(
                    function.blocks[target.block.0 as int].params,
                    target.args,
                    visit.states.last(),
                    function.blocks[target.block.0 as int].params.len() as int,
                ),
                other.states.last(),
            ),
            _ => extends(visit.states.last(), other.states.last()),
        },
{
    let blocks = function.blocks;
    let b = visit.block;
    let block = blocks[b];
    let names = NamesView::of(function.names);
    let after = without_arguments(function);
    let count = blocks.len() as int;
    let at = bared(blocks, names, b).1;
    let moves = moves_of(blocks, b);
    let (copies, then) = sequenced(at, moves);
    bared_block(blocks, names, count, b);
    bared_grows(blocks, names, b, b + 1);
    bared_grows(blocks, names, b + 1, count);
    bared_grows(blocks, names, 0, b);
    assert(after.blocks[b] == bare_block(block, copies));
    let n = block.instrs.len() as int;
    let first = steps_extend(function, visit, more, n);
    let held = visit.states.last();
    assert(visit.states[n] == held);
    assert(extends(held, first[n]));
    state_lengths(function, visit, n);
    moves_are_within(blocks, b, function.names.len(), at.names.len());
    assert(block_within(block, function.names.len(), blocks.len()));
    assert forall|i: int| 0 <= i < moves.len() implies held_by(
        (#[trigger] moves[i]).1,
        first[n],
    ) is Some && held_by(moves[i].1, first[n]) == held_by(moves[i].1, held) by {
        if let TermView::Jump(target) = block.term {
            assert(moves[i].1 == target.args[i]);
            assert(held_by(target.args[i], held) is Some);
            assert(block.term.operands()[i] == target.args[i]);
            assert(value_within(block.term.operands()[i], function.names.len()));
        }
    }
    assert(writes_apart(moves)) by {
        if let TermView::Jump(target) = block.term {
            let to = target.block.0 as int;
            assert(block.term.targets()[0] == target);
            assert forall|i: int, j: int| 0 <= i < j < moves.len() implies (
            #[trigger] moves[i]).0 != (#[trigger] moves[j]).0 by {
                assert(blocks[to].params[i] != blocks[to].params[j]);
            }
        }
    }
    let second = run_sequenced(at, moves, first[n]);
    let m = copies.len() as int;
    let states = first + second.drop_first();
    let other = Visit { block: b, states };
    assert(states.len() == n + m + 1);
    assert(states.last() == second[m]) by {
        if m == 0 {
            assert(second[0] == first[n]);
        } else {
            assert(states[n + m] == second[m]);
        }
    }
    assert forall|k: int| 0 <= k < n + m implies #[trigger] steps(
        after.blocks[b].instrs[k],
        states[k],
        states[k + 1],
    ) by {
        if k < n {
            assert(after.blocks[b].instrs[k] == block.instrs[k]);
            assert(steps(block.instrs[k], first[k], first[k + 1]));
            assert(states[k] == first[k] && states[k + 1] == first[k + 1]);
        } else {
            let j = k - n;
            assert(after.blocks[b].instrs[k] == copies[j]);
            assert(steps(copies[j], second[j], second[j + 1]));
            assert(states[k + 1] == second[j + 1]);
            if j == 0 {
                assert(states[k] == first[n]);
            } else {
                assert(states[k] == second[j]);
            }
        }
    }
    assert(walks(after.blocks[b].instrs, states, n + m));
    assert(visits(after, other));
    match block.term {
        TermView::Jump(target) => {
            let to = target.block.0 as int;
            let params = blocks[to].params;
            assert(block.term.targets()[0] == target);
            assert(to < blocks.len());
            assert(target.args.len() == params.len()) by {
                assert(blocks[b].term.targets()[0].args.len()
                    == blocks[blocks[b].term.targets()[0].block.0 as int].params.len());
            }
            assert(block_within(blocks[to], function.names.len(), blocks.len()));
            assert forall|i: int| 0 <= i < params.len() implies (#[trigger] params[i]).0
                < held.len() by {
                assert(blocks[to].params[i].0 < function.names.len());
            }
            assert forall|i: int, j: int| 0 <= i < j < params.len() implies (
            #[trigger] params[i]).0 != (#[trigger] params[j]).0 by {
                assert(blocks[to].params[i] != blocks[to].params[j]);
            }
            handed_params(params, target.args, held, params.len() as int);
            let handed = handed_over(params, target.args, held, params.len() as int);
            assert forall|r: int| 0 <= r < handed.len() implies #[trigger] states.last()[r]
                == handed[r] by {
                let reg = VReg(r as u32);
                if destinations(moves).contains(reg) {
                    let i = choose|i: int|
                        0 <= i < destinations(moves).len() && destinations(moves)[i] == reg;
                    assert(moves[i].0 == reg && params[i] == reg);
                    assert(second[m][moves[i].0.0 as int] == held_by(moves[i].1, first[n]));
                    assert(handed[params[i].0 as int] == held_by(target.args[i], held));
                } else {
                    assert(second[m][r] == first[n][r]);
                    assert forall|i: int| 0 <= i < params.len() implies (
                    #[trigger] params[i]).0 != r by {
                        assert(destinations(moves)[i] == params[i]);
                        if params[i].0 == r {
                            assert(destinations(moves)[i] == reg);
                        }
                    }
                    assert(handed[r] == held[r]);
                }
            }
        },
        _ => {
            assert(moves.len() == 0);
            assert(copies.len() == 0);
        },
    }
    assert(answers(after.blocks[b].term, states.last()) == answers(block.term, held)) by {
        if let TermView::Return(Some(value)) = block.term {
            assert(block.term.operands()[0] == value);
            assert(value_within(block.term.operands()[0], function.names.len()));
        }
    }
    assert forall|k: int| 0 <= k <= n implies extends(
        #[trigger] visit.states[k],
        states[k],
    ) by {
        assert(states[k] == first[k]);
    }
    other
}

/// A function without parameters and arguments goes where it went.
proof fn bare_edge(
    function: FunctionView,
    b: int,
    leaving: Held,
    c: int,
    entering: Held,
    more: Held,
)
    requires
        edges_are_split(function),
        without_arguments(function).names.len() <= u32::MAX,
        0 <= b < function.blocks.len(),
        0 <= c < function.blocks.len(),
        leaving.len() == function.names.len(),
        goes(function.blocks, b, leaving, c, entering),
        function.blocks[b].term is Jump ==> extends(entering, more),
        !(function.blocks[b].term is Jump) ==> extends(leaving, more),
    ensures
        goes(without_arguments(function).blocks, b, more, c, more),
        extends(entering, more),
{
    let blocks = function.blocks;
    let names = NamesView::of(function.names);
    let after = without_arguments(function);
    let count = blocks.len() as int;
    let block = blocks[b];
    bared_block(blocks, names, count, b);
    bared_block(blocks, names, count, c);
    let target = goes_to(block.term, leaving)->0;
    let term = after.blocks[b].term;
    assert(term == bare_term(block.term));
    assert(block_within(block, function.names.len(), blocks.len()));
    assert(settles(block));
    match block.term {
        TermView::Jump(to) => {
            assert(block.term.targets()[0] == to);
            assert(goes_to(term, more) == Some(TargetView::plain(to.block)));
        },
        TermView::Branch { cond, then_blk, else_blk } => {
            assert(block.term.targets()[0] == then_blk && block.term.targets()[1] == else_blk);
            assert(block.term.operands()[0] == cond);
            assert(value_within(block.term.operands()[0], function.names.len()));
            assert(goes_to(term, more) == Some(TargetView::plain(target.block)));
            assert(target_args_empty(block));
            assert(target.args.len() == 0);
            assert(blocks[c].params.len() == 0) by {
                assert(blocks[b].term.targets()[0].args.len()
                    == blocks[blocks[b].term.targets()[0].block.0 as int].params.len());
                assert(blocks[b].term.targets()[1].args.len()
                    == blocks[blocks[b].term.targets()[1].block.0 as int].params.len());
            }
            assert(entering == leaving);
        },
        TermView::Return(_) => {},
    }
    assert(after.blocks[c].params.len() == 0);
}

/// A run of a function whose edges are split is followed by one of the function
/// without parameters and arguments.
proof fn through_baring(function: FunctionView, run: Seq<Visit>) -> (other: Seq<Visit>)
    requires
        edges_are_split(function),
        without_arguments(function).names.len() <= u32::MAX,
        is_execution(function, run),
        can_go_on(function, run),
    ensures
        is_execution(without_arguments(function), other),
        other.len() == run.len(),
        forall|i: int|
            0 <= i < run.len() ==> visit_kept(
                function,
                #[trigger] run[i],
                without_arguments(function),
                other[i],
            ),
        other.last().states.last().len() == without_arguments(function).names.len(),
        match function.blocks[run.last().block].term {
            TermView::Jump(target) => extends(
                handed_over(
                    function.blocks[target.block.0 as int].params,
                    target.args,
                    run.last().states.last(),
                    function.blocks[target.block.0 as int].params.len() as int,
                ),
                other.last().states.last(),
            ),
            _ => extends(run.last().states.last(), other.last().states.last()),
        },
    decreases run.len(),
{
    let after = without_arguments(function);
    let names = NamesView::of(function.names);
    bared_length(function.blocks, names, function.blocks.len() as int);
    bared_grows(function.blocks, names, 0, function.blocks.len() as int);
    assert(visits(function, run[run.len() - 1]));
    if run.len() == 1 {
        let one = bare_visit(function, run[0], nothing_held(after.names.len()));
        seq![one]
    } else {
        let n = run.len() - 1;
        let shorter = run.drop_last();
        shorter_execution(function, run);
        let from = run[n - 1];
        assert(visits(function, run[n - 1]));
        assert(shorter.last() == from);
        assert(goes(
            function.blocks,
            run[n - 1].block,
            run[n - 1].states.last(),
            run[n].block,
            run[n].states[0],
        ));
        let before = through_baring(function, shorter);
        let more = before.last().states.last();
        state_lengths(function, from, from.states.len() - 1);
        bare_edge(
            function,
            from.block,
            from.states.last(),
            run[n].block,
            run[n].states[0],
            more,
        );
        let one = bare_visit(function, run[n], more);
        let other = before.push(one);
        assert forall|i: int| 0 <= i < run.len() implies visit_kept(
            function,
            #[trigger] run[i],
            after,
            other[i],
        ) by {
            if i < n {
                assert(shorter[i] == run[i] && other[i] == before[i]);
            }
        }
        assert forall|i: int| 0 <= i < other.len() implies visits(after, #[trigger] other[i]) by {
            if i < n {
                assert(other[i] == before[i]);
            }
        }
        assert forall|i: int|
            #![trigger other[i]]
            0 < i < other.len() implies goes(
            after.blocks,
            other[i - 1].block,
            other[i - 1].states.last(),
            other[i].block,
            other[i].states[0],
        ) by {
            if i < n {
                assert(other[i] == before[i] && other[i - 1] == before[i - 1]);
            } else {
                assert(other[i - 1] == before.last());
                assert(visit_kept(function, shorter[n - 1], after, before[n - 1]));
            }
        }
        assert(other[0] == before[0]);
        other
    }
}

/// Splitting leaves what can be taken out of SSA form block by block.
proof fn edges_get_split(function: FunctionView)
    requires
        destructible(function),
        params_differ(function.blocks),
    ensures
        edges_are_split(with_split_edges(function)),
        destructed(function) == without_arguments(with_split_edges(function)),
        split(function.blocks).len() == destructed(function).blocks.len(),
        split(function.blocks).len() >= function.blocks.len(),
{
    let blocks = function.blocks;
    let names = NamesView::of(function.names);
    let count = blocks.len() as int;
    let middle = with_split_edges(function);
    bared_length(middle.blocks, names, middle.blocks.len() as int);
    split_grows(blocks, 0, count);
    assert(splits_well(blocks, function.names.len()));
    split_well(blocks, count, function.names.len());
    assert forall|b: int, i: int, j: int|
        #![trigger middle.blocks[b].params[i], middle.blocks[b].params[j]]
        0 <= b < middle.blocks.len() && 0 <= i < j
            < middle.blocks[b].params.len() implies middle.blocks[b].params[i]
        != middle.blocks[b].params[j] by {
        if b < blocks.len() {
            split_block(blocks, b);
            assert(blocks[b].params[i] != blocks[b].params[j]);
        } else {
            added_take_nothing(blocks, count, b);
        }
    }
    assert(split_before(blocks, count) == middle.blocks);
    assert forall|b: int| 0 <= b < middle.blocks.len() implies settles(
        #[trigger] middle.blocks[b],
    ) by {
        assert(settles(split_before(blocks, count)[b]));
    }
    assert forall|b: int| 0 <= b < middle.blocks.len() implies block_within(
        #[trigger] middle.blocks[b],
        function.names.len(),
        middle.blocks.len(),
    ) && middle.blocks[b].index == b by {
        assert(block_within(
            split_before(blocks, count)[b],
            function.names.len(),
            split_before(blocks, count).len(),
        ));
    }
}

/// What follows a run through both steps follows it through the two together,
/// and does the same.
proof fn kept_through(
    function: FunctionView,
    run: Seq<Visit>,
    between: Seq<Visit>,
    at: Seq<int>,
    other: Seq<Visit>,
)
    requires
        destructible(function),
        params_differ(function.blocks),
        is_execution(function, run),
        is_execution(destructed(function), other),
        at.len() == run.len(),
        other.len() == between.len(),
        forall|i: int, j: int| 0 <= i < j < at.len() ==> #[trigger] at[i] < #[trigger] at[j],
        forall|i: int|
            0 <= i < run.len() ==> 0 <= #[trigger] at[i] < between.len() && visit_kept(
                function,
                run[i],
                with_split_edges(function),
                between[at[i]],
            ),
        forall|k: int|
            0 <= k < between.len() && !at.contains(k) ==> (#[trigger] between[k]).block
                >= function.blocks.len(),
        forall|k: int|
            0 <= k < between.len() ==> visit_kept(
                with_split_edges(function),
                #[trigger] between[k],
                destructed(function),
                other[k],
            ),
    ensures
        forall|i: int|
            0 <= i < run.len() ==> 0 <= #[trigger] at[i] < other.len() && visit_kept(
                function,
                run[i],
                destructed(function),
                other[at[i]],
            ),
        forall|k: int|
            0 <= k < other.len() && !at.contains(k) ==> (#[trigger] other[k]).block
                >= function.blocks.len(),
        run_deeds(destructed(function), other) == run_deeds(function, run),
{
    let blocks = function.blocks;
    let middle = with_split_edges(function);
    let after = destructed(function);
    edges_get_split(function);
    assert forall|i: int| 0 <= i < run.len() implies 0 <= #[trigger] at[i] < other.len()
        && visit_kept(function, run[i], after, other[at[i]]) by {
        let v = run[i];
        let w = between[at[i]];
        assert(visit_kept(function, v, middle, w));
        assert(visit_kept(middle, w, after, other[at[i]]));
        assert(visits(function, run[i]));
        split_block(blocks, v.block);
        let n = blocks[v.block].instrs.len() as int;
        assert(v.states.len() == n + 1 && w.states.len() == n + 1);
        assert forall|k: int| 0 <= k <= n implies extends(
            #[trigger] v.states[k],
            other[at[i]].states[k],
        ) by {
            assert(extends(v.states[k], w.states[k]));
            assert(extends(w.states[k], other[at[i]].states[k]));
        }
        assert forall|k: int| 0 <= k < n implies #[trigger] after.blocks[v.block].instrs[k]
            == blocks[v.block].instrs[k] by {
            assert(middle.blocks[v.block].instrs[k] == blocks[v.block].instrs[k]);
        }
    }
    assert forall|k: int| 0 <= k < other.len() && !at.contains(k) implies (
    #[trigger] other[k]).block >= blocks.len() by {
        assert(between[k].block >= blocks.len());
        assert(visit_kept(middle, between[k], after, other[k]));
    }
    assert forall|i: int| 0 <= i < run.len() implies 0 <= #[trigger] at[i] < other.len()
        && visit_deeds(after, other[at[i]]) == visit_deeds(function, run[i]) by {
        assert(visits(function, run[i]));
        kept_visit_deeds(function, run[i], other[at[i]]);
    }
    assert forall|k: int| 0 <= k < other.len() && !at.contains(k) implies visit_deeds(
        after,
        #[trigger] other[k],
    ) == Seq::<Deed>::empty() by {
        assert(visits(after, other[k]));
        edge_visit_deeds(function, other[k]);
    }
    kept_deeds(function, run, after, other, at, other.len() as int, run.len() as int);
    assert(run.take(run.len() as int) =~= run && other.take(other.len() as int) =~= other);
}

/// **Leaving SSA form changes nothing a function does.** Every run of a function
/// in SSA form is followed by a run of what it becomes: visit for visit, through
/// the same instructions with every register holding the same, and with nothing
/// in between but blocks that stand on an edge. What is done from outside is the
/// same.
pub proof fn destruction_keeps_what_is_done(function: FunctionView, run: Seq<Visit>) -> (found: (
    Seq<Visit>,
    Seq<int>,
))
    requires
        destructible(function),
        params_differ(function.blocks),
        is_execution(function, run),
        can_go_on(function, run),
    ensures
        is_execution(destructed(function), found.0),
        run_kept(function, run, destructed(function), found.0, found.1),
        does_as(function, run, destructed(function), found.0),
        run_deeds(destructed(function), found.0) == run_deeds(function, run),
{
    let blocks = function.blocks;
    let names = NamesView::of(function.names);
    let middle = with_split_edges(function);
    let after = destructed(function);
    edges_get_split(function);
    let (between, at) = through_split(function, run);
    assert(visits(function, run[run.len() - 1]));
    split_block(blocks, run.last().block);
    let other = through_baring(middle, between);
    kept_through(function, run, between, at, other);
    asks_the_same(run_deeds(function, run));
    if run_answer(function, run) is Some {
        let last = run.last().block;
        let n = blocks[last].instrs.len() as int;
        let term = blocks[last].term;
        let i = run.len() - 1;
        assert(0 <= at[i] < other.len() && visit_kept(function, run[i], after, other[at[i]]));
        bared_block(middle.blocks, names, middle.blocks.len() as int, last);
        assert(after.blocks[last].term == bare_term(term));
        assert(bare_term(term) == term);
        assert(term.head().len() > 0 ==> answers(term, run.last().states.last()) == held_by(
            term.head()[0],
            run.last().states.last(),
        ));
        assert(all_written(term.head(), other.last().states.last()));
    }
    (other, at)
}

/// **Leaving SSA form changes nothing about where a function stops.** Where a
/// function stops at an operation that has no answer, what it becomes stops at it
/// too, having done the same.
pub proof fn destruction_keeps_where_it_stops(
    function: FunctionView,
    run: Seq<Visit>,
    last: Visit,
) -> (other: (Seq<Visit>, Visit))
    requires
        destructible(function),
        params_differ(function.blocks),
        halts(function, run, last),
    ensures
        stops_as(function, (run, last), destructed(function), other),
        done_before(destructed(function), other.0, other.1) == done_before(function, run, last),
{
    let blocks = function.blocks;
    let names = NamesView::of(function.names);
    let middle = with_split_edges(function);
    let after = destructed(function);
    let b = last.block;
    let instrs = blocks[b].instrs;
    let k = last.states.len() - 1;
    edges_get_split(function);
    split_block(blocks, b);
    bared_grows(middle.blocks, names, 0, middle.blocks.len() as int);
    bared_block(middle.blocks, names, middle.blocks.len() as int, b);
    let found: (Seq<Visit>, Held) = if run.len() == 0 {
        assert(run_deeds(after, run) =~= run_deeds(function, run));
        (run, nothing_held(after.names.len()))
    } else {
        let n = run.len() - 1;
        assert(visits(function, run[n]));
        state_lengths(function, run[n], run[n].states.len() - 1);
        let (before, at) = through_split(function, run);
        let through = split_edge(
            function,
            run[n].block,
            run[n].states.last(),
            b,
            last.states[0],
        );
        let between = match through {
            None => before,
            Some(visit) => before.push(visit),
        };
        assert(is_execution(middle, between)) by {
            assert forall|i: int| 0 <= i < between.len() implies visits(
                middle,
                #[trigger] between[i],
            ) by {
                if i < before.len() {
                    assert(between[i] == before[i]);
                }
            }
            assert forall|i: int|
                #![trigger between[i]]
                0 < i < between.len() implies goes(
                middle.blocks,
                between[i - 1].block,
                between[i - 1].states.last(),
                between[i].block,
                between[i].states[0],
            ) by {
                assert(between[i - 1] == before[i - 1]);
                if i < before.len() {
                    assert(between[i] == before[i]);
                }
            }
            assert(between[0] == before[0]);
        }
        let from = between.last();
        assert(visits(middle, between[between.len() - 1]));
        assert(goes(middle.blocks, from.block, from.states.last(), b, last.states[0]));
        assert(can_go_on(middle, between));
        let other = through_baring(middle, between);
        let more = other.last().states.last();
        state_lengths(middle, from, from.states.len() - 1);
        bare_edge(middle, from.block, from.states.last(), b, last.states[0], more);
        assert(visit_kept(middle, between[between.len() - 1], after, other[between.len() - 1]));
        assert forall|i: int| 0 <= i < run.len() implies 0 <= #[trigger] at[i] < between.len()
            && visit_kept(function, run[i], middle, between[at[i]]) by {
            assert(between[at[i]] == before[at[i]]);
        }
        assert forall|j: int| 0 <= j < between.len() && !at.contains(j) implies (
        #[trigger] between[j]).block >= blocks.len() by {
            if j < before.len() {
                assert(between[j] == before[j]);
            }
        }
        kept_through(function, run, between, at, other);
        (other, more)
    };
    let (other, more) = found;
    assert(extends(last.states[0], more));
    let states = steps_extend(function, last, more, k);
    let one = Visit { block: b, states };
    let now = after.blocks[b].instrs;
    assert forall|j: int| 0 <= j <= k implies #[trigger] now[j] == instrs[j] by {}
    assert forall|j: int| 0 <= j < k implies #[trigger] steps(now[j], states[j], states[j + 1]) by {
        assert(now[j] == instrs[j]);
        assert(steps(instrs[j], states[j], states[j + 1]));
    }
    assert forall|j: int| 0 <= j < k implies is_deed(#[trigger] now[j]) == is_deed(instrs[j]) && (
    is_deed(instrs[j]) ==> deed(now[j], states[j], states[j + 1]) == deed(
        instrs[j],
        last.states[j],
        last.states[j + 1],
    )) by {
        assert(now[j] == instrs[j]);
        lengths_kept(function, last, j);
        lengths_kept(function, last, j + 1);
        assert(extends(last.states[j], states[j]));
        assert(extends(last.states[j + 1], states[j + 1]));
        extended_deed(function, b, j, last.states[j], last.states[j + 1], states[j], states[j + 1]);
    }
    same_deeds(instrs, last.states, now, states, k);
    // What it reads where it stops is worth the same.
    lengths_kept(function, last, k);
    assert(extends(last.states[k], states[k]));
    let operands = instrs[k].operands();
    assert(block_within(blocks[b], function.names.len(), blocks.len()));
    assert(instr_within(instrs[k], function.names.len()));
    assert forall|i: int| 0 <= i < operands.len() implies held_by(
        #[trigger] operands[i],
        states[k],
    ) == held_by(operands[i], last.states[k]) by {
        assert(value_within(operands[i], function.names.len()));
    }
    stuck_again(instrs[k], last.states[k], states[k]);
    asks_the_same(done_before(function, run, last));
    (other, one)
}

/// More registers change nothing an instruction does.
proof fn extended_deed(
    function: FunctionView,
    b: int,
    k: int,
    held: Held,
    next: Held,
    more: Held,
    more_next: Held,
)
    requires
        well_formed(function),
        0 <= b < function.blocks.len(),
        0 <= k < function.blocks[b].instrs.len(),
        held.len() == function.names.len(),
        next.len() == function.names.len(),
        extends(held, more),
        extends(next, more_next),
    ensures
        deed(function.blocks[b].instrs[k], more, more_next) == deed(
            function.blocks[b].instrs[k],
            held,
            next,
        ),
{
    let instr = function.blocks[b].instrs[k];
    let operands = instr.operands();
    assert(block_within(function.blocks[b], function.names.len(), function.blocks.len()));
    assert(instr_within(instr, function.names.len()));
    assert forall|i: int| 0 <= i < operands.len() implies #[trigger] words(operands, more)[i]
        == words(operands, held)[i] by {
        assert(value_within(operands[i], function.names.len()));
    }
    assert(words(operands, more) =~= words(operands, held));
}

/// What stands at the end of a block out of SSA form, behind what was there, and
/// what stands on an edge.
pub proof fn only_copies_added(function: FunctionView, b: int, k: int)
    requires
        destructed(function).blocks.len() <= u32::MAX,
        0 <= b < destructed(function).blocks.len(),
        0 <= k < destructed(function).blocks[b].instrs.len(),
        b < function.blocks.len() ==> k >= function.blocks[b].instrs.len(),
    ensures
        destructed(function).blocks[b].instrs[k] is Copy,
{
    let blocks = function.blocks;
    let names = NamesView::of(function.names);
    let middle = split(blocks);
    bared_length(middle, names, middle.len() as int);
    bared_block(middle, names, middle.len() as int, b);
    if b < blocks.len() {
        split_block(blocks, b);
    } else {
        added_take_nothing(blocks, blocks.len() as int, b);
    }
    let at = bared(middle, names, b).1;
    let moves = moves_of(middle, b);
    let all = saved_before(at, moves, moves.len() as int);
    let j = k - middle[b].instrs.len();
    assert(destructed(function).blocks[b].instrs[k] == sequenced(at, moves).0[j]);
    if j < all.saves.len() {
        saves_are_copies(at, moves, moves.len() as int, j);
    } else {
        written_out_are(all.writes, all.writes.len() as int, j - all.saves.len());
    }
}

/// What a block did stays where it was.
pub proof fn was_there(function: FunctionView, b: int, k: int)
    requires
        destructed(function).blocks.len() <= u32::MAX,
        0 <= b < function.blocks.len(),
        0 <= k < function.blocks[b].instrs.len(),
        b < destructed(function).blocks.len(),
    ensures
        k < destructed(function).blocks[b].instrs.len(),
        destructed(function).blocks[b].instrs[k] == function.blocks[b].instrs[k],
{
    let names = NamesView::of(function.names);
    let middle = split(function.blocks);
    bared_length(middle, names, middle.len() as int);
    bared_block(middle, names, middle.len() as int, b);
    split_block(function.blocks, b);
}

proof fn saves_are_copies(names: NamesView, parallel: Seq<Move>, n: int, k: int)
    requires
        0 <= n <= parallel.len(),
        0 <= k < saved_before(names, parallel, n).saves.len(),
    ensures
        saved_before(names, parallel, n).saves[k] is Copy,
    decreases n,
{
    if n > 0 && k < saved_before(names, parallel, n - 1).saves.len() {
        saves_are_copies(names, parallel, n - 1, k);
    }
}

/// Instructions that do nothing but write registers add nothing to what is done.
proof fn quiet_tail(instrs: Seq<InstrView>, states: Seq<Held>, n: int, m: int)
    requires
        0 <= n <= m <= instrs.len(),
        forall|k: int| n <= k < m ==> !is_deed(#[trigger] instrs[k]),
    ensures
        deeds(instrs, states, m) == deeds(instrs, states, n),
    decreases m - n,
{
    if n < m {
        quiet_tail(instrs, states, n, m - 1);
        assert(!is_deed(instrs[m - 1]));
    }
}

/// What a visit to a block out of SSA form does.
proof fn kept_visit_deeds(function: FunctionView, visit: Visit, other: Visit)
    requires
        well_formed(function),
        destructed(function).blocks.len() <= u32::MAX,
        visits(function, visit),
        visit_kept(function, visit, destructed(function), other),
    ensures
        visit_deeds(destructed(function), other) == visit_deeds(function, visit),
{
    let after = destructed(function);
    let b = visit.block;
    let instrs = function.blocks[b].instrs;
    let now = after.blocks[b].instrs;
    let n = instrs.len() as int;
    let blocks = function.blocks;
    bared_length(split(blocks), NamesView::of(function.names), split(blocks).len() as int);
    split_grows(blocks, 0, blocks.len() as int);
    assert forall|k: int| n <= k < now.len() implies !is_deed(#[trigger] now[k]) by {
        only_copies_added(function, b, k);
    }
    quiet_tail(now, other.states, n, now.len() as int);
    assert forall|k: int| 0 <= k < n implies is_deed(#[trigger] now[k]) == is_deed(instrs[k]) && (
    is_deed(instrs[k]) ==> deed(now[k], other.states[k], other.states[k + 1]) == deed(
        instrs[k],
        visit.states[k],
        visit.states[k + 1],
    )) by {
        state_lengths(function, visit, k);
        state_lengths(function, visit, k + 1);
        assert(extends(visit.states[k], other.states[k]));
        assert(extends(visit.states[k + 1], other.states[k + 1]));
        extended_deed(
            function,
            b,
            k,
            visit.states[k],
            visit.states[k + 1],
            other.states[k],
            other.states[k + 1],
        );
    }
    same_deeds(instrs, visit.states, now, other.states, n);
}

/// A visit to a block that stands on an edge does nothing.
proof fn edge_visit_deeds(function: FunctionView, visit: Visit)
    requires
        destructed(function).blocks.len() <= u32::MAX,
        visits(destructed(function), visit),
        visit.block >= function.blocks.len(),
    ensures
        visit_deeds(destructed(function), visit) == Seq::<Deed>::empty(),
{
    let now = destructed(function).blocks[visit.block].instrs;
    assert forall|e: int| 0 <= e < now.len() implies !is_deed(#[trigger] now[e]) by {
        only_copies_added(function, visit.block, e);
    }
    quiet_tail(now, visit.states, 0, now.len() as int);
}

/// What the first `m` visits do, where they come after the first `i` visits they
/// follow and before the next.
proof fn kept_deeds(
    function: FunctionView,
    run: Seq<Visit>,
    after: FunctionView,
    other: Seq<Visit>,
    at: Seq<int>,
    m: int,
    i: int,
)
    requires
        at.len() == run.len(),
        forall|i: int, j: int| 0 <= i < j < at.len() ==> #[trigger] at[i] < #[trigger] at[j],
        forall|i: int|
            0 <= i < run.len() ==> 0 <= #[trigger] at[i] < other.len() && visit_deeds(
                after,
                other[at[i]],
            ) == visit_deeds(function, run[i]),
        forall|k: int|
            0 <= k < other.len() && !at.contains(k) ==> visit_deeds(after, #[trigger] other[k])
                == Seq::<Deed>::empty(),
        0 <= m <= other.len(),
        0 <= i <= run.len(),
        i > 0 ==> at[i - 1] < m,
        i < run.len() ==> m <= at[i],
    ensures
        run_deeds(after, other.take(m)) == run_deeds(function, run.take(i)),
    decreases m,
{
    if m > 0 {
        let k = m - 1;
        assert(other.take(m).drop_last() =~= other.take(k));
        assert(other.take(m).last() == other[k]);
        if i > 0 && at[i - 1] == k {
            if i > 1 {
                assert(at[i - 2] < at[i - 1]);
            }
            kept_deeds(function, run, after, other, at, k, i - 1);
            assert(run.take(i).drop_last() =~= run.take(i - 1));
            assert(run.take(i).last() == run[i - 1]);
        } else {
            if at.contains(k) {
                let j = choose|j: int| 0 <= j < at.len() && at[j] == k;
                if j < i - 1 {
                    assert(at[j] < at[i - 1]);
                }
                if j > i {
                    assert(at[i] < at[j]);
                }
            }
            kept_deeds(function, run, after, other, at, k, i);
            assert(run_deeds(after, other.take(m)) =~= run_deeds(after, other.take(k)));
        }
    } else {
        if i > 0 {
            assert(0 <= at[i - 1]);
        }
        assert(other.take(0) =~= seq![] && run.take(0) =~= seq![]);
    }
}

/// A block that splitting added takes no parameters and does nothing.
proof fn added_take_nothing(blocks: Seq<BlockView>, n: int, e: int)
    requires
        0 <= n <= blocks.len(),
        blocks.len() <= e < split_before(blocks, n).len(),
    ensures
        split_before(blocks, n)[e].params.len() == 0,
        split_before(blocks, n)[e].instrs.len() == 0,
    decreases n,
{
    if n > 0 {
        let before = split_before(blocks, n - 1);
        split_grows(blocks, n - 1, n);
        let middle = split_exit(before, n - 1, 0);
        if e < before.len() {
            added_take_nothing(blocks, n - 1, e);
            split_once(blocks, n - 1, n, e);
        } else if before[n - 1].term.targets().len() >= 2 {
            if e < middle.len() {
                assert(split_before(blocks, n)[e] == middle[e]);
            }
        }
    }
}

/// A function in SSA form takes no two parameters in the same register.
pub proof fn ssa_form_params_differ(blocks: Seq<BlockView>)
    requires
        defined_once(blocks),
    ensures
        params_differ(blocks),
{
    assert forall|b: int, i: int, j: int|
        #![trigger blocks[b].params[i], blocks[b].params[j]]
        0 <= b < blocks.len() && 0 <= i < j < blocks[b].params.len() implies blocks[b].params[i]
        != blocks[b].params[j] by {
        assert(definitions(blocks[b])[i] == blocks[b].params[i]);
        assert(definitions(blocks[b])[j] == blocks[b].params[j]);
    }
}

} // verus!
