//! What SSA form promises.

use vstd::prelude::*;

use super::dom::{Dominance, dominates};
use super::place::{wanted, wanted_before, wants};
use super::rename::{
    about, handed, next_steps, operands_keep_written, renamed_block, renamed_instr, renamed_instrs,
    renamed_params, renamed_target, renamed_term, renamed_values, variables_within, walk_start,
    walk_step, walked, Env, Renaming, Walk,
};
use crate::graph::{leads, lowered, raising_one, reaches, way_up_to};
use crate::ir::block::{flow, BlockView, TargetView, TermView};
use crate::ir::func::{block_within, well_formed, FunctionView};
use crate::ir::instr::{instr_within, InstrView};
use crate::ir::value::{value_within, BlockId, VReg, Value};

verus! {

/// The registers the first `n` instructions of a block write, in order.
pub open spec fn results(instrs: Seq<InstrView>, n: int) -> Seq<VReg>
    decreases n,
{
    if n <= 0 {
        seq![]
    } else {
        let rest = results(instrs, n - 1);
        match instrs[n - 1].written() {
            Some(reg) => rest.push(reg),
            None => rest,
        }
    }
}

/// Everything a block defines: its parameters, and what its instructions write.
pub open spec fn definitions(block: BlockView) -> Seq<VReg> {
    block.params + results(block.instrs, block.instrs.len() as int)
}

/// Whether no register is defined twice.
pub open spec fn defined_once(blocks: Seq<BlockView>) -> bool {
    forall|a: int, i: int, b: int, j: int|
        #![trigger definitions(blocks[a])[i], definitions(blocks[b])[j]]
        0 <= a < blocks.len() && 0 <= i < definitions(blocks[a]).len() && 0 <= b < blocks.len()
            && 0 <= j < definitions(blocks[b]).len() && definitions(blocks[a])[i] == definitions(
            blocks[b],
        )[j] ==> a == b && i == j
}

/// Whether every edge hands its block one value for each of its parameters.
pub open spec fn arities_agree(blocks: Seq<BlockView>) -> bool {
    forall|b: int, i: int|
        #![trigger blocks[b].term.targets()[i]]
        0 <= b < blocks.len() && 0 <= i < blocks[b].term.targets().len()
            ==> blocks[b].term.targets()[i].args.len() == blocks[blocks[b].term.targets()[i].block.0 as int].params.len()
}

/// Whether putting the operands and the result of one instruction into another
/// gives the first: the two do the same to registers that may not be the same.
pub open spec fn same_but_for_registers(before: InstrView, after: InstrView) -> bool {
    let back = after.with_operands(before.operands());
    before == match before.written() {
        Some(reg) => back.with_def(reg),
        None => back,
    }
}

/// Whether two blocks do the same to registers that may not be the same.
pub open spec fn block_same_but_for_registers(before: BlockView, after: BlockView) -> bool {
    &&& after.kind == before.kind
    &&& after.index == before.index
    &&& after.term.successors() == before.term.successors()
    &&& after.instrs.len() == before.instrs.len()
    &&& forall|k: int|
        0 <= k < before.instrs.len() ==> same_but_for_registers(
            before.instrs[k],
            #[trigger] after.instrs[k],
        )
}

// -- one block --------------------------------------------------------------

/// What an instruction is renamed to is the same but for registers, and defines
/// the next free one where it defines any.
#[verifier::spinoff_prover]
#[verifier::rlimit(40)]
pub proof fn renamed_instr_is_the_same(start: Renaming, instr: InstrView)
    ensures
        same_but_for_registers(instr, renamed_instr(start, instr).0),
        renamed_instr(start, instr).0.written() == match instr.written() {
            Some(_) => Some(start.names.fresh()),
            None => None,
        },
        renamed_instr(start, instr).0.operands() == renamed_values(start.env, instr.operands()),
{
    let operands = renamed_values(start.env, instr.operands());
    let with = instr.with_operands(operands);
    operands_keep_written(instr, operands);
    assert(with.operands() =~= operands);
    assert(with.with_operands(instr.operands()) =~= instr);
    if let Some(reg) = instr.written() {
        let fresh = start.names.fresh();
        assert(with.with_def(fresh).operands() =~= operands);
        assert(with.with_def(fresh).with_operands(instr.operands()).with_def(reg) =~= instr);
    }
}

/// Whether every name in use is one there is.
pub open spec fn env_within(env: Env, count: nat) -> bool {
    forall|i: int| 0 <= i < env.len() ==> match #[trigger] env[i] {
        Some(reg) => reg.0 < count,
        None => true,
    }
}

pub proof fn params_numbered(start: Renaming, variables: Seq<VReg>, n: int, original: nat)
    requires
        0 <= n <= variables.len(),
        about(start, original),
        env_within(start.env, start.names.names.len()),
        start.names.names.len() + n <= u32::MAX,
        forall|i: int| 0 <= i < variables.len() ==> (#[trigger] variables[i]).0 < original,
    ensures
        ({
            let (params, at) = renamed_params(start, variables, n);
            &&& params.len() == n
            &&& forall|i: int|
                0 <= i < n ==> (#[trigger] params[i]).0 == start.names.names.len() + i
            &&& at.names.names.len() == start.names.names.len() + n
            &&& about(at, original)
            &&& env_within(at.env, at.names.names.len())
        }),
    decreases n,
{
    if n > 0 {
        params_numbered(start, variables, n - 1, original);
        let (params, at) = renamed_params(start, variables, n - 1);
        let after = at.defining(variables[n - 1]);
        assert(variables[n - 1].0 < original);
        assert forall|i: int| 0 <= i < after.env.len() implies match #[trigger] after.env[i] {
            Some(reg) => reg.0 < after.names.names.len(),
            None => true,
        } by {
            if i != variables[n - 1].0 {
                assert(after.env[i] == at.env[i]);
            }
        }
    }
}

/// What the first instructions write says nothing of the rest.
pub proof fn results_of_prefix(a: Seq<InstrView>, b: Seq<InstrView>, n: int)
    requires
        0 <= n <= a.len(),
        n <= b.len(),
        forall|i: int| 0 <= i < n ==> a[i] == b[i],
    ensures
        results(a, n) == results(b, n),
    decreases n,
{
    if n > 0 {
        results_of_prefix(a, b, n - 1);
    }
}

proof fn renamed_values_within(env: Env, values: Seq<Value>, original: nat, count: nat)
    requires
        env.len() == original <= count,
        env_within(env, count),
        forall|i: int| 0 <= i < values.len() ==> value_within(#[trigger] values[i], original),
    ensures
        forall|i: int|
            0 <= i < values.len() ==> value_within(
                #[trigger] renamed_values(env, values)[i],
                count,
            ),
{
    assert forall|i: int| 0 <= i < values.len() implies value_within(
        #[trigger] renamed_values(env, values)[i],
        count,
    ) by {
        assert(value_within(values[i], original));
        if let Value::Reg(reg) = values[i] {
            assert(env[reg.0 as int] == env[reg.0 as int]);
        }
    }
}

pub proof fn instrs_numbered(start: Renaming, instrs: Seq<InstrView>, n: int, original: nat)
    requires
        0 <= n <= instrs.len(),
        about(start, original),
        env_within(start.env, start.names.names.len()),
        renamed_instrs(start, instrs, n).1.names.names.len() <= u32::MAX,
        forall|k: int| 0 <= k < instrs.len() ==> instr_within(#[trigger] instrs[k], original),
    ensures
        ({
            let (done, at) = renamed_instrs(start, instrs, n);
            &&& done.len() == n
            &&& results(done, n).len() == at.names.names.len() - start.names.names.len()
            &&& forall|i: int|
                0 <= i < results(done, n).len() ==> (#[trigger] results(done, n)[i]).0
                    == start.names.names.len() + i
            &&& forall|k: int|
                0 <= k < n ==> same_but_for_registers(instrs[k], #[trigger] done[k])
                    && instr_within(done[k], at.names.names.len())
            &&& about(at, original)
            &&& env_within(at.env, at.names.names.len())
        }),
    decreases n,
{
    if n > 0 {
        let (done, at) = renamed_instrs(start, instrs, n - 1);
        let (instr, after) = renamed_instr(at, instrs[n - 1]);
        instrs_numbered(start, instrs, n - 1, original);
        renamed_instr_is_the_same(at, instrs[n - 1]);
        results_of_prefix(done.push(instr), done, n - 1);
        assert(instr_within(instrs[n - 1], original));
        renamed_values_within(
            at.env,
            instrs[n - 1].operands(),
            original,
            at.names.names.len(),
        );
        let longer = done.push(instr);
        assert forall|i: int| 0 <= i < after.env.len() implies match #[trigger] after.env[i] {
            Some(reg) => reg.0 < after.names.names.len(),
            None => true,
        } by {
            assert(at.env[i] == at.env[i]);
        }
        assert(instr_within(instr, after.names.names.len())) by {
            let operands = instr.operands();
            assert forall|i: int| 0 <= i < operands.len() implies value_within(
                #[trigger] operands[i],
                after.names.names.len(),
            ) by {
                assert(value_within(
                    renamed_values(at.env, instrs[n - 1].operands())[i],
                    at.names.names.len(),
                ));
            }
        }
        assert forall|k: int| 0 <= k < n implies same_but_for_registers(
            instrs[k],
            #[trigger] longer[k],
        ) && instr_within(longer[k], after.names.names.len()) by {
            if k < n - 1 {
                assert(longer[k] == done[k]);
                assert(instr_within(done[k], at.names.names.len()));
                within_more(done[k], at.names.names.len(), after.names.names.len());
            }
        }
    }
}

proof fn within_more(instr: InstrView, few: nat, more: nat)
    requires
        few <= more,
        instr_within(instr, few),
    ensures
        instr_within(instr, more),
{
    assert forall|i: int| 0 <= i < instr.operands().len() implies value_within(
        #[trigger] instr.operands()[i],
        more,
    ) by {
        assert(value_within(instr.operands()[i], few));
    }
}

pub proof fn block_within_more(block: BlockView, few: nat, more: nat, blocks: nat)
    requires
        few <= more,
        block_within(block, few, blocks),
    ensures
        block_within(block, more, blocks),
{
    assert forall|i: int| 0 <= i < block.instrs.len() implies instr_within(
        #[trigger] block.instrs[i],
        more,
    ) by {
        within_more(block.instrs[i], few, more);
    }
    assert forall|i: int| 0 <= i < block.term.operands().len() implies value_within(
        #[trigger] block.term.operands()[i],
        more,
    ) by {
        assert(value_within(block.term.operands()[i], few));
    }
}

proof fn term_renamed(
    env: Env,
    term: TermView,
    wants: Seq<Seq<VReg>>,
    original: nat,
    count: nat,
    blocks: nat,
)
    requires
        env.len() == original <= count,
        env_within(env, count),
        wants.len() == blocks,
        variables_within(wants, original),
        forall|i: int|
            0 <= i < term.targets().len() ==> (#[trigger] term.targets()[i]).block.0 < blocks,
        forall|i: int|
            0 <= i < term.operands().len() ==> value_within(
                #[trigger] term.operands()[i],
                original,
            ),
    ensures
        ({
            let after = renamed_term(env, term, wants);
            &&& after.successors() == term.successors()
            &&& after.targets().len() == term.targets().len()
            &&& forall|i: int|
                0 <= i < after.targets().len() ==> (#[trigger] after.targets()[i]).args.len()
                    == wants[after.targets()[i].block.0 as int].len()
                    && after.targets()[i].block == term.targets()[i].block
            &&& forall|i: int|
                0 <= i < after.operands().len() ==> value_within(
                    #[trigger] after.operands()[i],
                    count,
                )
        }),
{
    let with = term.with_operands(renamed_values(env, term.operands()));
    let after = renamed_term(env, term, wants);
    let targets = with.targets().map_values(
        |target: TargetView| renamed_target(env, target, wants),
    );
    assert(after.targets() =~= targets);
    assert(after.successors() =~= term.successors());
    renamed_values_within(env, term.operands(), original, count);
    assert forall|i: int, j: int|
        #![trigger targets[i].args[j]]
        0 <= i < targets.len() && 0 <= j < targets[i].args.len() implies value_within(
        targets[i].args[j],
        count,
    ) by {
        let b = with.targets()[i].block.0 as int;
        assert(with.targets()[i].block == term.targets()[i].block);
        assert(wants[b][j].0 < original);
        assert(targets[i].args[j] == handed(env, wants[b][j]));
        assert(env[wants[b][j].0 as int] == env[wants[b][j].0 as int]);
    }
    assert forall|i: int| 0 <= i < after.operands().len() implies value_within(
        #[trigger] after.operands()[i],
        count,
    ) by {
        match term {
            TermView::Jump(_) => {
                assert(after.operands()[i] == targets[0].args[i]);
            },
            TermView::Branch { .. } => {
                let first = targets[0].args;
                if i == 0 {
                    assert(after.operands()[0] == renamed_values(env, term.operands())[0]);
                } else if i - 1 < first.len() {
                    assert(after.operands()[i] == targets[0].args[i - 1]);
                } else {
                    assert(after.operands()[i] == targets[1].args[i - 1 - first.len()]);
                }
            },
            TermView::Return(_) => {
                assert(after.operands()[i] == renamed_values(env, term.operands())[i]);
            },
        }
    }
}

/// What a renamed block is: the same but for registers, its definitions the next
/// free ones in order, and every edge handing what its block wants.
pub proof fn block_renamed(
    start: Renaming,
    block: BlockView,
    wants: Seq<Seq<VReg>>,
    at: int,
    original: nat,
)
    requires
        0 <= at < wants.len(),
        about(start, original),
        env_within(start.env, start.names.names.len()),
        variables_within(wants, original),
        block_within(block, original, wants.len()),
        renamed_block(start, block, wants, at).1.names.names.len() <= u32::MAX,
    ensures
        ({
            let (after, left) = renamed_block(start, block, wants, at);
            &&& block_same_but_for_registers(block, after)
            &&& after.params.len() == wants[at].len()
            &&& definitions(after).len() == left.names.names.len() - start.names.names.len()
            &&& forall|i: int|
                0 <= i < definitions(after).len() ==> (#[trigger] definitions(after)[i]).0
                    == start.names.names.len() + i
            &&& block_within(after, left.names.names.len(), wants.len())
            &&& forall|i: int|
                0 <= i < after.term.targets().len() ==> (
                #[trigger] after.term.targets()[i]).args.len()
                    == wants[after.term.targets()[i].block.0 as int].len()
            &&& about(left, original)
            &&& env_within(left.env, left.names.names.len())
        }),
{
    let n = wants[at].len() as int;
    let (params, entered) = renamed_params(start, wants[at], n);
    let (instrs, left) = renamed_instrs(entered, block.instrs, block.instrs.len() as int);
    let (after, _left) = renamed_block(start, block, wants, at);
    super::rename::params_grow(start, wants[at], 0, n);
    super::rename::instrs_grow(entered, block.instrs, 0, block.instrs.len() as int);
    assert forall|i: int| 0 <= i < wants[at].len() implies (#[trigger] wants[at][i]).0
        < original by {}
    params_numbered(start, wants[at], n, original);
    instrs_numbered(entered, block.instrs, block.instrs.len() as int, original);
    term_renamed(
        left.env,
        block.term,
        wants,
        original,
        left.names.names.len(),
        wants.len(),
    );
    assert forall|i: int| 0 <= i < after.term.targets().len() implies (
    #[trigger] after.term.targets()[i]).block.0 < wants.len() by {
        assert(after.term.targets()[i].block == block.term.targets()[i].block);
    }
}

// -- the whole walk ---------------------------------------------------------

/// Whether a block that has been entered is in SSA form, as far as it can be
/// seen on its own.
spec fn finished(
    before: BlockView,
    after: BlockView,
    wants: Seq<Seq<VReg>>,
    at: int,
    original: nat,
    count: nat,
) -> bool {
    &&& block_same_but_for_registers(before, after)
    &&& after.params.len() == wants[at].len()
    &&& forall|i: int|
        0 <= i < definitions(after).len() ==> original <= (#[trigger] definitions(after)[i]).0
            < count
    &&& block_within(after, count, wants.len())
    &&& forall|i: int|
        0 <= i < after.term.targets().len() ==> (#[trigger] after.term.targets()[i]).args.len()
            == wants[after.term.targets()[i].block.0 as int].len()
}

/// Whether a block is still to be entered.
spec fn awaited(steps: Seq<(int, Env)>, at: int) -> bool {
    exists|k: int| 0 <= k < steps.len() && (#[trigger] steps[k]).0 == at
}

/// What holds all along the walk.
spec fn walks_well(
    walk: Walk,
    whole: FunctionView,
    tree: Dominance,
    wants: Seq<Seq<VReg>>,
) -> bool {
    let original = whole.names.len();
    let count = walk.names.names.len();
    &&& walk.blocks.len() == whole.blocks.len()
    &&& walk.done.len() == whole.blocks.len()
    &&& walk.names.spent.len() == original <= count
    &&& forall|k: int|
        0 <= k < walk.steps.len() ==> 0 <= (#[trigger] walk.steps[k]).0 < whole.blocks.len()
            && walk.steps[k].1.len() == original && env_within(walk.steps[k].1, count)
    &&& forall|b: int|
        0 <= b < walk.blocks.len() && !walk.done[b] ==> #[trigger] walk.blocks[b]
            == whole.blocks[b]
    &&& forall|b: int|
        0 <= b < walk.blocks.len() && walk.done[b] ==> finished(
            whole.blocks[b],
            #[trigger] walk.blocks[b],
            wants,
            b,
            original,
            count,
        )
    &&& forall|a: int, i: int, b: int, j: int|
        #![trigger definitions(walk.blocks[a])[i], definitions(walk.blocks[b])[j]]
        0 <= a < walk.blocks.len() && walk.done[a] && 0 <= i < definitions(walk.blocks[a]).len()
            && 0 <= b < walk.blocks.len() && walk.done[b] && 0 <= j < definitions(
            walk.blocks[b],
        ).len() && definitions(walk.blocks[a])[i] == definitions(walk.blocks[b])[j] ==> a == b && i
            == j
    &&& walk.done[0] || awaited(walk.steps, 0)
    &&& forall|b: int|
        0 < b < walk.blocks.len() && walk.done[tree.idom[b]] ==> #[trigger] walk.done[b]
            || awaited(walk.steps, b)
}

proof fn child_listed(tree: Dominance, b: int, n: int)
    requires
        0 < b < n <= tree.graph.len() <= u32::MAX,
    ensures
        tree.children_before(tree.idom[b], n).contains(BlockId(b as u32)),
    decreases n,
{
    let parent = tree.idom[b];
    let list = tree.children_before(parent, n);
    if b == n - 1 {
        assert(list.last() == BlockId(b as u32));
        assert(list[list.len() - 1] == BlockId(b as u32));
    } else {
        child_listed(tree, b, n - 1);
        let rest = tree.children_before(parent, n - 1);
        let k = choose|k: int| 0 <= k < rest.len() && rest[k] == BlockId(b as u32);
        assert(list[k] == BlockId(b as u32));
    }
}

pub proof fn children_within(tree: Dominance, parent: int, n: int)
    requires
        0 <= n <= tree.graph.len() <= u32::MAX,
    ensures
        forall|k: int|
            0 <= k < tree.children_before(parent, n).len() ==> 0 < (
            #[trigger] tree.children_before(parent, n)[k]).0 < n,
    decreases n,
{
    if n > 1 {
        children_within(tree, parent, n - 1);
        let list = tree.children_before(parent, n);
        let rest = tree.children_before(parent, n - 1);
        assert forall|k: int| 0 <= k < list.len() implies 0 < (#[trigger] list[k]).0 < n by {
            if k < rest.len() {
                assert(list[k] == rest[k]);
            }
        }
    }
}

#[verifier::rlimit(40)]
proof fn step_well(walk: Walk, whole: FunctionView, tree: Dominance, wants: Seq<Seq<VReg>>)
    requires
        well_formed(whole),
        tree.well_formed(),
        tree.graph == flow(whole.blocks),
        wants.len() == whole.blocks.len(),
        variables_within(wants, whole.names.len()),
        walks_well(walk, whole, tree, wants),
        walk.steps.len() > 0,
        walk_step(walk, tree, wants).names.names.len() <= u32::MAX,
    ensures
        walks_well(walk_step(walk, tree, wants), whole, tree, wants),
{
    let original = whole.names.len();
    let (at, env) = walk.steps.last();
    let rest = walk.steps.drop_last();
    let next = walk_step(walk, tree, wants);
    assert(walk.steps[walk.steps.len() - 1] == (at, env));
    if walk.done[at] {
        assert(next.steps == rest);
        assert forall|b: int| awaited(walk.steps, b) implies awaited(rest, b) || b == at by {
            let k = choose|k: int| 0 <= k < walk.steps.len() && (#[trigger] walk.steps[k]).0 == b;
            if k < rest.len() {
                assert(rest[k].0 == b);
            }
        }
        assert forall|b: int|
            0 < b < next.blocks.len() && next.done[tree.idom[b]] implies #[trigger] next.done[b]
            || awaited(next.steps, b) by {
            assert(walk.done[b] || awaited(walk.steps, b));
        }
    } else {
        let start = Renaming { names: walk.names, env };
        let (block, left) = renamed_block(start, walk.blocks[at], wants, at);
        assert(walk.blocks[at] == whole.blocks[at]);
        assert(block_within(whole.blocks[at], original, whole.blocks.len()));
        block_renamed(start, walk.blocks[at], wants, at, original);
        let few = walk.names.names.len();
        let count = left.names.names.len();
        assert(few <= count);
        let added = next_steps(tree.children(at), left.env);
        children_within(tree, at, tree.graph.len() as int);
        assert forall|k: int| 0 <= k < next.steps.len() implies 0 <= (#[trigger] next.steps[k]).0
            < whole.blocks.len() && next.steps[k].1.len() == original && env_within(
            next.steps[k].1,
            count,
        ) by {
            if k < rest.len() {
                assert(next.steps[k] == walk.steps[k]);
                assert(env_within(walk.steps[k].1, few));
            } else {
                assert(next.steps[k] == added[k - rest.len()]);
                assert(tree.children(at)[k - rest.len()].0 < tree.graph.len());
            }
        }
        assert forall|b: int| 0 <= b < next.blocks.len() && next.done[b] implies finished(
            whole.blocks[b],
            #[trigger] next.blocks[b],
            wants,
            b,
            original,
            count,
        ) by {
            if b != at {
                assert(next.blocks[b] == walk.blocks[b]);
                assert(finished(whole.blocks[b], walk.blocks[b], wants, b, original, few));
                block_within_more(walk.blocks[b], few, count, wants.len());
            }
        }
        assert forall|a: int, i: int, b: int, j: int|
            #![trigger definitions(next.blocks[a])[i], definitions(next.blocks[b])[j]]
            0 <= a < next.blocks.len() && next.done[a] && 0 <= i < definitions(
                next.blocks[a],
            ).len() && 0 <= b < next.blocks.len() && next.done[b] && 0 <= j < definitions(
                next.blocks[b],
            ).len() && definitions(next.blocks[a])[i] == definitions(next.blocks[b])[j] implies a
            == b && i == j by {
            if a != at {
                assert(next.blocks[a] == walk.blocks[a]);
                assert(finished(whole.blocks[a], walk.blocks[a], wants, a, original, few));
                assert(definitions(walk.blocks[a])[i].0 < few);
            }
            if b != at {
                assert(next.blocks[b] == walk.blocks[b]);
                assert(finished(whole.blocks[b], walk.blocks[b], wants, b, original, few));
                assert(definitions(walk.blocks[b])[j].0 < few);
            }
        }
        assert forall|b: int| awaited(walk.steps, b) implies awaited(next.steps, b) || b == at by {
            let k = choose|k: int| 0 <= k < walk.steps.len() && (#[trigger] walk.steps[k]).0 == b;
            if k < rest.len() {
                assert(next.steps[k].0 == b);
            }
        }
        assert forall|b: int|
            0 < b < next.blocks.len() && next.done[tree.idom[b]] implies #[trigger] next.done[b]
            || awaited(next.steps, b) by {
            if tree.idom[b] == at {
                child_listed(tree, b, tree.graph.len() as int);
                let list = tree.children(at);
                let k = choose|k: int| 0 <= k < list.len() && list[k] == BlockId(b as u32);
                assert(added[k].0 == b);
                assert(next.steps[rest.len() + k] == added[k]);
            } else {
                assert(walk.done[b] || awaited(walk.steps, b));
            }
        }
    }
}

proof fn walked_well(walk: Walk, whole: FunctionView, tree: Dominance, wants: Seq<Seq<VReg>>)
    requires
        well_formed(whole),
        tree.well_formed(),
        tree.graph == flow(whole.blocks),
        wants.len() == whole.blocks.len(),
        variables_within(wants, whole.names.len()),
        walks_well(walk, whole, tree, wants),
        walked(walk, tree, wants).names.names.len() <= u32::MAX,
    ensures
        walks_well(walked(walk, tree, wants), whole, tree, wants),
        walked(walk, tree, wants).steps.len() == 0,
    decreases lowered(walk.done), walk.steps.len(),
{
    if walk.steps.len() > 0 {
        let (at, env) = walk.steps.last();
        if 0 <= at < walk.done.len() && !walk.done[at] {
            raising_one(walk.done, at);
        }
        super::rename::walk_grows(walk, tree, wants);
        step_well(walk, whole, tree, wants);
        walked_well(walk_step(walk, tree, wants), whole, tree, wants);
    }
}

/// A walk that has nothing left to do has entered every block.
proof fn all_entered(walk: Walk, whole: FunctionView, tree: Dominance, wants: Seq<Seq<VReg>>, b: int, path: Seq<int>)
    requires
        tree.well_formed(),
        tree.graph == flow(whole.blocks),
        walks_well(walk, whole, tree, wants),
        walk.steps.len() == 0,
        0 <= b < whole.blocks.len(),
        leads(tree.graph, path, 0, b),
    ensures
        walk.done[b],
    decreases path.len(),
{
    if b != 0 {
        let d = tree.idom[b];
        assert(0 <= tree.idom[b] < tree.graph.len());
        assert(dominates(tree.graph, d, b));
        assert(path.contains(d));
        let k = choose|k: int| 0 <= k < path.len() && path[k] == d;
        assert(k < path.len() - 1);
        way_up_to(tree.graph, path, 0, b, k);
        all_entered(walk, whole, tree, wants, d, path.subrange(0, k + 1));
        assert(walk.done[b] || awaited(walk.steps, b));
    }
}

/// The variables a block wants parameters for are variables there are.
pub proof fn wanted_within(function: FunctionView, tree: Dominance)
    requires
        function.names.len() <= u32::MAX,
    ensures
        variables_within(wanted(function, tree), function.names.len()),
{
    let lists = wanted(function, tree);
    assert forall|b: int, i: int|
        #![trigger lists[b][i]]
        0 <= b < lists.len() && 0 <= i < lists[b].len() implies lists[b][i].0
        < function.names.len() by {
        wanted_below(function, tree, b, function.names.len() as int);
    }
}

proof fn wanted_below(function: FunctionView, tree: Dominance, at: int, n: int)
    requires
        0 <= n <= u32::MAX,
    ensures
        forall|i: int|
            0 <= i < wanted_before(function, tree, at, n).len() ==> (#[trigger] wanted_before(
                function,
                tree,
                at,
                n,
            )[i]).0 < n,
    decreases n,
{
    if n > 0 {
        wanted_below(function, tree, at, n - 1);
        let list = wanted_before(function, tree, at, n);
        let rest = wanted_before(function, tree, at, n - 1);
        assert forall|i: int| 0 <= i < list.len() implies (#[trigger] list[i]).0 < n by {
            if i < rest.len() {
                assert(list[i] == rest[i]);
            }
        }
    }
}

/// The walk from the start enters every block.
pub proof fn walk_enters_all(whole: FunctionView, tree: Dominance)
    requires
        well_formed(whole),
        tree.well_formed(),
        tree.graph == flow(whole.blocks),
        walked(walk_start(whole), tree, wanted(whole, tree)).names.names.len() <= u32::MAX,
    ensures
        ({
            let end = walked(walk_start(whole), tree, wanted(whole, tree));
            end.done.len() == whole.blocks.len() && end.blocks.len() == whole.blocks.len()
                && forall|b: int| 0 <= b < whole.blocks.len() ==> #[trigger] end.done[b]
        }),
{
    let wants = wanted(whole, tree);
    let start = walk_start(whole);
    let end = walked(start, tree, wants);
    wanted_within(whole, tree);
    assert(start.steps[0].0 == 0);
    assert(awaited(start.steps, 0));
    walked_well(start, whole, tree, wants);
    assert forall|b: int| 0 <= b < whole.blocks.len() implies #[trigger] end.done[b] by {
        assert(reaches(tree.graph, 0, b));
        let path = choose|path: Seq<int>| leads(tree.graph, path, 0, b);
        all_entered(end, whole, tree, wants, b, path);
    }
}

/// What comes of the walk from the start.
pub proof fn walk_ends_well(whole: FunctionView, tree: Dominance)
    requires
        well_formed(whole),
        tree.well_formed(),
        tree.graph == flow(whole.blocks),
        walked(walk_start(whole), tree, wanted(whole, tree)).names.names.len() <= u32::MAX,
    ensures
        ({
            let end = walked(walk_start(whole), tree, wanted(whole, tree));
            let wants = wanted(whole, tree);
            &&& end.blocks.len() == whole.blocks.len()
            &&& whole.names.len() <= end.names.names.len()
            &&& defined_once(end.blocks)
            &&& arities_agree(end.blocks)
            &&& forall|b: int|
                0 <= b < end.blocks.len() ==> block_same_but_for_registers(
                    whole.blocks[b],
                    #[trigger] end.blocks[b],
                ) && block_within(end.blocks[b], end.names.names.len(), whole.blocks.len())
            &&& forall|b: int, i: int|
                #![trigger definitions(end.blocks[b])[i]]
                0 <= b < end.blocks.len() && 0 <= i < definitions(end.blocks[b]).len()
                    ==> definitions(end.blocks[b])[i].0 >= whole.names.len()
        }),
{
    let wants = wanted(whole, tree);
    let start = walk_start(whole);
    let end = walked(start, tree, wants);
    wanted_within(whole, tree);
    assert(start.steps[0].0 == 0);
    assert(awaited(start.steps, 0));
    walked_well(start, whole, tree, wants);
    assert forall|b: int| 0 <= b < whole.blocks.len() implies end.done[b] by {
        assert(reaches(tree.graph, 0, b));
        let path = choose|path: Seq<int>| leads(tree.graph, path, 0, b);
        all_entered(end, whole, tree, wants, b, path);
    }
    assert forall|b: int| 0 <= b < end.blocks.len() implies block_same_but_for_registers(
        whole.blocks[b],
        #[trigger] end.blocks[b],
    ) && block_within(end.blocks[b], end.names.names.len(), whole.blocks.len()) by {
        assert(end.done[b]);
        assert(finished(
            whole.blocks[b],
            end.blocks[b],
            wants,
            b,
            whole.names.len(),
            end.names.names.len(),
        ));
    }
    assert forall|b: int, i: int|
        #![trigger definitions(end.blocks[b])[i]]
        0 <= b < end.blocks.len() && 0 <= i < definitions(end.blocks[b]).len() implies definitions(
        end.blocks[b],
    )[i].0 >= whole.names.len() by {
        assert(end.done[b]);
        assert(finished(
            whole.blocks[b],
            end.blocks[b],
            wants,
            b,
            whole.names.len(),
            end.names.names.len(),
        ));
    }
    assert forall|b: int, i: int|
        #![trigger end.blocks[b].term.targets()[i]]
        0 <= b < end.blocks.len() && 0 <= i < end.blocks[b].term.targets().len() implies end.blocks[b].term.targets()[i].args.len()
        == end.blocks[end.blocks[b].term.targets()[i].block.0 as int].params.len() by {
        let to = end.blocks[b].term.targets()[i].block.0 as int;
        assert(end.done[b] && block_within(
            end.blocks[b],
            end.names.names.len(),
            whole.blocks.len(),
        ));
        assert(finished(
            whole.blocks[b],
            end.blocks[b],
            wants,
            b,
            whole.names.len(),
            end.names.names.len(),
        ));
        assert(to < whole.blocks.len());
        assert(end.done[to]);
        assert(finished(
            whole.blocks[to],
            end.blocks[to],
            wants,
            to,
            whole.names.len(),
            end.names.names.len(),
        ));
    }
    assert forall|a: int, i: int, b: int, j: int|
        #![trigger definitions(end.blocks[a])[i], definitions(end.blocks[b])[j]]
        0 <= a < end.blocks.len() && 0 <= i < definitions(end.blocks[a]).len() && 0 <= b
            < end.blocks.len() && 0 <= j < definitions(end.blocks[b]).len() && definitions(
            end.blocks[a],
        )[i] == definitions(end.blocks[b])[j] implies a == b && i == j by {
        assert(end.done[a] && end.done[b]);
    }
}

} // verus!
