//! Giving each definition a register of its own.
//!
//! The dominator tree is walked from the entry down, each block starting with
//! what every variable goes by at the end of the block that immediately
//! dominates it: a definition is visible exactly where it dominates.

use vstd::prelude::*;

use super::dom::{idom_is_unique, Dominance};
use super::names::{Names, NamesView};
use super::place::wanted;
use crate::graph::{lowered, raising_one, reaches};
use crate::ir::block::{
    flow, instr_views, Block, BlockView, Target, TargetView, TermView, Terminator,
};
use crate::ir::func::{
    all_reached, arrived, arrives_in, block_within, hands_nothing, leading, parameters_arrive,
    well_formed, Function, FunctionView,
};
use crate::ir::instr::{instr_within, Instr, InstrView};
use crate::ir::value::{BlockId, VReg, Value};

verus! {

/// What every variable goes by at some point, where anything defines it.
pub type Env = Seq<Option<VReg>>;

/// What a walk carries: what has been named, and what every variable goes by.
#[verifier::ext_equal]
pub struct Renaming {
    pub names: NamesView,
    pub env: Env,
}

impl Renaming {
    /// With a new definition of a variable.
    pub open spec fn defining(self, variable: VReg) -> Renaming {
        Renaming {
            names: self.names.version(variable),
            env: self.env.update(variable.0 as int, Some(self.names.fresh())),
        }
    }
}

/// An operand with the definition that reaches it in place of the variable.
pub open spec fn renamed_value(env: Env, value: Value) -> Value {
    match value {
        Value::Reg(reg) => if reg.0 < env.len() {
            match env[reg.0 as int] {
                Some(name) => Value::Reg(name),
                None => value,
            }
        } else {
            value
        },
        Value::Const(_) => value,
    }
}

pub open spec fn renamed_values(env: Env, values: Seq<Value>) -> Seq<Value> {
    values.map_values(|value: Value| renamed_value(env, value))
}

/// The parameters of a block for the first `n` of the variables it wants one
/// for.
pub open spec fn renamed_params(start: Renaming, variables: Seq<VReg>, n: int) -> (
    Seq<VReg>,
    Renaming,
)
    decreases n,
{
    if n <= 0 {
        (seq![], start)
    } else {
        let (params, at) = renamed_params(start, variables, n - 1);
        (params.push(at.names.fresh()), at.defining(variables[n - 1]))
    }
}

/// An instruction with its operands renamed and its result defined anew.
pub open spec fn renamed_instr(start: Renaming, instr: InstrView) -> (InstrView, Renaming) {
    let with = instr.with_operands(renamed_values(start.env, instr.operands()));
    match instr.written() {
        Some(variable) => (with.with_def(start.names.fresh()), start.defining(variable)),
        None => (with, start),
    }
}

/// The first `n` instructions of a block, renamed.
pub open spec fn renamed_instrs(start: Renaming, instrs: Seq<InstrView>, n: int) -> (
    Seq<InstrView>,
    Renaming,
)
    decreases n,
{
    if n <= 0 {
        (seq![], start)
    } else {
        let (done, at) = renamed_instrs(start, instrs, n - 1);
        let (instr, after) = renamed_instr(at, instrs[n - 1]);
        (done.push(instr), after)
    }
}

/// What an edge hands the parameter for a variable: the definition that reaches
/// along it. A parameter is placed only where the variable is live, so one
/// reaches on every edge that can be taken; zero is as good an answer as any for
/// an edge nothing runs.
pub open spec fn handed(env: Env, reg: VReg) -> Value {
    match env[reg.0 as int] {
        Some(name) => Value::Reg(name),
        None => Value::Const(0),
    }
}

/// A target with what its block wants.
pub open spec fn renamed_target(env: Env, target: TargetView, wants: Seq<Seq<VReg>>) -> TargetView {
    TargetView {
        block: target.block,
        args: wants[target.block.0 as int].map_values(|reg: VReg| handed(env, reg)),
    }
}

pub open spec fn renamed_term(env: Env, term: TermView, wants: Seq<Seq<VReg>>) -> TermView {
    let with = term.with_operands(renamed_values(env, term.operands()));
    with.with_targets(
        with.targets().map_values(|target: TargetView| renamed_target(env, target, wants)),
    )
}

/// A block with everything it defines defined anew, and what comes of it.
pub open spec fn renamed_block(
    start: Renaming,
    block: BlockView,
    wants: Seq<Seq<VReg>>,
    at: int,
) -> (BlockView, Renaming) {
    let (params, entered) = renamed_params(start, wants[at], wants[at].len() as int);
    let (instrs, left) = renamed_instrs(entered, block.instrs, block.instrs.len() as int);
    (
        BlockView { params, instrs, term: renamed_term(left.env, block.term, wants), ..block },
        left,
    )
}

/// A walk over the dominator tree.
#[verifier::ext_equal]
pub struct Walk {
    pub blocks: Seq<BlockView>,
    pub names: NamesView,
    /// Blocks yet to be entered, the next one last, each with what every
    /// variable goes by where it is entered.
    pub steps: Seq<(int, Env)>,
    pub done: Seq<bool>,
}

/// The children of a block, to be entered with what it leaves.
pub open spec fn next_steps(children: Seq<BlockId>, env: Env) -> Seq<(int, Env)> {
    children.map_values(|child: BlockId| (child.0 as int, env))
}

/// One block further.
pub open spec fn walk_step(walk: Walk, tree: Dominance, wants: Seq<Seq<VReg>>) -> Walk {
    let (at, env) = walk.steps.last();
    let rest = walk.steps.drop_last();
    if 0 <= at < walk.blocks.len() && 0 <= at < walk.done.len() && !walk.done[at] {
        let (block, left) = renamed_block(
            Renaming { names: walk.names, env },
            walk.blocks[at],
            wants,
            at,
        );
        Walk {
            blocks: walk.blocks.update(at, block),
            names: left.names,
            steps: rest + next_steps(tree.children(at), left.env),
            done: walk.done.update(at, true),
        }
    } else {
        Walk { steps: rest, ..walk }
    }
}

/// The end of a walk.
pub open spec fn walked(walk: Walk, tree: Dominance, wants: Seq<Seq<VReg>>) -> Walk
    decreases lowered(walk.done), walk.steps.len(),
{
    if walk.steps.len() == 0 {
        walk
    } else {
        proof {
            let (at, env) = walk.steps.last();
            if 0 <= at < walk.done.len() && !walk.done[at] {
                raising_one(walk.done, at);
            }
        }
        walked(walk_step(walk, tree, wants), tree, wants)
    }
}

/// Where a walk starts: at the entry, with nothing defined.
pub open spec fn walk_start(function: FunctionView) -> Walk {
    Walk {
        blocks: function.blocks,
        names: NamesView::of(function.names),
        steps: seq![(0int, Seq::new(function.names.len(), |i: int| None::<VReg>))],
        done: Seq::new(function.blocks.len(), |i: int| false),
    }
}

/// The dominator tree of a function.
pub open spec fn tree_of(function: FunctionView) -> Dominance {
    choose|tree: Dominance| tree.well_formed() && tree.graph == flow(function.blocks)
}

/// A function in SSA form.
pub open spec fn constructed(function: FunctionView) -> FunctionView {
    let tree = tree_of(function);
    let end = walked(walk_start(function), tree, wanted(function, tree));
    let renamed = FunctionView { blocks: end.blocks, names: end.names.names, ..function };
    FunctionView {
        params: Seq::new(
            function.params.len(),
            |i: int| arrived(renamed, i + leading(function.ret))->0,
        ),
        ..renamed
    }
}

/// Whether a function can be put into SSA form: control gets to every block,
/// nothing is handed along an edge yet, every parameter arrives in the entry
/// block, and the registers there are to be can be numbered.
pub open spec fn constructible(function: FunctionView) -> bool {
    &&& well_formed(function)
    &&& all_reached(function.blocks)
    &&& hands_nothing(function.blocks)
    &&& parameters_arrive(function)
    &&& constructed(function).names.len() <= u32::MAX
}

// -- one tree ---------------------------------------------------------------

/// A function has one dominator tree.
pub proof fn tree_is(function: FunctionView, tree: Dominance)
    requires
        tree.well_formed(),
        tree.graph == flow(function.blocks),
    ensures
        tree_of(function) == tree,
{
    let other = tree_of(function);
    assert(other.well_formed() && other.graph == flow(function.blocks));
    assert forall|b: int| 0 <= b < tree.idom.len() implies tree.idom[b] == other.idom[b] by {
        if b > 0 {
            assert(0 <= tree.idom[b] < tree.graph.len());
            assert(0 <= other.idom[b] < tree.graph.len());
            assert(reaches(tree.graph, 0, tree.idom[b]));
            idom_is_unique(tree.graph, tree.idom[b], other.idom[b], b);
        }
    }
    assert(tree.idom =~= other.idom);
}

// -- names only grow --------------------------------------------------------

pub proof fn params_grow(start: Renaming, variables: Seq<VReg>, a: int, b: int)
    requires
        0 <= a <= b,
    ensures
        renamed_params(start, variables, a).1.names.names.len() + (b - a) == renamed_params(
            start,
            variables,
            b,
        ).1.names.names.len(),
    decreases b - a,
{
    if a < b {
        params_grow(start, variables, a, b - 1);
    }
}

pub proof fn instrs_grow(start: Renaming, instrs: Seq<InstrView>, a: int, b: int)
    requires
        0 <= a <= b,
    ensures
        renamed_instrs(start, instrs, a).1.names.names.len() <= renamed_instrs(
            start,
            instrs,
            b,
        ).1.names.names.len(),
    decreases b - a,
{
    if a < b {
        instrs_grow(start, instrs, a, b - 1);
    }
}

pub proof fn walk_grows(walk: Walk, tree: Dominance, wants: Seq<Seq<VReg>>)
    ensures
        walk.names.names.len() <= walked(walk, tree, wants).names.names.len(),
        walk.steps.len() > 0 ==> walk_step(walk, tree, wants).names.names.len() <= walked(
            walk,
            tree,
            wants,
        ).names.names.len(),
    decreases lowered(walk.done), walk.steps.len(),
{
    if walk.steps.len() > 0 {
        let (at, env) = walk.steps.last();
        let next = walk_step(walk, tree, wants);
        if 0 <= at < walk.done.len() && !walk.done[at] {
            raising_one(walk.done, at);
        }
        walk_grows(next, tree, wants);
        if 0 <= at < walk.blocks.len() && 0 <= at < walk.done.len() && !walk.done[at] {
            let start = Renaming { names: walk.names, env };
            params_grow(start, wants[at], 0, wants[at].len() as int);
            let entered = renamed_params(start, wants[at], wants[at].len() as int).1;
            instrs_grow(entered, walk.blocks[at].instrs, 0, walk.blocks[at].instrs.len() as int);
        }
    }
}

// -- renaming ---------------------------------------------------------------

/// Whether what a walk carries is about a function with so many variables.
pub open spec fn about(at: Renaming, original: nat) -> bool {
    &&& at.env.len() == original
    &&& at.names.spent.len() == original
    &&& original <= at.names.names.len()
}

/// Whether every variable asked for is one there is.
pub open spec fn variables_within(wants: Seq<Seq<VReg>>, original: nat) -> bool {
    forall|b: int, i: int|
        #![trigger wants[b][i]]
        0 <= b < wants.len() && 0 <= i < wants[b].len() ==> wants[b][i].0 < original
}

fn define(variable: VReg, env: &mut Vec<Option<VReg>>, names: &mut Names) -> (fresh: VReg)
    requires
        variable.0 < old(env)@.len(),
        about((Renaming { names: old(names)@, env: old(env)@ }), old(env)@.len()),
        old(names)@.names.len() < u32::MAX,
    ensures
        fresh == old(names)@.fresh(),
        (Renaming { names: final(names)@, env: final(env)@ }) == (Renaming {
            names: old(names)@,
            env: old(env)@,
        }).defining(variable),
{
    let fresh: VReg = names.version(variable);
    env.set(variable.0 as usize, Some(fresh));
    fresh
}

/// Replace a register operand with the definition reaching it.
fn substitute(value: Value, env: &Vec<Option<VReg>>) -> (renamed: Value)
    ensures
        renamed == renamed_value(env@, value),
{
    if let Value::Reg(reg) = value {
        if (reg.0 as usize) < env.len() {
            if let Some(name) = env[reg.0 as usize] {
                return Value::Reg(name);
            }
        }
    }
    value
}

fn substitute_all(values: &Vec<Value>, env: &Vec<Option<VReg>>) -> (renamed: Vec<Value>)
    ensures
        renamed@ == renamed_values(env@, values@),
{
    let mut renamed: Vec<Value> = Vec::new();
    let mut i: usize = 0;
    while i < values.len()
        invariant
            i <= values@.len(),
            renamed@.len() == i,
            forall|k: int|
                0 <= k < i ==> #[trigger] renamed@[k] == renamed_value(env@, values@[k]),
        decreases values@.len() - i,
    {
        renamed.push(substitute(values[i], env));
        i = i + 1;
    }
    assert(renamed@ =~= renamed_values(env@, values@));
    renamed
}

/// Other operands write what the first did.
pub proof fn operands_keep_written(instr: InstrView, operands: Seq<Value>)
    ensures
        instr.with_operands(operands).written() == instr.written(),
{
}

fn rename_params(
    variables: &Vec<VReg>,
    env: &mut Vec<Option<VReg>>,
    names: &mut Names,
) -> (params: Vec<VReg>)
    requires
        about((Renaming { names: old(names)@, env: old(env)@ }), old(env)@.len()),
        forall|i: int| 0 <= i < variables@.len() ==> (#[trigger] variables@[i]).0 < old(env)@.len(),
        old(names)@.names.len() + variables@.len() <= u32::MAX,
    ensures
        about((Renaming { names: final(names)@, env: final(env)@ }), old(env)@.len()),
        (params@, (Renaming { names: final(names)@, env: final(env)@ })) == renamed_params(
            (Renaming { names: old(names)@, env: old(env)@ }),
            variables@,
            variables@.len() as int,
        ),
{
    let ghost start = Renaming { names: names@, env: env@ };
    let mut params: Vec<VReg> = Vec::new();
    let mut i: usize = 0;
    while i < variables.len()
        invariant
            i <= variables@.len(),
            start.env.len() == env@.len(),
            about((Renaming { names: names@, env: env@ }), start.env.len()),
            forall|i: int|
                0 <= i < variables@.len() ==> (#[trigger] variables@[i]).0 < start.env.len(),
            names@.names.len() + (variables@.len() - i) <= u32::MAX,
            (params@, (Renaming { names: names@, env: env@ })) == renamed_params(
                start,
                variables@,
                i as int,
            ),
        decreases variables@.len() - i,
    {
        let fresh: VReg = define(variables[i], env, names);
        params.push(fresh);
        i = i + 1;
    }
    params
}

fn rename_instrs(
    instrs: &mut Vec<Instr>,
    env: &mut Vec<Option<VReg>>,
    names: &mut Names,
)
    requires
        about((Renaming { names: old(names)@, env: old(env)@ }), old(env)@.len()),
        forall|k: int|
            0 <= k < old(instrs)@.len() ==> instr_within(
                #[trigger] instr_views(old(instrs)@)[k],
                old(env)@.len(),
            ),
        renamed_instrs(
            (Renaming { names: old(names)@, env: old(env)@ }),
            instr_views(old(instrs)@),
            old(instrs)@.len() as int,
        ).1.names.names.len() <= u32::MAX,
    ensures
        about((Renaming { names: final(names)@, env: final(env)@ }), old(env)@.len()),
        (instr_views(final(instrs)@), (Renaming { names: final(names)@, env: final(env)@ }))
            == renamed_instrs(
            (Renaming { names: old(names)@, env: old(env)@ }),
            instr_views(old(instrs)@),
            old(instrs)@.len() as int,
        ),
{
    let ghost start = Renaming { names: names@, env: env@ };
    let ghost views = instr_views(instrs@);
    let count: usize = instrs.len();
    let mut k: usize = 0;
    while k < count
        invariant
            k <= count == instrs@.len(),
            views.len() == count,
            start.env.len() == env@.len(),
            about((Renaming { names: names@, env: env@ }), start.env.len()),
            forall|k: int|
                0 <= k < count ==> instr_within(#[trigger] views[k], start.env.len()),
            renamed_instrs(start, views, count as int).1.names.names.len() <= u32::MAX,
            (Renaming { names: names@, env: env@ }) == renamed_instrs(start, views, k as int).1,
            renamed_instrs(start, views, k as int).0.len() == k,
            forall|j: int|
                0 <= j < k ==> (#[trigger] instrs@[j])@ == renamed_instrs(
                    start,
                    views,
                    k as int,
                ).0[j],
            forall|j: int| k <= j < count ==> (#[trigger] instrs@[j])@ == views[j],
        decreases count - k,
    {
        let ghost before = instrs@;
        let ghost at = Renaming { names: names@, env: env@ };
        assert(before[k as int]@ == views[k as int]);
        assert(instr_within(views[k as int], start.env.len()));
        let values: Vec<Value> = instrs[k].values();
        let renamed: Vec<Value> = substitute_all(&values, env);
        let defined: Option<VReg> = instrs[k].def();
        instrs[k].values_mut(renamed);
        proof {
            operands_keep_written(views[k as int], renamed@);
            instrs_grow(start, views, k + 1, count as int);
        }
        if let Some(variable) = defined {
            let fresh: VReg = define(variable, env, names);
            instrs[k].set_def(fresh);
        }
        proof {
            assert(instrs@[k as int]@ == renamed_instr(at, views[k as int]).0);
            assert forall|j: int| 0 <= j < k + 1 implies (#[trigger] instrs@[j])@
                == renamed_instrs(start, views, k + 1).0[j] by {
                if j < k {
                    assert(instrs@[j] == before[j]);
                }
            }
            assert forall|j: int| k + 1 <= j < count implies (#[trigger] instrs@[j])@
                == views[j] by {
                assert(instrs@[j] == before[j]);
            }
        }
        k = k + 1;
    }
    assert(instr_views(instrs@) =~= renamed_instrs(start, views, count as int).0);
}

/// What an edge hands its block.
fn arguments(variables: &Vec<VReg>, env: &Vec<Option<VReg>>) -> (args: Vec<Value>)
    requires
        forall|i: int| 0 <= i < variables@.len() ==> (#[trigger] variables@[i]).0 < env@.len(),
    ensures
        args@ == variables@.map_values(|reg: VReg| handed(env@, reg)),
{
    let mut args: Vec<Value> = Vec::new();
    let mut i: usize = 0;
    while i < variables.len()
        invariant
            i <= variables@.len(),
            forall|i: int| 0 <= i < variables@.len() ==> (#[trigger] variables@[i]).0 < env@.len(),
            args@.len() == i,
            forall|k: int| 0 <= k < i ==> #[trigger] args@[k] == handed(env@, variables@[k]),
        decreases variables@.len() - i,
    {
        let arg: Value = match env[variables[i].0 as usize] {
            Some(name) => Value::Reg(name),
            None => Value::Const(0),
        };
        args.push(arg);
        i = i + 1;
    }
    assert(args@ =~= variables@.map_values(|reg: VReg| handed(env@, reg)));
    args
}

/// The lists of a run of lists.
pub open spec fn lists_of(lists: Seq<Vec<VReg>>) -> Seq<Seq<VReg>> {
    lists.map_values(|list: Vec<VReg>| list@)
}

fn rename_term(term: &mut Terminator, env: &Vec<Option<VReg>>, wants: &Vec<Vec<VReg>>)
    requires
        variables_within(lists_of(wants@), env@.len()),
        forall|i: int|
            0 <= i < old(term)@.targets().len() ==> (#[trigger] old(term)@.targets()[i]).block.0
                < wants@.len(),
    ensures
        final(term)@ == renamed_term(env@, old(term)@, lists_of(wants@)),
{
    let ghost lists = lists_of(wants@);
    let values: Vec<Value> = term.values();
    let renamed: Vec<Value> = substitute_all(&values, env);
    term.values_mut(renamed);
    let ghost with = term@;
    assert(with == old(term)@.with_operands(renamed_values(env@, old(term)@.operands())));
    assert forall|i: int| 0 <= i < with.targets().len() implies (
    #[trigger] with.targets()[i]).block.0 < wants@.len() by {
        assert(with.targets()[i].block == old(term)@.targets()[i].block);
    }
    let mut targets: Vec<Target> = Vec::new();
    let successors: Vec<BlockId> = term.successors();
    let mut i: usize = 0;
    while i < successors.len()
        invariant
            i <= successors@.len(),
            with == term@,
            lists == lists_of(wants@),
            variables_within(lists, env@.len()),
            successors@ == with.successors(),
            forall|i: int|
                0 <= i < with.targets().len() ==> (#[trigger] with.targets()[i]).block.0
                    < wants@.len(),
            targets@.len() == i,
            forall|k: int|
                0 <= k < i ==> (#[trigger] targets@[k])@ == renamed_target(
                    env@,
                    with.targets()[k],
                    lists,
                ),
        decreases successors@.len() - i,
    {
        let block: BlockId = successors[i];
        assert(with.targets()[i as int].block == block);
        let ghost b = block.0 as int;
        assert forall|j: int| 0 <= j < wants@[b]@.len() implies (#[trigger] wants@[b]@[j]).0
            < env@.len() by {
            assert(lists[b][j].0 < env@.len());
        }
        let args: Vec<Value> = arguments(&wants[block.0 as usize], env);
        assert(lists[b] == wants@[b]@);
        targets.push(Target { block, args });
        i = i + 1;
    }
    proof {
        let views = targets@.map_values(|target: Target| target@);
        assert(views =~= with.targets().map_values(
            |target: TargetView| renamed_target(env@, target, lists),
        ));
    }
    term.targets_mut(targets);
}

fn rename_block(
    block: &mut Block,
    wants: &Vec<Vec<VReg>>,
    at: usize,
    env: &mut Vec<Option<VReg>>,
    names: &mut Names,
)
    requires
        at < wants@.len(),
        about((Renaming { names: old(names)@, env: old(env)@ }), old(env)@.len()),
        variables_within(lists_of(wants@), old(env)@.len()),
        block_within(old(block)@, old(env)@.len(), wants@.len()),
        renamed_block(
            (Renaming { names: old(names)@, env: old(env)@ }),
            old(block)@,
            lists_of(wants@),
            at as int,
        ).1.names.names.len() <= u32::MAX,
    ensures
        about((Renaming { names: final(names)@, env: final(env)@ }), old(env)@.len()),
        (final(block)@, (Renaming { names: final(names)@, env: final(env)@ })) == renamed_block(
            (Renaming { names: old(names)@, env: old(env)@ }),
            old(block)@,
            lists_of(wants@),
            at as int,
        ),
{
    let ghost start = Renaming { names: names@, env: env@ };
    let ghost lists = lists_of(wants@);
    let ghost view = block@;
    proof {
        assert(lists[at as int] == wants@[at as int]@);
        let entered = renamed_params(start, lists[at as int], lists[at as int].len() as int).1;
        params_grow(start, lists[at as int], 0, lists[at as int].len() as int);
        instrs_grow(entered, view.instrs, 0, view.instrs.len() as int);
        assert forall|i: int| 0 <= i < wants@[at as int]@.len() implies (
        #[trigger] wants@[at as int]@[i]).0 < env@.len() by {
            assert(lists[at as int][i].0 < env@.len());
        }
    }
    let params: Vec<VReg> = rename_params(&wants[at], env, names);
    block.params = params;
    rename_instrs(&mut block.instrs, env, names);
    rename_term(&mut block.term, env, wants);
}

fn copied(env: &Vec<Option<VReg>>) -> (copy: Vec<Option<VReg>>)
    ensures
        copy@ == env@,
{
    let mut copy: Vec<Option<VReg>> = Vec::new();
    let mut i: usize = 0;
    while i < env.len()
        invariant
            i <= env@.len(),
            copy@ == env@.take(i as int),
        decreases env@.len() - i,
    {
        copy.push(env[i]);
        assert(env@.take(i + 1) =~= env@.take(i as int).push(env@[i as int]));
        i = i + 1;
    }
    assert(copy@ =~= env@);
    copy
}

/// What steps are left, as what they say.
pub open spec fn steps_of(steps: Seq<(usize, Vec<Option<VReg>>)>) -> Seq<(int, Env)> {
    steps.map_values(|step: (usize, Vec<Option<VReg>>)| (step.0 as int, step.1@))
}

/// Walk the dominator tree, giving each definition a register of its own.
pub(super) fn walk(
    function: &mut Function,
    names: &mut Names,
    children: &Vec<Vec<BlockId>>,
    wants: &Vec<Vec<VReg>>,
    Ghost(tree): Ghost<Dominance>,
    Ghost(whole): Ghost<FunctionView>,
)
    requires
        well_formed(whole),
        old(function)@ == (FunctionView { names: seq![], ..whole }),
        old(names)@ == NamesView::of(whole.names),
        tree.well_formed(),
        tree.graph == flow(whole.blocks),
        children@.len() == whole.blocks.len(),
        forall|parent: int|
            0 <= parent < children@.len() ==> (#[trigger] children@[parent])@ == tree.children(
                parent,
            ),
        wants@.len() == whole.blocks.len(),
        variables_within(lists_of(wants@), whole.names.len()),
        walked(walk_start(whole), tree, lists_of(wants@)).names.names.len() <= u32::MAX,
    ensures
        final(names)@ == walked(walk_start(whole), tree, lists_of(wants@)).names,
        final(function)@ == (FunctionView {
            blocks: walked(walk_start(whole), tree, lists_of(wants@)).blocks,
            ..old(function)@
        }),
        final(function).params == old(function).params,
{
    let ghost lists = lists_of(wants@);
    let ghost original = whole.names.len();
    let ghost empty = *function;
    let count: usize = function.blocks.len();
    let mut done: Vec<bool> = Vec::new();
    let mut i: usize = 0;
    while i < count
        invariant
            i <= count,
            done@.len() == i,
            forall|k: int| 0 <= k < i ==> !done@[k],
        decreases count - i,
    {
        done.push(false);
        i = i + 1;
    }
    let mut env: Vec<Option<VReg>> = Vec::new();
    let mut i: usize = 0;
    let total: usize = names.count();
    while i < total
        invariant
            i <= total,
            env@.len() == i,
            forall|k: int| 0 <= k < i ==> env@[k] is None,
        decreases total - i,
    {
        env.push(None);
        i = i + 1;
    }
    let mut steps: Vec<(usize, Vec<Option<VReg>>)> = Vec::new();
    let ghost no_env = env@;
    steps.push((0, env));
    proof {
        assert(no_env =~= Seq::new(whole.names.len(), |i: int| None::<VReg>));
        assert(steps_of(steps@) =~= walk_start(whole).steps);
        assert(done@ =~= walk_start(whole).done);
        assert(Walk {
            blocks: function@.blocks,
            names: names@,
            steps: steps_of(steps@),
            done: done@,
        } =~= walk_start(whole));
    }
    // An explicit stack: a function nested a thousand deep would otherwise
    // recurse a thousand deep here.
    while steps.len() > 0
        invariant
            well_formed(whole),
            original == whole.names.len(),
            lists == lists_of(wants@),
            count == whole.blocks.len(),
            tree.well_formed(),
            tree.graph == flow(whole.blocks),
            children@.len() == count,
            forall|parent: int|
                0 <= parent < children@.len() ==> (#[trigger] children@[parent])@ == tree.children(
                    parent,
                ),
            wants@.len() == count,
            variables_within(lists, original),
            walked(walk_start(whole), tree, lists).names.names.len() <= u32::MAX,
            function@ == (FunctionView { blocks: function@.blocks, ..empty@ }),
            function.params == empty.params,
            function.blocks@.len() == count,
            done@.len() == count,
            names@.spent.len() == original,
            original <= names@.names.len(),
            forall|k: int| 0 <= k < steps@.len() ==> (#[trigger] steps@[k]).1@.len() == original,
            forall|b: int|
                0 <= b < count && !#[trigger] done@[b] ==> function@.blocks[b] == whole.blocks[b],
            walked(
                (Walk {
                    blocks: function@.blocks,
                    names: names@,
                    steps: steps_of(steps@),
                    done: done@,
                }),
                tree,
                lists,
            ) == walked(walk_start(whole), tree, lists),
        decreases lowered(done@), steps@.len(),
    {
        let ghost now = Walk {
            blocks: function@.blocks,
            names: names@,
            steps: steps_of(steps@),
            done: done@,
        };
        let ghost steps_before = steps@;
        let ghost function_before = *function;
        proof {
            walk_grows(now, tree, lists);
        }
        let popped: Option<(usize, Vec<Option<VReg>>)> = steps.pop();
        assert(steps_before.last() == popped->0);
        assert(steps_of(steps@) =~= now.steps.drop_last());
        match popped {
            None => {},
            Some((at, held)) => {
                let mut env: Vec<Option<VReg>> = held;
                assert(now.steps.last() == (at as int, env@));
                assert(steps_before[steps_before.len() - 1].1@.len() == original);
                if at < count && !done[at] {
                    proof {
                        raising_one(done@, at as int);
                        assert(function@.blocks[at as int] == whole.blocks[at as int]);
                        assert(function.blocks@[at as int]@ == function@.blocks[at as int]);
                        assert(block_within(
                            whole.blocks[at as int],
                            original,
                            whole.blocks.len(),
                        ));
                    }
                    let ghost start = Renaming { names: names@, env: env@ };
                    rename_block(&mut function.blocks[at], wants, at, &mut env, names);
                    let ghost left = Renaming { names: names@, env: env@ };
                    done.set(at, true);
                    proof {
                        assert(function@.blocks =~= now.blocks.update(
                            at as int,
                            renamed_block(start, now.blocks[at as int], lists, at as int).0,
                        ));
                    }
                    let ghost rest = steps@;
                    let list: &Vec<BlockId> = &children[at];
                    let mut c: usize = 0;
                    assert(steps_of(steps@) =~= steps_of(rest) + next_steps(
                        list@.take(0),
                        left.env,
                    ));
                    while c < list.len()
                        invariant
                            c <= list@.len(),
                            env@ == left.env,
                            left.env.len() == original,
                            forall|k: int|
                                0 <= k < steps@.len() ==> (#[trigger] steps@[k]).1@.len()
                                    == original,
                            steps_of(steps@) == steps_of(rest) + next_steps(
                                list@.take(c as int),
                                left.env,
                            ),
                        decreases list@.len() - c,
                    {
                        let ghost before = steps@;
                        let child: BlockId = list[c];
                        steps.push((child.0 as usize, copied(&env)));
                        proof {
                            assert(list@.take(c + 1) =~= list@.take(c as int).push(child));
                            assert(steps_of(steps@) =~= steps_of(before).push(
                                (child.0 as int, left.env),
                            ));
                            assert(next_steps(list@.take(c + 1), left.env) =~= next_steps(
                                list@.take(c as int),
                                left.env,
                            ).push((child.0 as int, left.env)));
                            assert(steps_of(rest) + next_steps(list@.take(c + 1), left.env)
                                =~= (steps_of(rest) + next_steps(
                                list@.take(c as int),
                                left.env,
                            )).push((child.0 as int, left.env)));
                        }
                        c = c + 1;
                    }
                    assert(list@.take(c as int) =~= list@);
                }
                proof {
                    let after = Walk {
                        blocks: function@.blocks,
                        names: names@,
                        steps: steps_of(steps@),
                        done: done@,
                    };
                    assert(after =~= walk_step(now, tree, lists));
                    assert(walked(now, tree, lists) == walked(after, tree, lists));
                }
            },
        }
    }
    proof {
        assert(steps_of(steps@).len() == 0);
    }
}

/// The register the argument at `index` arrived in.
pub fn arrived_in(function: &Function, index: u32) -> (reg: Option<VReg>)
    requires
        function.blocks@.len() > 0,
    ensures
        reg == arrived(function@, index as int),
{
    let ghost instrs = function@.blocks[0].instrs;
    assert(function@.blocks[0] == function.blocks@[0]@);
    let list: &Vec<Instr> = &function.blocks[0].instrs;
    let mut i: usize = 0;
    while i < list.len()
        invariant
            i <= list@.len(),
            instrs == instr_views(list@),
            instrs == function@.blocks[0].instrs,
            arrives_in(instrs, index as int, i as int) is None,
        decreases list@.len() - i,
    {
        assert(instrs[i as int] == list@[i as int]@);
        if let Instr::Param { dst, index: at } = &list[i] {
            if *at == index {
                proof {
                    arrived_stays(instrs, index as int, i + 1, instrs.len() as int);
                }
                return Some(*dst);
            }
        }
        i = i + 1;
    }
    None
}

pub proof fn arrived_stays(instrs: Seq<InstrView>, index: int, a: int, b: int)
    requires
        0 <= a <= b,
        arrives_in(instrs, index, a) is Some,
    ensures
        arrives_in(instrs, index, b) == arrives_in(instrs, index, a),
    decreases b - a,
{
    if a < b {
        arrived_stays(instrs, index, a, b - 1);
    }
}

} // verus!
