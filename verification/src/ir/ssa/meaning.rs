//! Why putting a function into SSA form changes nothing it does.
//!
//! A run of a function is followed by a run of what it becomes: block for block
//! and step for step, every operand worth the same. What makes it so is where
//! the parameters go: where a variable is still read and a block has no
//! parameter for it, one definition is all that can reach it.

use vstd::prelude::*;

use super::climb::predecessor_dominated;
use super::construct::construction_leaves_ssa_form;
use super::dom::{
    dominance_is_one_way, dominates, dominates_itself, dominates_through, edges_into, in_degree,
    is_idom, occurrences, Dominance,
};
use super::form::{
    block_renamed, block_same_but_for_registers, children_within, env_within, instrs_numbered,
    params_numbered, renamed_instr_is_the_same, same_but_for_registers, wanted_within,
};
use super::place::{
    defines, meeting_chain, meets_at, source, source_is_definition, source_spreads, wanted,
    wanted_before, wants, written_apart,
};
use super::rename::{
    about, constructed, constructible, handed, next_steps, renamed_block, renamed_instr,
    renamed_instrs, renamed_params, renamed_target, renamed_term, renamed_value, renamed_values,
    tree_of, variables_within, walk_start, walk_step, walked, Env, Renaming, Walk,
};
use crate::graph::{leads, lowered, raising_one, reaches, way_up_to, Graph};
use crate::ir::block::{flow, BlockView, TermView};
use crate::ir::deeds::{
    asks_the_same, deed, does_as, given, is_deed, run_answer, run_deeds, same_deeds,
    same_run_deeds, unnamed, visit_deeds, words,
};
use crate::ir::func::{block_within, hands_nothing, target_args_empty, well_formed, FunctionView};
use crate::ir::halt::{done_before, halts, may_stop, stops_as};
use crate::ir::instr::{instr_within, InstrView};
use crate::ir::liveness::{
    exposed, live_after, live_at, live_through, live_where_exposed, reads_at, reads_only_written,
    writes, written_before,
};
use crate::ir::run::{
    all_written, answers, goes, goes_to, handed_over, held_by, is_execution, may_write,
    nothing_held, steps, visits, Held, Visit,
};
use crate::ir::value::{value_within, VReg, Value};

verus! {

// -- what each block was entered with ---------------------------------------

/// What every variable goes by at the end of a block.
pub open spec fn left_by(
    starts: Seq<Renaming>,
    whole: FunctionView,
    wants: Seq<Seq<VReg>>,
    b: int,
) -> Env {
    renamed_block(starts[b], whole.blocks[b], wants, b).1.env
}

/// Nothing defined yet.
pub open spec fn nothing_defined(count: nat) -> Env {
    Seq::new(count, |i: int| None::<VReg>)
}

/// Whether a block was entered with what its immediate dominator left.
pub open spec fn comes_down(
    starts: Seq<Renaming>,
    whole: FunctionView,
    tree: Dominance,
    wants: Seq<Seq<VReg>>,
    b: int,
    env: Env,
) -> bool {
    if b == 0 {
        env == nothing_defined(whole.names.len())
    } else {
        env == left_by(starts, whole, wants, tree.idom[b])
    }
}

/// Whether a start is about the variables there are.
pub open spec fn starts_about(start: Renaming, original: nat) -> bool {
    about(start, original) && env_within(start.env, start.names.names.len())
}

/// What holds all along the walk of what blocks were entered with.
spec fn starts_well(
    walk: Walk,
    whole: FunctionView,
    tree: Dominance,
    wants: Seq<Seq<VReg>>,
    starts: Seq<Renaming>,
) -> bool {
    let original = whole.names.len();
    &&& starts.len() == whole.blocks.len()
    &&& walk.blocks.len() == whole.blocks.len()
    &&& walk.done.len() == whole.blocks.len()
    &&& walk.names.spent.len() == original <= walk.names.names.len()
    &&& forall|b: int|
        0 <= b < walk.blocks.len() && !walk.done[b] ==> #[trigger] walk.blocks[b]
            == whole.blocks[b]
    &&& forall|b: int|
        0 <= b < walk.blocks.len() && walk.done[b] ==> {
            &&& #[trigger] walk.blocks[b] == renamed_block(
                starts[b],
                whole.blocks[b],
                wants,
                b,
            ).0
            &&& starts_about(starts[b], original)
            &&& renamed_block(starts[b], whole.blocks[b], wants, b).1.names.names.len()
                <= walk.names.names.len()
            &&& b > 0 ==> walk.done[tree.idom[b]]
            &&& comes_down(starts, whole, tree, wants, b, starts[b].env)
        }
    &&& forall|k: int|
        0 <= k < walk.steps.len() ==> {
            let (at, env) = #[trigger] walk.steps[k];
            &&& 0 <= at < whole.blocks.len()
            &&& env.len() == original
            &&& env_within(env, walk.names.names.len())
            &&& at > 0 ==> walk.done[tree.idom[at]]
            &&& comes_down(starts, whole, tree, wants, at, env)
        }
}

/// What each block was entered with, once the walk has nothing left to do.
proof fn walk_has_starts(
    walk: Walk,
    whole: FunctionView,
    tree: Dominance,
    wants: Seq<Seq<VReg>>,
    starts: Seq<Renaming>,
) -> (found: Seq<Renaming>)
    requires
        well_formed(whole),
        tree.well_formed(),
        tree.graph == flow(whole.blocks),
        wants.len() == whole.blocks.len(),
        variables_within(wants, whole.names.len()),
        starts_well(walk, whole, tree, wants, starts),
        walked(walk, tree, wants).names.names.len() <= u32::MAX,
    ensures
        starts_well(walked(walk, tree, wants), whole, tree, wants, found),
    decreases lowered(walk.done), walk.steps.len(),
{
    if walk.steps.len() == 0 {
        starts
    } else {
        let original = whole.names.len();
        let (at, env) = walk.steps.last();
        let rest = walk.steps.drop_last();
        let next = walk_step(walk, tree, wants);
        assert(walk.steps[walk.steps.len() - 1] == (at, env));
        super::rename::walk_grows(walk, tree, wants);
        if walk.done[at] {
            assert(next.steps == rest);
            assert(starts_well(next, whole, tree, wants, starts));
            walk_has_starts(next, whole, tree, wants, starts)
        } else {
            raising_one(walk.done, at);
            let start = Renaming { names: walk.names, env };
            let (block, left) = renamed_block(start, walk.blocks[at], wants, at);
            assert(walk.blocks[at] == whole.blocks[at]);
            assert(block_within(whole.blocks[at], original, whole.blocks.len()));
            block_renamed(start, whole.blocks[at], wants, at, original);
            let now = starts.update(at, start);
            let few = walk.names.names.len();
            let count = left.names.names.len();
            assert(few <= count);
            assert forall|b: int| 0 <= b < starts.len() && b != at implies left_by(
                now,
                whole,
                wants,
                b,
            ) == #[trigger] left_by(starts, whole, wants, b) by {}
            assert forall|b: int| 0 <= b < next.blocks.len() && next.done[b] implies {
                &&& #[trigger] next.blocks[b] == renamed_block(now[b], whole.blocks[b], wants, b).0
                &&& starts_about(now[b], original)
                &&& renamed_block(now[b], whole.blocks[b], wants, b).1.names.names.len() <= count
                &&& b > 0 ==> next.done[tree.idom[b]]
                &&& comes_down(now, whole, tree, wants, b, now[b].env)
            } by {
                if b != at {
                    assert(next.blocks[b] == walk.blocks[b]);
                    if b > 0 {
                        assert(0 <= tree.idom[b] < tree.graph.len());
                        assert(tree.idom[b] != at);
                        assert(left_by(now, whole, wants, tree.idom[b]) == left_by(
                            starts,
                            whole,
                            wants,
                            tree.idom[b],
                        ));
                    }
                } else if b > 0 {
                    assert(0 <= tree.idom[b] < tree.graph.len());
                    assert(tree.idom[b] != at);
                    assert(left_by(now, whole, wants, tree.idom[b]) == left_by(
                        starts,
                        whole,
                        wants,
                        tree.idom[b],
                    ));
                }
            }
            let added = next_steps(tree.children(at), left.env);
            children_within(tree, at, tree.graph.len() as int);
            assert forall|k: int| 0 <= k < next.steps.len() implies {
                let (to, env) = #[trigger] next.steps[k];
                &&& 0 <= to < whole.blocks.len()
                &&& env.len() == original
                &&& env_within(env, count)
                &&& to > 0 ==> next.done[tree.idom[to]]
                &&& comes_down(now, whole, tree, wants, to, env)
            } by {
                if k < rest.len() {
                    assert(next.steps[k] == walk.steps[k]);
                    let (to, env) = walk.steps[k];
                    if to > 0 {
                        assert(0 <= tree.idom[to] < tree.graph.len());
                        assert(tree.idom[to] != at);
                        assert(left_by(now, whole, wants, tree.idom[to]) == left_by(
                            starts,
                            whole,
                            wants,
                            tree.idom[to],
                        ));
                    }
                } else {
                    let j = k - rest.len();
                    assert(next.steps[k] == added[j]);
                    child_of(tree, at, tree.graph.len() as int, j);
                }
            }
            assert(next.names == left.names);
            assert(next.names.spent.len() == original);
            assert forall|b: int| 0 <= b < next.blocks.len() && !next.done[b] implies
                #[trigger] next.blocks[b] == whole.blocks[b] by {
                assert(next.blocks[b] == walk.blocks[b]);
            }
            assert(starts_well(next, whole, tree, wants, now));
            walk_has_starts(next, whole, tree, wants, now)
        }
    }
}

proof fn child_of(tree: Dominance, parent: int, n: int, k: int)
    requires
        0 <= n <= tree.graph.len() <= u32::MAX,
        0 <= k < tree.children_before(parent, n).len(),
    ensures
        0 < tree.children_before(parent, n)[k].0 < n,
        tree.idom[tree.children_before(parent, n)[k].0 as int] == parent,
    decreases n,
{
    if n > 1 {
        let rest = tree.children_before(parent, n - 1);
        if k < rest.len() {
            child_of(tree, parent, n - 1, k);
        }
    }
}

/// Whether every block is what it was, renamed from what its immediate dominator
/// left.
pub open spec fn renamed_from(
    starts: Seq<Renaming>,
    whole: FunctionView,
    after: FunctionView,
    tree: Dominance,
    wants: Seq<Seq<VReg>>,
) -> bool {
    &&& starts.len() == whole.blocks.len() == after.blocks.len() == wants.len()
    &&& variables_within(wants, whole.names.len())
    &&& forall|b: int| 0 <= b < starts.len() ==> #[trigger] starts_about(starts[b], whole.names.len())
    &&& forall|b: int|
        0 <= b < starts.len() ==> #[trigger] after.blocks[b] == renamed_block(
            starts[b],
            whole.blocks[b],
            wants,
            b,
        ).0
    &&& forall|b: int|
        0 <= b < starts.len() ==> #[trigger] renamed_block(
            starts[b],
            whole.blocks[b],
            wants,
            b,
        ).1.names.names.len() <= after.names.len()
    &&& forall|b: int|
        0 <= b < starts.len() ==> comes_down(
            starts,
            whole,
            tree,
            wants,
            b,
            #[trigger] starts[b].env,
        )
}

/// A constructed function is its blocks, each renamed from what its immediate
/// dominator left.
pub proof fn construction_renames(function: FunctionView) -> (starts: Seq<Renaming>)
    requires
        constructible(function),
    ensures
        tree_of(function).well_formed(),
        tree_of(function).graph == flow(function.blocks),
        renamed_from(
            starts,
            function,
            constructed(function),
            tree_of(function),
            wanted(function, tree_of(function)),
        ),
{
    super::construct::function_has_a_tree(function);
    let tree = tree_of(function);
    let lists = wanted(function, tree);
    let start = walk_start(function);
    let end = walked(start, tree, lists);
    let original = function.names.len();
    wanted_within(function, tree);
    let blank = Seq::new(
        function.blocks.len(),
        |b: int| Renaming { names: start.names, env: nothing_defined(original) },
    );
    assert(start.steps[0].1 =~= nothing_defined(original));
    assert(starts_well(start, function, tree, lists, blank));
    let starts = walk_has_starts(start, function, tree, lists, blank);
    super::form::walk_enters_all(function, tree);
    let after = constructed(function);
    assert forall|b: int| 0 <= b < starts.len() implies #[trigger] starts_about(
        starts[b],
        original,
    ) by {
        assert(end.done[b]);
        assert(end.blocks[b] == end.blocks[b]);
    }
    assert forall|b: int| 0 <= b < starts.len() implies #[trigger] after.blocks[b]
        == renamed_block(starts[b], function.blocks[b], lists, b).0 by {
        assert(end.done[b]);
        assert(end.blocks[b] == after.blocks[b]);
    }
    assert forall|b: int| 0 <= b < starts.len() implies #[trigger] renamed_block(
        starts[b],
        function.blocks[b],
        lists,
        b,
    ).1.names.names.len() <= after.names.len() by {
        assert(end.done[b]);
        assert(end.blocks[b] == after.blocks[b]);
    }
    assert forall|b: int| 0 <= b < starts.len() implies comes_down(
        starts,
        function,
        tree,
        lists,
        b,
        #[trigger] starts[b].env,
    ) by {
        assert(end.done[b]);
        assert(end.blocks[b] == after.blocks[b]);
    }
    starts
}

// -- edges and dominators ---------------------------------------------------

proof fn edges_into_grow(graph: Graph, c: int, a: int, b: int)
    requires
        0 <= a <= b <= graph.len(),
    ensures
        edges_into(graph, c, a) <= edges_into(graph, c, b),
    decreases b - a,
{
    if a < b {
        edges_into_grow(graph, c, a, b - 1);
    }
}

proof fn occurs(list: Seq<int>, c: int)
    requires
        list.contains(c),
    ensures
        occurrences(list, c) >= 1,
    decreases list.len(),
{
    if list.last() != c {
        let k = choose|k: int| 0 <= k < list.len() && list[k] == c;
        assert(list.drop_last()[k] == c);
        occurs(list.drop_last(), c);
    }
}

/// Two predecessors are two edges.
proof fn two_edges(graph: Graph, c: int, p: int, q: int)
    requires
        0 <= p < q < graph.len(),
        graph[p].contains(c),
        graph[q].contains(c),
    ensures
        in_degree(graph, c) >= 2,
{
    occurs(graph[p], c);
    occurs(graph[q], c);
    edges_into_grow(graph, c, p + 1, q);
    edges_into_grow(graph, c, q + 1, graph.len() as int);
}

/// Some other node leads to any node that is come to.
proof fn another_leads(graph: Graph, c: int, path: Seq<int>) -> (p: int)
    requires
        leads(graph, path, 0, c),
        c != 0,
    ensures
        0 <= p < graph.len(),
        graph[p].contains(c),
        p != c,
    decreases path.len(),
{
    crate::graph::last_step(graph, path, 0, c);
    let p = path[path.len() - 2];
    assert(0 <= path[path.len() - 2] < graph.len());
    if p == c {
        another_leads(graph, c, path.drop_last())
    } else {
        p
    }
}

/// Where one edge goes in, it comes from the immediate dominator.
proof fn one_edge_is_the_dominators(tree: Dominance, b: int, c: int)
    requires
        tree.well_formed(),
        0 <= b < tree.graph.len(),
        0 < c < tree.graph.len(),
        tree.graph[b].contains(c),
        in_degree(tree.graph, c) < 2,
    ensures
        tree.idom[c] == b,
{
    let graph = tree.graph;
    let d = tree.idom[c];
    assert(0 <= tree.idom[c] < graph.len() && is_idom(graph, d, c));
    assert forall|p: int| 0 <= p < graph.len() && #[trigger] graph[p].contains(c) implies p
        == b by {
        if p < b {
            two_edges(graph, c, p, b);
        } else if p > b {
            two_edges(graph, c, b, p);
        }
    }
    assert(reaches(graph, 0, c));
    if b == c {
        let path = choose|path: Seq<int>| leads(graph, path, 0, c);
        let p = another_leads(graph, c, path);
        assert(graph[p].contains(c));
    }
    assert forall|path: Seq<int>| #[trigger] leads(graph, path, 0, c) implies path.contains(b) by {
        crate::graph::last_step(graph, path, 0, c);
        assert(0 <= path[path.len() - 2] < graph.len());
        assert(path[path.len() - 2] == b);
    }
    assert(dominates(graph, b, c));
    assert(dominates(graph, b, d));
    predecessor_dominated(graph, d, b, c);
    assert(reaches(graph, 0, b));
    let path = choose|path: Seq<int>| leads(graph, path, 0, b);
    dominance_is_one_way(graph, b, d, path);
}

// -- one definition reaches -------------------------------------------------

proof fn params_leave(start: Renaming, variables: Seq<VReg>, n: int, v: int)
    requires
        0 <= n <= variables.len(),
        0 <= v < start.env.len(),
        forall|i: int|
            0 <= i < n ==> (#[trigger] variables[i]).0 != v && variables[i].0 < start.env.len(),
    ensures
        renamed_params(start, variables, n).1.env.len() == start.env.len(),
        renamed_params(start, variables, n).1.env[v] == start.env[v],
    decreases n,
{
    if n > 0 {
        params_leave(start, variables, n - 1, v);
        assert(variables[n - 1].0 != v && variables[n - 1].0 < start.env.len());
    }
}

proof fn instrs_leave(start: Renaming, instrs: Seq<InstrView>, n: int, v: int)
    requires
        0 <= n <= instrs.len(),
        0 <= v < start.env.len(),
        forall|k: int|
            0 <= k < n ==> #[trigger] instrs[k].written() != Some(VReg(v as u32)) && instr_within(
                instrs[k],
                start.env.len(),
            ),
        v <= u32::MAX,
    ensures
        renamed_instrs(start, instrs, n).1.env.len() == start.env.len(),
        renamed_instrs(start, instrs, n).1.env[v] == start.env[v],
    decreases n,
{
    if n > 0 {
        instrs_leave(start, instrs, n - 1, v);
        assert(instrs[n - 1].written() != Some(VReg(v as u32)) && instr_within(
            instrs[n - 1],
            start.env.len(),
        ));
        if let Some(reg) = instrs[n - 1].written() {
            assert(reg.0 != v);
        }
    }
}

/// The variables a block wants parameters for are those it wants parameters for,
/// each once.
pub proof fn wanted_are(function: FunctionView, tree: Dominance, at: int, n: int, v: int)
    requires
        0 <= n <= u32::MAX,
        0 <= v <= u32::MAX,
    ensures
        wanted_before(function, tree, at, n).contains(VReg(v as u32)) == (v < n && wants(
            function,
            tree,
            VReg(v as u32),
            at,
        )),
    decreases n,
{
    let list = wanted_before(function, tree, at, n);
    let reg = VReg(v as u32);
    if n > 0 {
        wanted_are(function, tree, at, n - 1, v);
        let rest = wanted_before(function, tree, at, n - 1);
        if rest.contains(reg) {
            let k = choose|k: int| 0 <= k < rest.len() && rest[k] == reg;
            assert(list[k] == reg);
        }
        if list.contains(reg) {
            let k = choose|k: int| 0 <= k < list.len() && list[k] == reg;
            if k < rest.len() {
                assert(rest[k] == reg);
            }
        }
        if v == n - 1 && wants(function, tree, reg, at) {
            assert(list.last() == reg);
            assert(list[list.len() - 1] == reg);
        }
    }
}

proof fn wanted_rise(function: FunctionView, tree: Dominance, at: int, n: int)
    requires
        0 <= n <= u32::MAX,
    ensures
        forall|i: int, j: int|
            0 <= i < j < wanted_before(function, tree, at, n).len() ==> (#[trigger] wanted_before(
                function,
                tree,
                at,
                n,
            )[i]).0 < (#[trigger] wanted_before(function, tree, at, n)[j]).0,
        forall|i: int|
            0 <= i < wanted_before(function, tree, at, n).len() ==> (#[trigger] wanted_before(
                function,
                tree,
                at,
                n,
            )[i]).0 < n,
    decreases n,
{
    if n > 0 {
        wanted_rise(function, tree, at, n - 1);
        let list = wanted_before(function, tree, at, n);
        let rest = wanted_before(function, tree, at, n - 1);
        assert forall|i: int| 0 <= i < list.len() implies (#[trigger] list[i]).0 < n by {
            if i < rest.len() {
                assert(list[i] == rest[i]);
            }
        }
        assert forall|i: int, j: int| 0 <= i < j < list.len() implies (#[trigger] list[i]).0 < (
        #[trigger] list[j]).0 by {
            assert(list[i] == rest[i]);
            if j < rest.len() {
                assert(list[j] == rest[j]);
            }
        }
    }
}

/// A block that neither defines a variable nor takes one for it leaves what it
/// went by.
proof fn block_leaves(
    start: Renaming,
    block: BlockView,
    lists: Seq<Seq<VReg>>,
    at: int,
    v: int,
)
    requires
        0 <= v < start.env.len(),
        v <= u32::MAX,
        0 <= at < lists.len(),
        variables_within(lists, start.env.len()),
        forall|k: int|
            0 <= k < block.instrs.len() ==> instr_within(
                #[trigger] block.instrs[k],
                start.env.len(),
            ),
        !lists[at].contains(VReg(v as u32)),
        !defines(block, VReg(v as u32)),
    ensures
        renamed_block(start, block, lists, at).1.env[v] == start.env[v],
{
    let variables = lists[at];
    assert forall|i: int| 0 <= i < variables.len() implies (#[trigger] variables[i]).0 != v
        && variables[i].0 < start.env.len() by {
        assert(lists[at][i].0 < start.env.len());
        if variables[i].0 == v {
            assert(variables[i] == VReg(v as u32));
        }
    }
    params_leave(start, variables, variables.len() as int, v);
    let entered = renamed_params(start, variables, variables.len() as int).1;
    instrs_leave(entered, block.instrs, block.instrs.len() as int, v);
}

/// What a variable goes by comes down unchanged through blocks that neither
/// define it nor take one for it.
proof fn comes_down_unchanged(
    function: FunctionView,
    after: FunctionView,
    tree: Dominance,
    starts: Seq<Renaming>,
    b: int,
    d: int,
    v: int,
    path: Seq<int>,
)
    requires
        well_formed(function),
        tree.well_formed(),
        tree.graph == flow(function.blocks),
        renamed_from(starts, function, after, tree, wanted(function, tree)),
        0 <= b < function.blocks.len(),
        0 <= d < function.blocks.len(),
        0 <= v < function.names.len(),
        dominates(tree.graph, d, b),
        leads(tree.graph, path, 0, b),
        forall|x: int|
            0 <= x < function.blocks.len() && x != d && #[trigger] dominates(tree.graph, d, x)
                && dominates(tree.graph, x, b) ==> !defines(
                function.blocks[x],
                VReg(v as u32),
            ) && !wants(function, tree, VReg(v as u32), x),
    ensures
        left_by(starts, function, wanted(function, tree), b)[v] == left_by(
            starts,
            function,
            wanted(function, tree),
            d,
        )[v],
    decreases path.len(),
{
    let graph = tree.graph;
    let lists = wanted(function, tree);
    if b != d {
        if b == 0 {
            assert(leads(graph, seq![0int], 0, 0));
            assert(seq![0int].contains(d));
        }
        let p = tree.idom[b];
        assert(0 <= tree.idom[b] < graph.len() && is_idom(graph, p, b));
        assert(dominates(graph, d, p));
        dominates_itself(graph, b);
        assert(!defines(function.blocks[b], VReg(v as u32)));
        wanted_are(function, tree, b, function.names.len() as int, v);
        assert(starts_about(starts[b], function.names.len()));
        assert(block_within(function.blocks[b], function.names.len(), function.blocks.len()));
        block_leaves(starts[b], function.blocks[b], lists, b, v);
        assert(comes_down(starts, function, tree, lists, b, starts[b].env));
        assert(path.contains(p));
        let k = choose|k: int| 0 <= k < path.len() && path[k] == p;
        assert(k < path.len() - 1);
        way_up_to(graph, path, 0, b, k);
        assert forall|x: int|
            0 <= x < function.blocks.len() && x != d && #[trigger] dominates(graph, d, x)
                && dominates(graph, x, p) implies !defines(function.blocks[x], VReg(v as u32))
            && !wants(function, tree, VReg(v as u32), x) by {
            dominates_through(graph, x, p, b);
        }
        comes_down_unchanged(
            function,
            after,
            tree,
            starts,
            p,
            d,
            v,
            path.subrange(0, k + 1),
        );
    }
}

/// What is live at the end of a way on which nothing writes it is live where the
/// way starts.
proof fn live_all_along(blocks: Seq<BlockView>, path: Seq<int>, c: int, reg: VReg)
    requires
        leads(flow(blocks), path, 0, c),
        live_at(blocks, c, reg),
        forall|i: int| 0 <= i < path.len() - 1 ==> !writes(#[trigger] blocks[path[i]], reg),
    ensures
        live_at(blocks, 0, reg),
    decreases path.len(),
{
    if path.len() > 1 {
        let b = path[path.len() - 2];
        crate::graph::last_step(flow(blocks), path, 0, c);
        assert(0 <= path[path.len() - 2] < flow(blocks).len());
        assert(0 <= path[path.len() - 1] < flow(blocks).len());
        assert(flow(blocks)[b].contains(c));
        assert(live_after(blocks, b, reg));
        assert(!writes(blocks[path[path.len() - 2]], reg));
        live_through(blocks, b, reg);
        let shorter = path.drop_last();
        assert forall|i: int| 0 <= i < shorter.len() - 1 implies !writes(
            #[trigger] blocks[shorter[i]],
            reg,
        ) by {
            assert(!writes(blocks[path[i]], reg));
        }
        live_all_along(blocks, shorter, b, reg);
    }
}

/// A way to a node that comes to it only once.
proof fn first_arrival(graph: Graph, path: Seq<int>, c: int) -> (short: Seq<int>)
    requires
        leads(graph, path, 0, c),
    ensures
        leads(graph, short, 0, c),
        forall|i: int| 0 <= i < short.len() - 1 ==> short[i] != c,
        forall|x: int| short.contains(x) ==> path.contains(x),
    decreases path.len(),
{
    let shorter = path.drop_last();
    if shorter.contains(c) {
        let k = choose|k: int| 0 <= k < shorter.len() && shorter[k] == c;
        assert(path[k] == c);
        way_up_to(graph, path, 0, c, k);
        let short = first_arrival(graph, path.subrange(0, k + 1), c);
        assert forall|x: int| short.contains(x) implies path.contains(x) by {
            let part = path.subrange(0, k + 1);
            assert(part.contains(x));
            let j = choose|j: int| 0 <= j < part.len() && part[j] == x;
            assert(path[j] == x);
        }
        short
    } else {
        assert forall|i: int| 0 <= i < path.len() - 1 implies path[i] != c by {
            if path[i] == c {
                assert(shorter[i] == c);
            }
        }
        path
    }
}

/// **One definition reaches.** Where a variable is still read and a block has no
/// parameter for it, what the variable goes by at the end of any predecessor is
/// what it goes by at the end of the immediate dominator.
pub proof fn one_definition_reaches(
    function: FunctionView,
    after: FunctionView,
    tree: Dominance,
    starts: Seq<Renaming>,
    b: int,
    c: int,
    v: int,
)
    requires
        well_formed(function),
        hands_nothing(function.blocks),
        reads_only_written(function),
        tree.well_formed(),
        tree.graph == flow(function.blocks),
        renamed_from(starts, function, after, tree, wanted(function, tree)),
        0 <= b < function.blocks.len(),
        0 <= c < function.blocks.len(),
        0 <= v < function.names.len(),
        tree.graph[b].contains(c),
        live_at(function.blocks, c, VReg(v as u32)),
        !wants(function, tree, VReg(v as u32), c),
    ensures
        c > 0,
        left_by(starts, function, wanted(function, tree), b)[v] == starts[c].env[v],
{
    let graph = tree.graph;
    let blocks = function.blocks;
    let reg = VReg(v as u32);
    let d = tree.idom[c];
    if c == 0 {
        assert(live_at(blocks, 0, reg));
    }
    assert(0 <= tree.idom[c] < graph.len() && is_idom(graph, d, c));
    predecessor_dominated(graph, d, b, c);
    assert(reaches(graph, 0, b) && reaches(graph, 0, c));
    let path = choose|path: Seq<int>| leads(graph, path, 0, b);
    assert forall|x: int|
        0 <= x < blocks.len() && x != d && #[trigger] dominates(graph, d, x) && dominates(
            graph,
            x,
            b,
        ) implies !defines(blocks[x], reg) && !wants(function, tree, reg, x) by {
        // It cannot dominate the immediate dominator, which dominates it.
        if dominates(graph, x, d) {
            assert(reaches(graph, 0, x));
            let way = choose|way: Seq<int>| leads(graph, way, 0, x);
            dominance_is_one_way(graph, x, d, way);
        }
        if in_degree(graph, c) < 2 {
            one_edge_is_the_dominators(tree, b, c);
            assert(false);
        }
        if defines(blocks[x], reg) || wants(function, tree, reg, x) {
            assert(tree.frontier(x, c)) by {
                assert(graph[b].contains(c));
            }
            assert(meets_at(function, tree, reg, x, c));
            if defines(blocks[x], reg) {
                source_is_definition(function, tree, reg, x);
            } else {
                let chain = choose|chain: Seq<int>|
                    chain.len() >= 2 && chain.last() == x && #[trigger] meeting_chain(
                        function,
                        tree,
                        reg,
                        chain,
                    );
                assert(source(function, tree, reg, x));
            }
            source_spreads(function, tree, reg, x, c);
            assert(!written_apart(blocks, reg));
            // So it is the one block that writes the variable, and there is a way
            // around it.
            assert(defines(blocks[x], reg));
            assert(x == c || !dominates(graph, x, c));
            let around = if x == c {
                let some = choose|some: Seq<int>| leads(graph, some, 0, c);
                first_arrival(graph, some, c)
            } else {
                choose|some: Seq<int>| leads(graph, some, 0, c) && !some.contains(x)
            };
            assert forall|i: int| 0 <= i < around.len() - 1 implies !writes(
                #[trigger] blocks[around[i]],
                reg,
            ) by {
                let y = around[i];
                assert(y != x) by {
                    if x != c {
                        assert(around.contains(y));
                    }
                }
                assert(0 <= y < blocks.len());
                assert(blocks[y].params.len() == 0);
                if writes(blocks[y], reg) {
                    assert(defines(blocks[y], reg));
                    if x < y {
                        assert(written_apart(blocks, reg));
                    } else {
                        assert(written_apart(blocks, reg));
                    }
                }
            }
            live_all_along(blocks, around, c, reg);
            assert(live_at(blocks, 0, VReg(v as u32)));
        }
    }
    comes_down_unchanged(function, after, tree, starts, b, d, v, path);
    assert(comes_down(starts, function, tree, wanted(function, tree), c, starts[c].env));
}

// -- what is still read -----------------------------------------------------

/// Whether none of a run of instructions writes a register.
pub open spec fn unwritten(block: BlockView, from: int, to: int, reg: VReg) -> bool {
    forall|j: int| from <= j < to ==> #[trigger] block.instrs[j].written() != Some(reg)
}

/// Whether what a register holds before step `k` of a block may still be read.
pub open spec fn needed(blocks: Seq<BlockView>, b: int, k: int, reg: VReg) -> bool {
    let block = blocks[b];
    ||| exists|i: int|
        k <= i <= block.instrs.len() && #[trigger] reads_at(block, i, reg) && unwritten(
            block,
            k,
            i,
            reg,
        )
    ||| unwritten(block, k, block.instrs.len() as int, reg) && live_after(blocks, b, reg)
}

/// What is still read at the top of a block is live there.
proof fn needed_is_live(blocks: Seq<BlockView>, b: int, reg: VReg)
    requires
        0 <= b < blocks.len(),
        blocks[b].params.len() == 0,
        needed(blocks, b, 0, reg),
    ensures
        live_at(blocks, b, reg),
{
    let block = blocks[b];
    if exists|i: int|
        0 <= i <= block.instrs.len() && #[trigger] reads_at(block, i, reg) && unwritten(
            block,
            0,
            i,
            reg,
        ) {
        let i = choose|i: int|
            0 <= i <= block.instrs.len() && #[trigger] reads_at(block, i, reg) && unwritten(
                block,
                0,
                i,
                reg,
            );
        assert(!written_before(block, i, reg));
        assert(exposed(block, reg));
        live_where_exposed(blocks, b, reg);
    } else {
        assert(!writes(block, reg));
        live_through(blocks, b, reg);
    }
}

/// What is read after an instruction that does not write it is read before it.
proof fn needed_before(blocks: Seq<BlockView>, b: int, k: int, reg: VReg)
    requires
        0 <= b < blocks.len(),
        0 <= k < blocks[b].instrs.len(),
        blocks[b].instrs[k].written() != Some(reg),
        needed(blocks, b, k + 1, reg),
    ensures
        needed(blocks, b, k, reg),
{
    let block = blocks[b];
    if exists|i: int|
        k + 1 <= i <= block.instrs.len() && #[trigger] reads_at(block, i, reg) && unwritten(
            block,
            k + 1,
            i,
            reg,
        ) {
        let i = choose|i: int|
            k + 1 <= i <= block.instrs.len() && #[trigger] reads_at(block, i, reg) && unwritten(
                block,
                k + 1,
                i,
                reg,
            );
        assert(unwritten(block, k, i, reg));
    } else {
        assert(unwritten(block, k, block.instrs.len() as int, reg));
    }
}

// -- one step ---------------------------------------------------------------

/// The renaming a block's instructions start from.
pub open spec fn entered_with(starts: Seq<Renaming>, lists: Seq<Seq<VReg>>, b: int) -> Renaming {
    renamed_params(starts[b], lists[b], lists[b].len() as int).1
}

/// The renaming before step `k` of a block.
pub open spec fn renaming_at(
    starts: Seq<Renaming>,
    whole: FunctionView,
    lists: Seq<Seq<VReg>>,
    b: int,
    k: int,
) -> Renaming {
    renamed_instrs(entered_with(starts, lists, b), whole.blocks[b].instrs, k).1
}

/// Whether a name holds the word its variable holds.
pub open spec fn stands_for(name: Option<VReg>, word: Option<i64>, held: Held) -> bool {
    name is Some && word is Some && held[(name->0).0 as int] == word
}

/// Whether two functions agree before step `k` of a block: what every variable
/// still read goes by holds what the variable holds.
pub open spec fn agree(
    starts: Seq<Renaming>,
    whole: FunctionView,
    after: FunctionView,
    lists: Seq<Seq<VReg>>,
    b: int,
    k: int,
    held: Held,
    renamed: Held,
) -> bool {
    &&& held.len() == whole.names.len()
    &&& renamed.len() == after.names.len()
    &&& forall|v: int|
        0 <= v < whole.names.len() && #[trigger] needed(whole.blocks, b, k, VReg(v as u32))
            ==> stands_for(renaming_at(starts, whole, lists, b, k).env[v], held[v], renamed)
}

/// Whether two runs of values are worth the same.
pub open spec fn worth_the_same(
    values: Seq<Value>,
    held: Held,
    others: Seq<Value>,
    other_held: Held,
) -> bool {
    &&& values.len() == others.len()
    &&& forall|i: int|
        0 <= i < values.len() ==> held_by(#[trigger] values[i], held) == held_by(
            others[i],
            other_held,
        ) && held_by(values[i], held) is Some
}

proof fn read_values_agree(
    starts: Seq<Renaming>,
    whole: FunctionView,
    after: FunctionView,
    lists: Seq<Seq<VReg>>,
    b: int,
    k: int,
    held: Held,
    renamed: Held,
    values: Seq<Value>,
)
    requires
        agree(starts, whole, after, lists, b, k, held, renamed),
        0 <= b < whole.blocks.len(),
        0 <= k <= whole.blocks[b].instrs.len(),
        whole.names.len() <= u32::MAX,
        renaming_at(starts, whole, lists, b, k).env.len() == whole.names.len(),
        forall|i: int|
            0 <= i < values.len() ==> value_within(#[trigger] values[i], whole.names.len()),
        forall|v: int|
            0 <= v < whole.names.len() && values.contains(Value::Reg(VReg(v as u32)))
                ==> #[trigger] reads_at(whole.blocks[b], k, VReg(v as u32)),
    ensures
        worth_the_same(
            values,
            held,
            renamed_values(renaming_at(starts, whole, lists, b, k).env, values),
            renamed,
        ),
{
    let env = renaming_at(starts, whole, lists, b, k).env;
    let others = renamed_values(env, values);
    assert forall|i: int| 0 <= i < values.len() implies held_by(#[trigger] values[i], held)
        == held_by(others[i], renamed) && held_by(values[i], held) is Some by {
        assert(value_within(values[i], whole.names.len()));
        if let Value::Reg(reg) = values[i] {
            let v = reg.0 as int;
            assert(reg == VReg(v as u32));
            assert(values.contains(Value::Reg(VReg(v as u32))));
            assert(reads_at(whole.blocks[b], k, VReg(v as u32)));
            assert(unwritten(whole.blocks[b], k, k, VReg(v as u32)));
            assert(needed(whole.blocks, b, k, VReg(v as u32)));
            assert(stands_for(env[v], held[v], renamed));
            assert(others[i] == Value::Reg(env[v]->0));
        }
    }
}

/// What may be written depends on what is read and on nothing else about the
/// registers.
#[verifier::spinoff_prover]
proof fn may_write_the_same(
    instr: InstrView,
    held: Held,
    start: Renaming,
    renamed: Held,
    word: i64,
)
    requires
        may_write(instr, held, word),
        worth_the_same(
            instr.operands(),
            held,
            renamed_values(start.env, instr.operands()),
            renamed,
        ),
    ensures
        may_write(renamed_instr(start, instr).0, renamed, word),
{
    let operands = instr.operands();
    let others = renamed_values(start.env, operands);
    match instr {
        InstrView::Copy { .. } => {
            assert(held_by(operands[0], held) == held_by(others[0], renamed));
        },
        InstrView::Bin { .. } => {
            assert(held_by(operands[0], held) == held_by(others[0], renamed));
            assert(held_by(operands[1], held) == held_by(others[1], renamed));
        },
        InstrView::Cmp { .. } => {
            assert(held_by(operands[0], held) == held_by(others[0], renamed));
            assert(held_by(operands[1], held) == held_by(others[1], renamed));
        },
        InstrView::Elem { .. } => {
            assert(held_by(operands[1], held) == held_by(others[1], renamed));
            assert(held_by(operands[2], held) == held_by(others[2], renamed));
        },
        _ => {},
    }
}

/// Whether two steps do the same: they read the same words and write the same
/// one.
pub open spec fn step_matches(
    instr: InstrView,
    held: Held,
    next: Held,
    other: InstrView,
    other_held: Held,
    other_next: Held,
) -> bool {
    &&& same_but_for_registers(instr, other)
    &&& worth_the_same(instr.operands(), held, other.operands(), other_held)
    &&& match (instr.written(), other.written()) {
        (Some(a), Some(b)) => next[a.0 as int] == other_next[b.0 as int],
        (None, None) => true,
        _ => false,
    }
}

/// What is named at a step of a block.
pub proof fn naming_at(
    starts: Seq<Renaming>,
    whole: FunctionView,
    after: FunctionView,
    tree: Dominance,
    b: int,
    k: int,
)
    requires
        well_formed(whole),
        after.names.len() <= u32::MAX,
        renamed_from(starts, whole, after, tree, wanted(whole, tree)),
        0 <= b < whole.blocks.len(),
        0 <= k <= whole.blocks[b].instrs.len(),
    ensures
        ({
            let lists = wanted(whole, tree);
            let at = renaming_at(starts, whole, lists, b, k);
            &&& about(at, whole.names.len())
            &&& env_within(at.env, at.names.names.len())
            &&& at.names.names.len() <= after.names.len()
            &&& k < whole.blocks[b].instrs.len() ==> renaming_at(
                starts,
                whole,
                lists,
                b,
                k + 1,
            ).names.names.len() <= after.names.len()
            &&& after.blocks[b].instrs.len() == whole.blocks[b].instrs.len()
            &&& k < whole.blocks[b].instrs.len() ==> after.blocks[b].instrs[k] == renamed_instr(
                at,
                whole.blocks[b].instrs[k],
            ).0
        }),
{
    let lists = wanted(whole, tree);
    let block = whole.blocks[b];
    let n = lists[b].len() as int;
    let count = block.instrs.len() as int;
    let entered = entered_with(starts, lists, b);
    assert(after.blocks[b] == renamed_block(starts[b], block, lists, b).0);
    assert(renamed_block(starts[b], block, lists, b).1.names.names.len() <= after.names.len());
    assert(starts_about(starts[b], whole.names.len()));
    assert(block_within(block, whole.names.len(), whole.blocks.len()));
    super::rename::params_grow(starts[b], lists[b], 0, n);
    super::rename::instrs_grow(entered, block.instrs, 0, count);
    super::rename::instrs_grow(entered, block.instrs, k, count);
    if k < count {
        super::rename::instrs_grow(entered, block.instrs, k + 1, count);
    }
    assert forall|i: int| 0 <= i < lists[b].len() implies (#[trigger] lists[b][i]).0
        < whole.names.len() by {}
    params_numbered(starts[b], lists[b], n, whole.names.len());
    instrs_numbered(entered, block.instrs, k, whole.names.len());
    instrs_numbered(entered, block.instrs, count, whole.names.len());
    if k < count {
        renamed_so_far(entered, block.instrs, k, count);
    }
}

proof fn renamed_so_far(start: Renaming, instrs: Seq<InstrView>, k: int, n: int)
    requires
        0 <= k < n <= instrs.len(),
    ensures
        renamed_instrs(start, instrs, n).0.len() == n,
        renamed_instrs(start, instrs, n).0[k] == renamed_instr(
            renamed_instrs(start, instrs, k).1,
            instrs[k],
        ).0,
    decreases n,
{
    if k < n - 1 {
        renamed_so_far(start, instrs, k, n - 1);
    } else {
        renamed_count(start, instrs, n - 1);
    }
}

proof fn renamed_count(start: Renaming, instrs: Seq<InstrView>, n: int)
    requires
        0 <= n <= instrs.len(),
    ensures
        renamed_instrs(start, instrs, n).0.len() == n,
    decreases n,
{
    if n > 0 {
        renamed_count(start, instrs, n - 1);
    }
}

/// One step of a renamed block does what the step it stands for does.
proof fn follow_step(
    starts: Seq<Renaming>,
    whole: FunctionView,
    after: FunctionView,
    tree: Dominance,
    b: int,
    k: int,
    held: Held,
    next: Held,
    renamed: Held,
) -> (renamed_next: Held)
    requires
        well_formed(whole),
        after.names.len() <= u32::MAX,
        renamed_from(starts, whole, after, tree, wanted(whole, tree)),
        0 <= b < whole.blocks.len(),
        0 <= k < whole.blocks[b].instrs.len(),
        agree(starts, whole, after, wanted(whole, tree), b, k, held, renamed),
        steps(whole.blocks[b].instrs[k], held, next),
    ensures
        steps(after.blocks[b].instrs[k], renamed, renamed_next),
        step_matches(
            whole.blocks[b].instrs[k],
            held,
            next,
            after.blocks[b].instrs[k],
            renamed,
            renamed_next,
        ),
        agree(starts, whole, after, wanted(whole, tree), b, k + 1, next, renamed_next),
{
    let lists = wanted(whole, tree);
    let block = whole.blocks[b];
    let instr = block.instrs[k];
    let at = renaming_at(starts, whole, lists, b, k);
    let then = renaming_at(starts, whole, lists, b, k + 1);
    naming_at(starts, whole, after, tree, b, k);
    let other = after.blocks[b].instrs[k];
    renamed_instr_is_the_same(at, instr);
    assert(block_within(block, whole.names.len(), whole.blocks.len()));
    assert(instr_within(instr, whole.names.len()));
    read_values_agree(
        starts,
        whole,
        after,
        lists,
        b,
        k,
        held,
        renamed,
        instr.operands(),
    );
    assert(other.operands() == renamed_values(at.env, instr.operands()));
    assert(all_written(other.operands(), renamed)) by {
        assert forall|i: int| 0 <= i < other.operands().len() implies held_by(
            #[trigger] other.operands()[i],
            renamed,
        ) is Some by {
            assert(held_by(instr.operands()[i], held) == held_by(other.operands()[i], renamed));
        }
    }
    match instr.written() {
        Some(dst) => {
            let fresh = at.names.fresh();
            let word = next[dst.0 as int];
            let renamed_next = renamed.update(fresh.0 as int, word);
            assert(fresh.0 == at.names.names.len());
            assert(then == at.defining(dst));
            assert(then.names.names.len() == at.names.names.len() + 1);
            assert(fresh.0 < after.names.len());
            may_write_the_same(instr, held, at, renamed, word->0);
            assert(renamed_next[fresh.0 as int] == word);
            assert forall|v: int|
                0 <= v < whole.names.len() && #[trigger] needed(
                    whole.blocks,
                    b,
                    k + 1,
                    VReg(v as u32),
                ) implies stands_for(then.env[v], next[v], renamed_next) by {
                if v == dst.0 {
                    assert(then.env[v] == Some(fresh));
                } else {
                    needed_before(whole.blocks, b, k, VReg(v as u32));
                    assert(stands_for(at.env[v], held[v], renamed));
                    assert(then.env[v] == at.env[v]);
                    assert((at.env[v]->0).0 < at.names.names.len());
                    assert(next[v] == held[v]);
                }
            }
            renamed_next
        },
        None => {
            assert(then == at);
            assert forall|v: int|
                0 <= v < whole.names.len() && #[trigger] needed(
                    whole.blocks,
                    b,
                    k + 1,
                    VReg(v as u32),
                ) implies stands_for(then.env[v], next[v], renamed) by {
                needed_before(whole.blocks, b, k, VReg(v as u32));
            }
            renamed
        },
    }
}

/// The first `n` steps of a renamed block do what the steps they stand for do.
proof fn follow_steps(
    starts: Seq<Renaming>,
    whole: FunctionView,
    after: FunctionView,
    tree: Dominance,
    b: int,
    n: int,
    states: Seq<Held>,
    renamed: Held,
) -> (others: Seq<Held>)
    requires
        well_formed(whole),
        after.names.len() <= u32::MAX,
        renamed_from(starts, whole, after, tree, wanted(whole, tree)),
        0 <= b < whole.blocks.len(),
        0 <= n <= whole.blocks[b].instrs.len(),
        states.len() > n,
        agree(starts, whole, after, wanted(whole, tree), b, 0, states[0], renamed),
        forall|k: int|
            0 <= k < n ==> #[trigger] steps(
                whole.blocks[b].instrs[k],
                states[k],
                states[k + 1],
            ),
    ensures
        others.len() == n + 1,
        others[0] == renamed,
        forall|k: int|
            0 <= k < n ==> #[trigger] steps(after.blocks[b].instrs[k], others[k], others[k + 1]),
        forall|k: int|
            0 <= k < n ==> step_matches(
                #[trigger] whole.blocks[b].instrs[k],
                states[k],
                states[k + 1],
                after.blocks[b].instrs[k],
                others[k],
                others[k + 1],
            ),
        agree(starts, whole, after, wanted(whole, tree), b, n, states[n], others[n]),
    decreases n,
{
    if n == 0 {
        seq![renamed]
    } else {
        let before = follow_steps(starts, whole, after, tree, b, n - 1, states, renamed);
        assert(steps(whole.blocks[b].instrs[n - 1], states[n - 1], states[n - 1 + 1]));
        let last = follow_step(
            starts,
            whole,
            after,
            tree,
            b,
            n - 1,
            states[n - 1],
            states[n],
            before[n - 1],
        );
        let others = before.push(last);
        assert forall|k: int| 0 <= k < n implies #[trigger] steps(
            after.blocks[b].instrs[k],
            others[k],
            others[k + 1],
        ) by {
            if k < n - 1 {
                assert(others[k] == before[k] && others[k + 1] == before[k + 1]);
                assert(steps(after.blocks[b].instrs[k], before[k], before[k + 1]));
            }
        }
        assert forall|k: int| 0 <= k < n implies step_matches(
            #[trigger] whole.blocks[b].instrs[k],
            states[k],
            states[k + 1],
            after.blocks[b].instrs[k],
            others[k],
            others[k + 1],
        ) by {
            if k < n - 1 {
                assert(others[k] == before[k] && others[k + 1] == before[k + 1]);
            }
        }
        others
    }
}

// -- one edge ---------------------------------------------------------------

/// What the parameters of a block hold once they have been handed something.
pub proof fn handed_params(params: Seq<VReg>, args: Seq<Value>, held: Held, n: int)
    requires
        0 <= n <= params.len(),
        forall|i: int| 0 <= i < params.len() ==> (#[trigger] params[i]).0 < held.len(),
        forall|i: int, j: int|
            0 <= i < j < params.len() ==> (#[trigger] params[i]).0 != (#[trigger] params[j]).0,
    ensures
        handed_over(params, args, held, n).len() == held.len(),
        forall|i: int|
            0 <= i < n ==> handed_over(params, args, held, n)[(#[trigger] params[i]).0 as int]
                == held_by(args[i], held),
        forall|r: int|
            0 <= r < held.len() && (forall|i: int| 0 <= i < n ==> (#[trigger] params[i]).0 != r)
                ==> #[trigger] handed_over(params, args, held, n)[r] == held[r],
    decreases n,
{
    if n > 0 {
        handed_params(params, args, held, n - 1);
        assert(params[n - 1].0 < held.len());
    }
}

/// What variables go by once a block has taken parameters for some of them.
proof fn params_name(start: Renaming, variables: Seq<VReg>, n: int, original: nat)
    requires
        0 <= n <= variables.len(),
        about(start, original),
        forall|i: int| 0 <= i < variables.len() ==> (#[trigger] variables[i]).0 < original,
        forall|i: int, j: int|
            0 <= i < j < variables.len() ==> (#[trigger] variables[i]).0 < (
            #[trigger] variables[j]).0,
    ensures
        renamed_params(start, variables, n).0.len() == n,
        renamed_params(start, variables, n).1.env.len() == original,
        forall|i: int|
            0 <= i < n ==> renamed_params(start, variables, n).1.env[(#[trigger] variables[i]).0 as int]
                == Some(renamed_params(start, variables, n).0[i]),
    decreases n,
{
    if n > 0 {
        params_name(start, variables, n - 1, original);
        assert(variables[n - 1].0 < original);
        let (params, at) = renamed_params(start, variables, n);
        let (before, was) = renamed_params(start, variables, n - 1);
        assert forall|i: int| 0 <= i < n implies at.env[(#[trigger] variables[i]).0 as int] == Some(
            params[i],
        ) by {
            if i < n - 1 {
                assert(variables[i].0 < variables[n - 1].0);
                assert(params[i] == before[i]);
            }
        }
    }
}

/// Where a function goes, what it becomes goes, and the parameters it is handed
/// there hold what their variables hold.
proof fn follow_edge(
    starts: Seq<Renaming>,
    whole: FunctionView,
    after: FunctionView,
    tree: Dominance,
    b: int,
    leaving: Held,
    c: int,
    entering: Held,
    renamed: Held,
) -> (renamed_entering: Held)
    requires
        well_formed(whole),
        hands_nothing(whole.blocks),
        reads_only_written(whole),
        tree.well_formed(),
        tree.graph == flow(whole.blocks),
        after.names.len() <= u32::MAX,
        renamed_from(starts, whole, after, tree, wanted(whole, tree)),
        0 <= b < whole.blocks.len(),
        0 <= c < whole.blocks.len(),
        agree(
            starts,
            whole,
            after,
            wanted(whole, tree),
            b,
            whole.blocks[b].instrs.len() as int,
            leaving,
            renamed,
        ),
        goes(whole.blocks, b, leaving, c, entering),
    ensures
        goes(after.blocks, b, renamed, c, renamed_entering),
        agree(starts, whole, after, wanted(whole, tree), c, 0, entering, renamed_entering),
{
    let lists = wanted(whole, tree);
    let original = whole.names.len();
    let block = whole.blocks[b];
    let count = block.instrs.len() as int;
    let at = renaming_at(starts, whole, lists, b, count);
    naming_at(starts, whole, after, tree, b, count);
    assert(at.env == left_by(starts, whole, lists, b));
    assert(after.blocks[b] == renamed_block(starts[b], block, lists, b).0);
    assert(block_within(block, original, whole.blocks.len()));
    assert(block.params.len() == 0 && target_args_empty(block));
    read_values_agree(
        starts,
        whole,
        after,
        lists,
        b,
        count,
        leaving,
        renamed,
        block.term.operands(),
    );
    let target = goes_to(block.term, leaving)->0;
    let term = after.blocks[b].term;
    assert(term == renamed_term(at.env, block.term, lists));
    assert(target.args.len() == 0) by {
        assert(block.term.targets()[0].args.len() == 0);
        if block.term.targets().len() > 1 {
            assert(block.term.targets()[1].args.len() == 0);
        }
    }
    // The ending of the renamed block goes to the same block.
    let other = renamed_target(at.env, target, lists);
    let operands = renamed_values(at.env, block.term.operands());
    assert(goes_to(term, renamed) == Some(other)) by {
        match block.term {
            TermView::Jump(to) => {
                let with = block.term.with_operands(operands);
                assert(with.targets()[0].block == to.block);
                assert(term == TermView::Jump(renamed_target(at.env, with.targets()[0], lists)));
            },
            TermView::Branch { cond, then_blk, else_blk } => {
                let with = block.term.with_operands(operands);
                assert(block.term.operands()[0] == cond);
                assert(operands[0] == renamed_value(at.env, cond));
                assert(held_by(block.term.operands()[0], leaving) == held_by(operands[0], renamed));
                assert(with.targets()[0].block == then_blk.block);
                assert(with.targets()[1].block == else_blk.block);
            },
            TermView::Return(_) => {},
        }
    }
    assert(entering == leaving);
    assert(tree.graph[b].contains(c)) by {
        assert(block.term.successors().contains(target.block)) by {
            match block.term {
                TermView::Jump(_) => {
                    assert(block.term.successors()[0] == target.block);
                },
                TermView::Branch { then_blk, .. } => {
                    assert(block.term.successors()[0] == then_blk.block);
                    if target != then_blk {
                        assert(block.term.successors()[1] == target.block);
                    }
                },
                TermView::Return(_) => {},
            }
        }
        let i = choose|i: int|
            0 <= i < block.term.successors().len() && block.term.successors()[i] == target.block;
        assert(tree.graph[b][i] == c);
    }
    // What it hands over.
    let variables = lists[c];
    let n = variables.len() as int;
    wanted_rise(whole, tree, c, original as int);
    assert(after.blocks[c] == renamed_block(starts[c], whole.blocks[c], lists, c).0);
    assert(starts_about(starts[c], original));
    naming_at(starts, whole, after, tree, c, 0);
    super::rename::params_grow(starts[c], variables, 0, n);
    params_numbered(starts[c], variables, n, original);
    params_name(starts[c], variables, n, original);
    let params = after.blocks[c].params;
    let entered = entered_with(starts, lists, c);
    assert(renaming_at(starts, whole, lists, c, 0) == entered);
    assert(params.len() == n);
    assert forall|i: int| 0 <= i < params.len() implies (#[trigger] params[i]).0
        < renamed.len() by {}
    let args = other.args;
    handed_params(params, args, renamed, n);
    let renamed_entering = handed_over(params, args, renamed, n);
    // A variable a parameter is wanted for is live there, so the edge hands it
    // what the variable holds.
    assert forall|i: int| 0 <= i < n implies held_by(#[trigger] args[i], renamed)
        == leaving[variables[i].0 as int] && held_by(args[i], renamed) is Some by {
        let reg = variables[i];
        let v = reg.0 as int;
        assert(reg == VReg(v as u32));
        wanted_are(whole, tree, c, original as int, v);
        assert(lists[c].contains(reg));
        assert(wants(whole, tree, reg, c));
        let chain = choose|chain: Seq<int>|
            chain.len() >= 2 && chain.last() == c && #[trigger] meeting_chain(
                whole,
                tree,
                reg,
                chain,
            );
        assert(meets_at(whole, tree, reg, chain[chain.len() - 2], chain[chain.len() - 1]));
        assert(live_at(whole.blocks, c, reg));
        assert(live_after(whole.blocks, b, reg));
        assert(needed(whole.blocks, b, count, VReg(v as u32)));
        assert(stands_for(at.env[v], leaving[v], renamed));
        assert(args[i] == handed(at.env, reg));
    }
    assert(all_written(args, renamed));
    assert forall|v: int|
        0 <= v < original && #[trigger] needed(whole.blocks, c, 0, VReg(v as u32)) implies stands_for(
        entered.env[v],
        entering[v],
        renamed_entering,
    ) by {
        let reg = VReg(v as u32);
        assert(whole.blocks[c].params.len() == 0);
        needed_is_live(whole.blocks, c, reg);
        assert(live_after(whole.blocks, b, reg));
        assert(needed(whole.blocks, b, count, reg));
        assert(stands_for(at.env[v], leaving[v], renamed));
        wanted_are(whole, tree, c, original as int, v);
        if wants(whole, tree, reg, c) {
            assert(variables.contains(reg));
            let i = choose|i: int| 0 <= i < variables.len() && variables[i] == reg;
            assert(entered.env[variables[i].0 as int] == Some(params[i]));
            assert(renamed_entering[params[i].0 as int] == held_by(args[i], renamed));
        } else {
            one_definition_reaches(whole, after, tree, starts, b, c, v);
            assert forall|i: int| 0 <= i < variables.len() implies (#[trigger] variables[i]).0 != v
                && variables[i].0 < starts[c].env.len() by {
                if variables[i].0 == v {
                    assert(variables[i] == reg);
                    assert(variables.contains(reg));
                }
            }
            params_leave(starts[c], variables, n, v);
            let name = starts[c].env[v]->0;
            assert(starts[c].env[v] == at.env[v]);
            assert(name.0 < starts[c].names.names.len());
            assert forall|i: int| 0 <= i < n implies (#[trigger] params[i]).0 != name.0 by {}
            assert(renamed_entering[name.0 as int] == renamed[name.0 as int]);
        }
    }
    renamed_entering
}

// -- a whole run ------------------------------------------------------------

/// Whether two visits do the same: in the same block, step for step, and at the
/// end of it what the ending reads is worth the same.
pub open spec fn visit_matches(
    whole: FunctionView,
    visit: Visit,
    after: FunctionView,
    other: Visit,
) -> bool {
    let block = whole.blocks[visit.block];
    let renamed = after.blocks[visit.block];
    &&& other.block == visit.block
    &&& other.states.len() == visit.states.len()
    &&& renamed.instrs.len() == block.instrs.len()
    &&& forall|k: int|
        0 <= k < block.instrs.len() ==> step_matches(
            #[trigger] block.instrs[k],
            visit.states[k],
            visit.states[k + 1],
            renamed.instrs[k],
            other.states[k],
            other.states[k + 1],
        )
    &&& worth_the_same(
        block.term.head(),
        visit.states.last(),
        renamed.term.head(),
        other.states.last(),
    )
    &&& answers(renamed.term, other.states.last()) == answers(block.term, visit.states.last())
}

/// One visit to a renamed block does what the visit it stands for does.
proof fn follow_visit(
    starts: Seq<Renaming>,
    whole: FunctionView,
    after: FunctionView,
    tree: Dominance,
    visit: Visit,
    renamed: Held,
) -> (other: Visit)
    requires
        well_formed(whole),
        hands_nothing(whole.blocks),
        after.names.len() <= u32::MAX,
        renamed_from(starts, whole, after, tree, wanted(whole, tree)),
        visits(whole, visit),
        agree(starts, whole, after, wanted(whole, tree), visit.block, 0, visit.states[0], renamed),
    ensures
        visits(after, other),
        other.states[0] == renamed,
        visit_matches(whole, visit, after, other),
        agree(
            starts,
            whole,
            after,
            wanted(whole, tree),
            visit.block,
            whole.blocks[visit.block].instrs.len() as int,
            visit.states.last(),
            other.states.last(),
        ),
{
    let b = visit.block;
    let lists = wanted(whole, tree);
    let block = whole.blocks[b];
    let count = block.instrs.len() as int;
    let states = follow_steps(starts, whole, after, tree, b, count, visit.states, renamed);
    let other = Visit { block: b, states };
    naming_at(starts, whole, after, tree, b, count);
    let at = renaming_at(starts, whole, lists, b, count);
    assert(after.blocks[b] == renamed_block(starts[b], block, lists, b).0);
    assert(block_within(block, whole.names.len(), whole.blocks.len()));
    assert(target_args_empty(block));
    let term = after.blocks[b].term;
    assert(term == renamed_term(at.env, block.term, lists));
    let held = visit.states.last();
    read_values_agree(
        starts,
        whole,
        after,
        lists,
        b,
        count,
        held,
        states.last(),
        block.term.operands(),
    );
    let operands = renamed_values(at.env, block.term.operands());
    match block.term {
        TermView::Jump(_) => {},
        TermView::Branch { cond, .. } => {
            assert(block.term.operands()[0] == cond);
            assert(held_by(block.term.operands()[0], held) == held_by(operands[0], states.last()));
            assert(term.head() =~= seq![operands[0]]);
        },
        TermView::Return(Some(value)) => {
            assert(block.term.operands()[0] == value);
            assert(held_by(block.term.operands()[0], held) == held_by(operands[0], states.last()));
            assert(term.head() =~= seq![operands[0]]);
        },
        TermView::Return(None) => {},
    }
    other
}

/// **SSA form changes nothing a function does.** For every run of a function that
/// reads nothing unwritten there is a run of what it becomes that goes through
/// the same blocks, where every instruction reads and writes the same words, and
/// every ending goes and answers the same — so what is done from outside is the
/// same too.
pub proof fn construction_keeps_what_is_done(function: FunctionView, run: Seq<Visit>) -> (other: Seq<
    Visit,
>)
    requires
        constructible(function),
        reads_only_written(function),
        is_execution(function, run),
    ensures
        is_execution(constructed(function), other),
        other.len() == run.len(),
        forall|i: int|
            0 <= i < run.len() ==> visit_matches(
                function,
                #[trigger] run[i],
                constructed(function),
                other[i],
            ),
        does_as(function, run, constructed(function), other),
        run_deeds(constructed(function), other) == run_deeds(function, run),
{
    let after = constructed(function);
    let starts = construction_renames(function);
    let other = follow_run(starts, function, after, tree_of(function), run);
    construction_leaves_ssa_form(function);
    matching_runs(function, run, after, other);
    asks_the_same(run_deeds(function, run));
    let last = run[run.len() - 1];
    assert(visits(function, last));
    assert(visit_matches(function, last, after, other[run.len() - 1]));
    assert(block_same_but_for_registers(
        function.blocks[last.block],
        after.blocks[last.block],
    ));
    let term = function.blocks[last.block].term;
    let now = after.blocks[last.block].term;
    if run_answer(function, run) is Some {
        assert(now.successors().len() == 0);
        assert forall|i: int| 0 <= i < now.head().len() implies held_by(
            #[trigger] now.head()[i],
            other.last().states.last(),
        ) is Some by {
            assert(held_by(term.head()[i], last.states.last()) is Some);
        }
    }
    other
}

/// Given the same words, what is the same but for registers is the same.
#[verifier::spinoff_prover]
proof fn same_given(instr: InstrView, other: InstrView, given: Seq<Value>)
    requires
        same_but_for_registers(instr, other),
        instr.written() is Some == other.written() is Some,
    ensures
        is_deed(other) == is_deed(instr),
        unnamed(other.with_operands(given)) == unnamed(instr.with_operands(given)),
{
}

/// Steps that match do the same deed, where they do any.
proof fn matching_deed(
    instr: InstrView,
    held: Held,
    next: Held,
    other: InstrView,
    other_held: Held,
    other_next: Held,
)
    requires
        step_matches(instr, held, next, other, other_held, other_next),
    ensures
        is_deed(other) == is_deed(instr),
        deed(other, other_held, other_next) == deed(instr, held, next),
{
    let given = words(instr.operands(), held);
    assert(words(other.operands(), other_held) =~= given) by {
        assert forall|i: int| 0 <= i < given.len() implies words(
            other.operands(),
            other_held,
        )[i] == given[i] by {
            assert(held_by(instr.operands()[i], held) == held_by(
                other.operands()[i],
                other_held,
            ));
        }
    }
    same_given(instr, other, given);
}

proof fn matching_visit(whole: FunctionView, visit: Visit, after: FunctionView, other: Visit)
    requires
        visit_matches(whole, visit, after, other),
    ensures
        visit_deeds(after, other) == visit_deeds(whole, visit),
{
    let instrs = whole.blocks[visit.block].instrs;
    let renamed = after.blocks[visit.block].instrs;
    assert forall|k: int| 0 <= k < instrs.len() implies is_deed(#[trigger] renamed[k]) == is_deed(
        instrs[k],
    ) && (is_deed(instrs[k]) ==> deed(renamed[k], other.states[k], other.states[k + 1]) == deed(
        instrs[k],
        visit.states[k],
        visit.states[k + 1],
    )) by {
        matching_deed(
            instrs[k],
            visit.states[k],
            visit.states[k + 1],
            renamed[k],
            other.states[k],
            other.states[k + 1],
        );
    }
    same_deeds(instrs, visit.states, renamed, other.states, instrs.len() as int);
}

/// Runs that match visit for visit do the same.
proof fn matching_runs(
    whole: FunctionView,
    run: Seq<Visit>,
    after: FunctionView,
    other: Seq<Visit>,
)
    requires
        other.len() == run.len(),
        forall|i: int|
            0 <= i < run.len() ==> visit_matches(whole, #[trigger] run[i], after, other[i]),
    ensures
        run_deeds(after, other) == run_deeds(whole, run),
{
    assert forall|i: int| 0 <= i < run.len() implies visit_deeds(after, other[i]) == visit_deeds(
        whole,
        #[trigger] run[i],
    ) by {
        matching_visit(whole, run[i], after, other[i]);
    }
    same_run_deeds(whole, run, after, other);
}

/// At the entry, where nothing is written, nothing is read that was.
proof fn nothing_to_agree(
    starts: Seq<Renaming>,
    whole: FunctionView,
    after: FunctionView,
    tree: Dominance,
)
    requires
        well_formed(whole),
        hands_nothing(whole.blocks),
        reads_only_written(whole),
    ensures
        agree(
            starts,
            whole,
            after,
            wanted(whole, tree),
            0,
            0,
            nothing_held(whole.names.len()),
            nothing_held(after.names.len()),
        ),
{
    let lists = wanted(whole, tree);
    assert forall|v: int|
        0 <= v < whole.names.len() && #[trigger] needed(
            whole.blocks,
            0,
            0,
            VReg(v as u32),
        ) implies stands_for(
        renaming_at(starts, whole, lists, 0, 0).env[v],
        nothing_held(whole.names.len())[v],
        nothing_held(after.names.len()),
    ) by {
        assert(whole.blocks[0].params.len() == 0);
        needed_is_live(whole.blocks, 0, VReg(v as u32));
        assert(live_at(whole.blocks, 0, VReg(v as u32)));
    }
}

proof fn follow_run(
    starts: Seq<Renaming>,
    whole: FunctionView,
    after: FunctionView,
    tree: Dominance,
    run: Seq<Visit>,
) -> (other: Seq<Visit>)
    requires
        well_formed(whole),
        hands_nothing(whole.blocks),
        reads_only_written(whole),
        tree.well_formed(),
        tree.graph == flow(whole.blocks),
        after.names.len() <= u32::MAX,
        renamed_from(starts, whole, after, tree, wanted(whole, tree)),
        is_execution(whole, run),
    ensures
        is_execution(after, other),
        other.len() == run.len(),
        forall|i: int|
            0 <= i < run.len() ==> visit_matches(whole, #[trigger] run[i], after, other[i]),
        agree(
            starts,
            whole,
            after,
            wanted(whole, tree),
            run.last().block,
            whole.blocks[run.last().block].instrs.len() as int,
            run.last().states.last(),
            other.last().states.last(),
        ),
    decreases run.len(),
{
    let lists = wanted(whole, tree);
    let last = run.last();
    assert(visits(whole, run[run.len() - 1]));
    if run.len() == 1 {
        let renamed = nothing_held(after.names.len());
        nothing_to_agree(starts, whole, after, tree);
        let one = follow_visit(starts, whole, after, tree, run[0], renamed);
        seq![one]
    } else {
        let shorter = run.drop_last();
        assert forall|i: int| 0 <= i < shorter.len() implies visits(
            whole,
            #[trigger] shorter[i],
        ) by {
            assert(visits(whole, run[i]));
        }
        assert forall|i: int|
            #![trigger shorter[i]]
            0 < i < shorter.len() implies goes(
            whole.blocks,
            shorter[i - 1].block,
            shorter[i - 1].states.last(),
            shorter[i].block,
            shorter[i].states[0],
        ) by {
            assert(run[i] == shorter[i] && run[i - 1] == shorter[i - 1]);
        }
        let before = follow_run(starts, whole, after, tree, shorter);
        let n = run.len() - 1;
        assert(run[n - 1] == shorter.last());
        assert(goes(
            whole.blocks,
            run[n - 1].block,
            run[n - 1].states.last(),
            run[n].block,
            run[n].states[0],
        ));
        let entering = follow_edge(
            starts,
            whole,
            after,
            tree,
            run[n - 1].block,
            run[n - 1].states.last(),
            run[n].block,
            run[n].states[0],
            before.last().states.last(),
        );
        let one = follow_visit(starts, whole, after, tree, run[n], entering);
        let other = before.push(one);
        assert forall|i: int| 0 <= i < run.len() implies visit_matches(
            whole,
            #[trigger] run[i],
            after,
            other[i],
        ) by {
            if i < n {
                assert(shorter[i] == run[i] && other[i] == before[i]);
            }
        }
        assert forall|i: int| 0 <= i < other.len() implies visits(after, #[trigger] other[i]) by {
            if i < n {
                assert(other[i] == before[i]);
            }
        }
        assert forall|i: int|
            #![trigger other[i]]
            0 < i < other.len() implies goes(
            after.blocks,
            other[i - 1].block,
            other[i - 1].states.last(),
            other[i].block,
            other[i].states[0],
        ) by {
            if i < n {
                assert(other[i] == before[i] && other[i - 1] == before[i - 1]);
            } else {
                assert(other[i - 1] == before.last());
                assert(visit_matches(whole, shorter[n - 1], after, before[n - 1]));
            }
        }
        other
    }
}

// -- where it stops ---------------------------------------------------------

/// What stops the machine stops it under other names.
#[verifier::spinoff_prover]
proof fn stuck_renamed(start: Renaming, instr: InstrView, held: Held, renamed: Held)
    requires
        may_stop(instr, held),
        worth_the_same(
            instr.operands(),
            held,
            renamed_values(start.env, instr.operands()),
            renamed,
        ),
        renamed_instr(start, instr).0.operands() == renamed_values(start.env, instr.operands()),
        renamed_instr(start, instr).0.written() is Some == instr.written() is Some,
        same_but_for_registers(instr, renamed_instr(start, instr).0),
    ensures
        may_stop(renamed_instr(start, instr).0, renamed),
        given(renamed_instr(start, instr).0, renamed) == given(instr, held),
{
    let other = renamed_instr(start, instr).0;
    let operands = instr.operands();
    let others = renamed_values(start.env, operands);
    assert forall|i: int| 0 <= i < others.len() implies held_by(
        #[trigger] others[i],
        renamed,
    ) is Some by {
        assert(held_by(operands[i], held) is Some);
    }
    let words_given = words(operands, held);
    assert(words(others, renamed) =~= words_given) by {
        assert forall|i: int| 0 <= i < operands.len() implies words(others, renamed)[i]
            == words_given[i] by {
            assert(held_by(operands[i], held) == held_by(others[i], renamed));
        }
    }
    same_given(instr, other, words_given);
    assert forall|word: i64| !may_write(instr, held, word) implies !#[trigger] may_write(
        other,
        renamed,
        word,
    ) by {
        match instr {
            InstrView::Copy { .. } => {
                assert(held_by(operands[0], held) == held_by(others[0], renamed));
            },
            InstrView::Bin { .. } => {
                assert(held_by(operands[0], held) == held_by(others[0], renamed));
                assert(held_by(operands[1], held) == held_by(others[1], renamed));
            },
            InstrView::Cmp { .. } => {
                assert(held_by(operands[0], held) == held_by(others[0], renamed));
                assert(held_by(operands[1], held) == held_by(others[1], renamed));
            },
            InstrView::Elem { .. } => {
                assert(held_by(operands[1], held) == held_by(others[1], renamed));
                assert(held_by(operands[2], held) == held_by(others[2], renamed));
            },
            _ => {},
        }
    }
}

/// **SSA form changes nothing about where a function stops.** Where a function
/// that reads nothing unwritten stops at an operation that has no answer, what it
/// becomes stops at it too, having done the same.
pub proof fn construction_keeps_where_it_stops(
    function: FunctionView,
    run: Seq<Visit>,
    last: Visit,
) -> (other: (Seq<Visit>, Visit))
    requires
        constructible(function),
        reads_only_written(function),
        halts(function, run, last),
    ensures
        stops_as(function, (run, last), constructed(function), other),
        done_before(constructed(function), other.0, other.1) == done_before(function, run, last),
{
    let after = constructed(function);
    let tree = tree_of(function);
    let lists = wanted(function, tree);
    let starts = construction_renames(function);
    let b = last.block;
    let k = last.states.len() - 1;
    let block = function.blocks[b];
    let found: (Seq<Visit>, Held) = if run.len() == 0 {
        nothing_to_agree(starts, function, after, tree);
        assert(run_deeds(after, run) =~= run_deeds(function, run));
        (run, nothing_held(after.names.len()))
    } else {
        let n = run.len() - 1;
        let other = follow_run(starts, function, after, tree, run);
        matching_runs(function, run, after, other);
        assert(visits(function, run[n]));
        assert(visit_matches(function, run[n], after, other[n]));
        let entering = follow_edge(
            starts,
            function,
            after,
            tree,
            run[n].block,
            run[n].states.last(),
            b,
            last.states[0],
            other[n].states.last(),
        );
        (other, entering)
    };
    let (other, entering) = found;
    let states = follow_steps(starts, function, after, tree, b, k, last.states, entering);
    let one = Visit { block: b, states };
    let instrs = after.blocks[b].instrs;
    naming_at(starts, function, after, tree, b, k);
    assert forall|j: int| 0 <= j < k implies is_deed(#[trigger] instrs[j]) == is_deed(
        block.instrs[j],
    ) && (is_deed(block.instrs[j]) ==> deed(instrs[j], states[j], states[j + 1]) == deed(
        block.instrs[j],
        last.states[j],
        last.states[j + 1],
    )) by {
        assert(step_matches(
            block.instrs[j],
            last.states[j],
            last.states[j + 1],
            instrs[j],
            states[j],
            states[j + 1],
        ));
        matching_deed(
            block.instrs[j],
            last.states[j],
            last.states[j + 1],
            instrs[j],
            states[j],
            states[j + 1],
        );
    }
    same_deeds(block.instrs, last.states, instrs, states, k);
    // What it reads where it stops is worth the same.
    let at = renaming_at(starts, function, lists, b, k);
    renamed_instr_is_the_same(at, block.instrs[k]);
    assert(block_within(block, function.names.len(), function.blocks.len()));
    assert(instr_within(block.instrs[k], function.names.len()));
    read_values_agree(
        starts,
        function,
        after,
        lists,
        b,
        k,
        last.states[k],
        states[k],
        block.instrs[k].operands(),
    );
    stuck_renamed(at, block.instrs[k], last.states[k], states[k]);
    asks_the_same(done_before(function, run, last));
    (other, one)
}

} // verus!
