//! Dominance: who must be gone through to reach whom.
//!
//! Two answers come out of this and SSA needs both. The **dominator tree** is
//! the order the renaming walk goes in, because a definition is visible exactly
//! where it dominates. The **dominance frontier** of a block is where its
//! dominance runs out — which is precisely the set of blocks that can be
//! reached both through it and around it, and therefore where two definitions
//! meet and a block parameter is needed.
//!
//! The tree is found by looking at the blocks in reverse postorder, over and
//! over, each going below where its predecessors agree, until nothing moves.

use vstd::prelude::*;

use super::climb::{
    above, climbed_dominates, climbs, holds_of, is_rank, meeting_of, meets, moving_takes_room,
    predecessor_dominated, ranks_apart, ranks_differ, room_to_move, search_goes_on, search_moves,
    searches_well, settled,
};
use super::order::{goes_forward, is_reverse_post_order, reverse_post_order};
use crate::graph::{edges, leads, reaches, way_from, way_up_to, Graph};
use crate::ir::block::{flow, reached, successor_lists};
use crate::ir::func::{all_reached, block_within, well_formed, Function, FunctionView};
use crate::ir::value::BlockId;

verus! {

// -- what dominance is ------------------------------------------------------

/// Whether every way from the first node to `b` goes through `a`.
pub open spec fn dominates(graph: Graph, a: int, b: int) -> bool {
    forall|path: Seq<int>| #[trigger] leads(graph, path, 0, b) ==> path.contains(a)
}

/// Whether `d` is the last node that every way to `b` goes through before `b`.
pub open spec fn is_idom(graph: Graph, d: int, b: int) -> bool {
    &&& d != b
    &&& dominates(graph, d, b)
    &&& forall|e: int|
        0 <= e < graph.len() && e != b && #[trigger] dominates(graph, e, b) ==> dominates(
            graph,
            e,
            d,
        )
}

/// How many edges go into a node.
pub open spec fn in_degree(graph: Graph, b: int) -> nat {
    edges_into(graph, b, graph.len() as int)
}

/// How many edges go into a node out of the first `n`.
pub open spec fn edges_into(graph: Graph, b: int, n: int) -> nat
    decreases n,
{
    if n <= 0 {
        0
    } else {
        edges_into(graph, b, n - 1) + occurrences(graph[n - 1], b)
    }
}

/// How often a number is in a list.
pub open spec fn occurrences(list: Seq<int>, b: int) -> nat
    decreases list.len(),
{
    if list.len() == 0 {
        0
    } else {
        occurrences(list.drop_last(), b) + if list.last() == b {
            1nat
        } else {
            0nat
        }
    }
}

/// Whether the dominance of `x` runs out at `b`: two ways meet there, and one of
/// them comes through `x` from a predecessor that `x` dominates, while `x` does
/// not dominate where the ways had not yet parted.
pub open spec fn in_frontier(graph: Graph, idom: spec_fn(int) -> int, x: int, b: int) -> bool {
    &&& in_degree(graph, b) >= 2
    &&& exists|p: int|
        0 <= p < graph.len() && #[trigger] graph[p].contains(b) && dominates(graph, x, p)
            && !dominates(graph, x, idom(b))
}

pub proof fn dominates_itself(graph: Graph, a: int)
    ensures
        dominates(graph, a, a),
{
    assert forall|path: Seq<int>| #[trigger] leads(graph, path, 0, a) implies path.contains(a) by {
        assert(path[path.len() - 1] == a);
    }
}

/// The first node dominates every node.
pub proof fn entry_dominates(graph: Graph, b: int)
    ensures
        dominates(graph, 0, b),
{
    assert forall|path: Seq<int>| #[trigger] leads(graph, path, 0, b) implies path.contains(0) by {
        assert(path[0] == 0);
    }
}

/// What dominates a dominator dominates.
pub proof fn dominates_through(graph: Graph, a: int, b: int, c: int)
    requires
        dominates(graph, a, b),
        dominates(graph, b, c),
    ensures
        dominates(graph, a, c),
{
    assert forall|path: Seq<int>| #[trigger] leads(graph, path, 0, c) implies path.contains(a) by {
        assert(path.contains(b));
        let at = choose|at: int| 0 <= at < path.len() && path[at] == b;
        way_up_to(graph, path, 0, c, at);
        let part = path.subrange(0, at + 1);
        assert(leads(graph, part, 0, b));
        assert(part.contains(a));
        let k = choose|k: int| 0 <= k < part.len() && part[k] == a;
        assert(path[k] == a);
    }
}

/// The last place a value stands at in a list.
proof fn last_place(path: Seq<int>, a: int) -> (at: int)
    requires
        path.contains(a),
    ensures
        0 <= at < path.len(),
        path[at] == a,
        forall|k: int| at < k < path.len() ==> path[k] != a,
    decreases path.len(),
{
    if path.last() == a {
        path.len() - 1
    } else {
        let rest = path.drop_last();
        let k = choose|k: int| 0 <= k < path.len() && path[k] == a;
        assert(rest[k] == a);
        let at = last_place(rest, a);
        assert forall|k: int| at < k < path.len() implies path[k] != a by {
            if k < rest.len() {
                assert(rest[k] == path[k]);
            }
        }
        at
    }
}

/// Two ways end to end.
pub proof fn way_joined(graph: Graph, first: Seq<int>, second: Seq<int>, a: int, b: int, c: int)
    requires
        leads(graph, first, a, b),
        leads(graph, second, b, c),
    ensures
        leads(graph, first + second.drop_first(), a, c),
{
    let joined = first + second.drop_first();
    let n = first.len() as int;
    assert forall|i: int| 0 <= i < joined.len() implies 0 <= #[trigger] joined[i] < graph.len() by {
        if i >= n {
            assert(joined[i] == second[i - n + 1]);
        }
    }
    assert forall|i: int| 0 <= i < joined.len() - 1 implies (#[trigger] graph[joined[i]]).contains(
        joined[i + 1],
    ) by {
        if i + 1 < n {
            assert(graph[first[i]].contains(first[i + 1]));
        } else {
            assert(joined[i] == second[i - n + 1]);
            assert(joined[i + 1] == second[i - n + 1 + 1]);
            assert(graph[second[i - n + 1]].contains(second[i - n + 1 + 1]));
        }
    }
    assert(joined[0] == a);
    assert(joined.last() == c);
}

/// Of two dominators of a node that can be reached, one dominates the other.
pub proof fn dominators_in_line(graph: Graph, a: int, c: int, b: int)
    requires
        reaches(graph, 0, b),
        dominates(graph, a, b),
        dominates(graph, c, b),
    ensures
        dominates(graph, a, c) || dominates(graph, c, a),
{
    let path = choose|path: Seq<int>| leads(graph, path, 0, b);
    let at_a = last_place(path, a);
    let at_c = last_place(path, c);
    if at_a <= at_c {
        one_before_the_other(graph, path, a, c, b, at_a, at_c);
    } else {
        one_before_the_other(graph, path, c, a, b, at_c, at_a);
    }
}

proof fn one_before_the_other(
    graph: Graph,
    path: Seq<int>,
    a: int,
    c: int,
    b: int,
    at_a: int,
    at_c: int,
)
    requires
        leads(graph, path, 0, b),
        dominates(graph, a, b),
        0 <= at_a <= at_c < path.len(),
        path[at_a] == a,
        path[at_c] == c,
        forall|k: int| at_a < k < path.len() ==> path[k] != a,
    ensures
        dominates(graph, a, c),
{
    assert forall|other: Seq<int>| #[trigger] leads(graph, other, 0, c) implies other.contains(a) by {
        way_from(graph, path, 0, b, at_c);
        let rest = path.subrange(at_c, path.len() as int);
        way_joined(graph, other, rest, 0, c, b);
        let joined = other + rest.drop_first();
        assert(leads(graph, joined, 0, b));
        assert(joined.contains(a));
        let k = choose|k: int| 0 <= k < joined.len() && joined[k] == a;
        if k >= other.len() {
            assert(joined[k] == path[at_c + (k - other.len()) + 1]);
        } else {
            assert(other[k] == a);
        }
    }
}

/// Two different nodes that can be reached do not dominate each other.
pub proof fn dominance_is_one_way(graph: Graph, a: int, b: int, path: Seq<int>)
    requires
        leads(graph, path, 0, a),
        dominates(graph, a, b),
        dominates(graph, b, a),
        0 <= b < graph.len(),
    ensures
        a == b,
    decreases path.len(),
{
    if a != b {
        assert(path.contains(b));
        let at = choose|at: int| 0 <= at < path.len() && path[at] == b;
        assert(at < path.len() - 1);
        way_up_to(graph, path, 0, a, at);
        dominance_is_one_way(graph, b, a, path.subrange(0, at + 1));
    }
}

/// A node that can be reached has one immediate dominator at most.
pub proof fn idom_is_unique(graph: Graph, d: int, e: int, b: int)
    requires
        reaches(graph, 0, d),
        0 <= d < graph.len(),
        0 <= e < graph.len(),
        is_idom(graph, d, b),
        is_idom(graph, e, b),
    ensures
        d == e,
{
    let path = choose|path: Seq<int>| leads(graph, path, 0, d);
    assert(dominates(graph, d, b) && dominates(graph, e, b));
    dominance_is_one_way(graph, d, e, path);
}

// -- the tree ---------------------------------------------------------------

pub struct Dominators {
    /// Immediate dominator of each block. The entry is its own, which is what
    /// makes the walk up terminate without a special case.
    idom: Vec<BlockId>,
    /// Reverse postorder, which every walk over the tree wants.
    order: Vec<BlockId>,
    predecessors: Vec<Vec<BlockId>>,
    graph: Ghost<Graph>,
    rank: Ghost<Seq<u32>>,
}

/// What [`Dominators`] hold of a graph.
#[verifier::ext_equal]
pub struct Dominance {
    pub graph: Graph,
    pub idom: Seq<int>,
}

impl Dominance {
    /// Whether every block's immediate dominator is that, the entry being its
    /// own.
    pub open spec fn well_formed(self) -> bool {
        &&& 0 < self.graph.len() == self.idom.len() <= u32::MAX
        &&& self.idom[0] == 0
        &&& forall|b: int|
            0 < b < self.graph.len() ==> 0 <= #[trigger] self.idom[b] < self.graph.len()
                && is_idom(self.graph, self.idom[b], b)
        &&& forall|b: int| 0 <= b < self.graph.len() ==> #[trigger] reaches(self.graph, 0, b)
        &&& forall|node: int, i: int|
            #![trigger self.graph[node][i]]
            0 <= node < self.graph.len() && 0 <= i < self.graph[node].len() ==> 0
                <= self.graph[node][i] < self.graph.len()
    }

    /// The blocks whose immediate dominator is `parent`, in order.
    pub open spec fn children_before(self, parent: int, n: int) -> Seq<BlockId>
        decreases n,
    {
        if n <= 1 {
            seq![]
        } else {
            let rest = self.children_before(parent, n - 1);
            if self.idom[n - 1] == parent {
                rest.push(BlockId((n - 1) as u32))
            } else {
                rest
            }
        }
    }

    pub open spec fn children(self, parent: int) -> Seq<BlockId> {
        self.children_before(parent, self.graph.len() as int)
    }

    /// Whether `b` is where the dominance of `x` runs out.
    pub open spec fn frontier(self, x: int, b: int) -> bool {
        in_frontier(self.graph, |at: int| self.idom[at], x, b)
    }

    /// Where the dominance of `x` runs out, among the first `n` blocks of an
    /// order, in that order.
    pub open spec fn frontier_in(self, order: Seq<BlockId>, x: int, n: int) -> Seq<BlockId>
        decreases n,
    {
        if n <= 0 {
            seq![]
        } else {
            let rest = self.frontier_in(order, x, n - 1);
            if self.frontier(x, order[n - 1].0 as int) {
                rest.push(order[n - 1])
            } else {
                rest
            }
        }
    }
}

/// The predecessors of a block, in order, once for every edge: out of the first
/// `n` blocks.
pub open spec fn predecessors_before(graph: Graph, b: int, n: int) -> Seq<BlockId>
    decreases n,
{
    if n <= 0 {
        seq![]
    } else {
        predecessors_before(graph, b, n - 1) + repeated(
            BlockId((n - 1) as u32),
            occurrences(graph[n - 1], b),
        )
    }
}

/// As many times the same.
pub open spec fn repeated(id: BlockId, times: nat) -> Seq<BlockId> {
    Seq::new(times, |i: int| id)
}

proof fn predecessors_count(graph: Graph, b: int, n: int)
    ensures
        predecessors_before(graph, b, n).len() == edges_into(graph, b, n),
    decreases n,
{
    if n > 0 {
        predecessors_count(graph, b, n - 1);
    }
}

/// The predecessors of a block are the blocks with an edge into it.
pub proof fn predecessors_are(graph: Graph, b: int, n: int)
    requires
        0 <= n <= graph.len() <= u32::MAX,
    ensures
        forall|p: int|
            0 <= p < graph.len() ==> (#[trigger] graph[p].contains(b) && p < n)
                == predecessors_before(graph, b, n).contains(BlockId(p as u32)),
        forall|k: int|
            0 <= k < predecessors_before(graph, b, n).len() ==> (#[trigger] predecessors_before(
                graph,
                b,
                n,
            )[k]).0 < n,
    decreases n,
{
    if n > 0 {
        predecessors_are(graph, b, n - 1);
        occurrences_found(graph[n - 1], b);
        let before = predecessors_before(graph, b, n - 1);
        let now = predecessors_before(graph, b, n);
        let here = repeated(BlockId((n - 1) as u32), occurrences(graph[n - 1], b));
        assert forall|p: int| 0 <= p < graph.len() implies (#[trigger] graph[p].contains(b) && p
            < n) == now.contains(BlockId(p as u32)) by {
            let id = BlockId(p as u32);
            if now.contains(id) {
                let k = choose|k: int| 0 <= k < now.len() && now[k] == id;
                if k < before.len() {
                    assert(before[k] == id);
                    assert(before.contains(id));
                } else {
                    assert(here[k - before.len()] == id);
                }
            }
            if graph[p].contains(b) && p < n {
                if p == n - 1 {
                    assert(here[0] == id);
                    assert(now[before.len() as int] == id);
                } else {
                    let k = choose|k: int| 0 <= k < before.len() && before[k] == id;
                    assert(now[k] == id);
                }
            }
        }
    }
}

proof fn occurrences_found(list: Seq<int>, b: int)
    ensures
        (occurrences(list, b) > 0) == list.contains(b),
    decreases list.len(),
{
    if list.len() > 0 {
        let rest = list.drop_last();
        occurrences_found(rest, b);
        if list.contains(b) {
            let k = choose|k: int| 0 <= k < list.len() && list[k] == b;
            if k < rest.len() {
                assert(rest[k] == b);
            }
        }
        if rest.contains(b) {
            let k = choose|k: int| 0 <= k < rest.len() && rest[k] == b;
            assert(list[k] == b);
        }
        if list.last() == b {
            assert(list[list.len() - 1] == b);
        }
    }
}

impl View for Dominators {
    type V = Dominance;

    closed spec fn view(&self) -> Dominance {
        Dominance {
            graph: self.graph@,
            idom: self.idom@.map_values(|id: BlockId| id.0 as int),
        }
    }
}

/// Whether every edge of a graph stays inside it.
pub open spec fn closed(graph: Graph) -> bool {
    forall|node: int, i: int|
        #![trigger graph[node][i]]
        0 <= node < graph.len() && 0 <= i < graph[node].len() ==> 0 <= graph[node][i] < graph.len()
}

/// The blocks of a function that names only its own make a closed graph.
pub proof fn flow_is_closed(function: FunctionView)
    requires
        well_formed(function),
    ensures
        flow(function.blocks).len() == function.blocks.len(),
        closed(flow(function.blocks)),
{
    let graph = flow(function.blocks);
    assert forall|node: int, i: int|
        #![trigger graph[node][i]]
        0 <= node < graph.len() && 0 <= i < graph[node].len() implies 0 <= graph[node][i]
        < graph.len() by {
        let block = function.blocks[node];
        assert(block_within(block, function.names.len(), function.blocks.len()));
        assert(graph[node][i] == block.term.targets()[i].block.0);
    }
}

impl Dominators {
    /// The blocks in reverse postorder.
    pub closed spec fn order(self) -> Seq<BlockId> {
        self.order@
    }

    /// Whether the tree, the order and the predecessors are those of the graph.
    pub closed spec fn well_formed(self) -> bool {
        &&& self@.well_formed()
        &&& is_reverse_post_order(self@.graph, self.order@)
        &&& goes_forward(self@.graph, self.order@)
        &&& is_rank(self.order@, self.rank@)
        &&& forall|b: int|
            0 < b < self@.graph.len() ==> self.rank@[#[trigger] self@.idom[b]] < self.rank@[b]
        &&& self.predecessors@.len() == self@.graph.len()
        &&& forall|b: int|
            0 <= b < self@.graph.len() ==> (#[trigger] self.predecessors@[b])@
                == predecessors_before(self@.graph, b, self@.graph.len() as int)
    }

    pub fn of(function: &Function) -> (dominators: Dominators)
        requires
            well_formed(function@),
            all_reached(function@.blocks),
        ensures
            dominators.well_formed(),
            dominators@.well_formed(),
            dominators@.graph == flow(function@.blocks),
            is_reverse_post_order(flow(function@.blocks), dominators.order()),
    {
        let ghost graph = flow(function@.blocks);
        let next: Vec<Vec<usize>> = successor_lists(&function.blocks);
        let count: usize = next.len();
        proof {
            flow_is_closed(function@);
            assert(edges(next@).len() == count);
            assert forall|b: int| 0 <= b < count implies #[trigger] reaches(graph, 0, b) by {
                assert(reached(function@.blocks, b));
            }
        }
        let order: Vec<BlockId> = reverse_post_order(&next);
        let rank: Vec<u32> = ranks(&order);
        let predecessors: Vec<Vec<BlockId>> = predecessors(&next);
        let mut up: Vec<Option<BlockId>> = Vec::new();
        let mut b: usize = 0;
        while b < count
            invariant
                b <= count,
                up@.len() == b,
                forall|x: int| 0 <= x < b ==> #[trigger] up@[x] == if x == 0 {
                    Some(BlockId(0))
                } else {
                    None
                },
            decreases count - b,
        {
            up.push(
                if b == 0 {
                    Some(BlockId(0))
                } else {
                    None
                },
            );
            b = b + 1;
        }
        let ghost from = Seq::new(
            graph.len(),
            |c: int|
                choose|p: int|
                    0 <= p < graph.len() && rank@[p] < rank@[c] && #[trigger] graph[p].contains(c),
        );
        let ghost mut done: int = 1;
        proof {
            assert forall|c: int| 0 < c < graph.len() implies 0 <= #[trigger] from[c] < graph.len()
                && rank@[from[c]] < rank@[c] && graph[from[c]].contains(c) by {
                let j = rank@[c] as int;
                assert(order@[j].0 == c);
                assert(order@[0].0 == 0);
                let i = choose|i: int|
                    0 <= i < j && graph[(#[trigger] order@[i]).0 as int].contains(
                        (#[trigger] order@[j]).0 as int,
                    );
                let p = order@[i].0 as int;
                assert(rank@[p] == i);
                assert(graph[p].contains(c));
            }
            assert forall|x: int| 0 <= x < count implies (#[trigger] up@[x]) is Some == (rank@[x]
                < done) by {
                if x != 0 {
                    ranks_apart(rank@, x, 0);
                }
            }
            assert(searches_well(graph, up@, rank@, from, 1, done));
        }
        let mut changed: bool = true;
        while changed
            invariant
                0 < count == graph.len() <= u32::MAX,
                count == order@.len() == rank@.len() == up@.len() == predecessors@.len(),
                is_rank(order@, rank@),
                forall|b: int|
                    0 <= b < count ==> (#[trigger] predecessors@[b])@ == predecessors_before(
                        graph,
                        b,
                        count as int,
                    ),
                searches_well(graph, up@, rank@, from, 1, done),
                done == 1 || done == count,
                !changed ==> done == count && forall|c: int|
                    0 < c < count ==> #[trigger] settled(graph, up@, rank@, c),
            decreases
                    room_to_move(up@, rank@, count as int),
                    if changed {
                        1int
                    } else {
                        0int
                    },
        {
            changed = false;
            let ghost start = up@;
            let ghost room = room_to_move(up@, rank@, count as int);
            // The entry dominates itself and nothing decides that, so it is
            // skipped rather than recomputed.
            let mut i: usize = 1;
            while i < count
                invariant
                    1 <= i <= count == graph.len() <= u32::MAX,
                    count == order@.len() == rank@.len() == up@.len() == predecessors@.len(),
                    is_rank(order@, rank@),
                    forall|b: int|
                        0 <= b < count ==> (#[trigger] predecessors@[b])@ == predecessors_before(
                            graph,
                            b,
                            count as int,
                        ),
                    searches_well(graph, up@, rank@, from, i as int, done),
                    done == i || done == count,
                    room_to_move(up@, rank@, count as int) <= room,
                    changed ==> room_to_move(up@, rank@, count as int) < room,
                    !changed ==> up@ == start && (done == count || i == 1) && forall|c: int|
                        0 < c < count && rank@[c] < i ==> #[trigger] settled(
                            graph,
                            up@,
                            rank@,
                            c,
                        ),
                decreases count - i,
            {
                let block: BlockId = order[i];
                let ghost b = block.0 as int;
                proof {
                    assert(rank@[order@[i as int].0 as int] == i);
                    assert(0 <= from[b] < graph.len());
                    assert(up@[from[b]] is Some);
                    predecessors_are(graph, b, graph.len() as int);
                }
                let into: &Vec<BlockId> = &predecessors[block.0 as usize];
                let ghost held = up@;
                let moved: bool = look_at(
                    &mut up,
                    &rank,
                    into,
                    block,
                    Ghost(graph),
                    Ghost(from),
                    Ghost(done),
                );
                proof {
                    if held[b] is None {
                        done = i + 1;
                    }
                    if !moved {
                        assert forall|c: int|
                            !changed && 0 < c < count && rank@[c] < i + 1 implies #[trigger] settled(
                            graph,
                            up@,
                            rank@,
                            c,
                        ) by {
                            if rank@[c] == i {
                                assert(order@[rank@[c] as int].0 == c);
                                all_settled(graph, up@, rank@, from, i + 1, b);
                            }
                        }
                    }
                }
                if moved {
                    changed = true;
                }
                i = i + 1;
            }
            proof {
                assert forall|c: int| 0 < c < graph.len() && (#[trigger] up@[c])
                    is Some implies holds_of(graph, up@, rank@, from, 1, c) by {
                    assert(holds_of(graph, up@, rank@, from, i as int, c));
                    assert(rank@[c] < rank@.len());
                }
                if !changed {
                    assert forall|c: int| 0 < c < count implies #[trigger] settled(
                        graph,
                        up@,
                        rank@,
                        c,
                    ) by {
                        assert(rank@[c] < rank@.len());
                    }
                }
            }
        }
        let mut idom: Vec<BlockId> = Vec::new();
        let mut b: usize = 0;
        while b < count
            invariant
                b <= count == up@.len(),
                idom@.len() == b,
                forall|x: int| 0 <= x < count ==> (#[trigger] up@[x]) is Some,
                forall|x: int| 0 <= x < b ==> #[trigger] idom@[x] == up@[x]->0,
            decreases count - b,
        {
            idom.push(
                match up[b] {
                    Some(d) => d,
                    None => BlockId(0),
                },
            );
            b = b + 1;
        }
        let dominators = Dominators {
            idom,
            order,
            predecessors,
            graph: Ghost(graph),
            rank: Ghost(rank@),
        };
        proof {
            assert forall|b: int| 0 < b < graph.len() implies 0 <= #[trigger] dominators@.idom[b]
                < graph.len() && is_idom(graph, dominators@.idom[b], b) && rank@[dominators@.idom[b]]
                < rank@[b] by {
                assert(up@[b] is Some);
                let d = above(up@, b);
                assert(dominators@.idom[b] == idom@[b].0 as int);
                assert(idom@[b] == up@[b]->0);
                assert(holds_of(graph, up@, rank@, from, 1, b));
                assert(climbs(up@, rank@, b, d)) by {
                    assert(climbs(up@, rank@, d, d));
                }
                assert forall|path: Seq<int>| #[trigger] leads(
                    graph,
                    path,
                    0,
                    b,
                ) implies path.contains(d) by {
                    climbed_dominates(graph, up@, rank@, path, b, d);
                }
            }
            assert(dominators@.idom[0] == idom@[0].0 as int);
            assert(idom@[0] == up@[0]->0);
        }
        dominators
    }

    pub fn idom(&self, block: BlockId) -> (id: BlockId)
        requires
            self.well_formed(),
            block.0 < self@.graph.len(),
        ensures
            id.0 == self@.idom[block.0 as int],
            id.0 < self@.graph.len(),
    {
        assert(self@.idom[block.0 as int] == self.idom@[block.0 as int].0 as int);
        self.idom[block.0 as usize]
    }

    pub fn predecessors(&self, block: BlockId) -> (ids: &Vec<BlockId>)
        requires
            self.well_formed(),
            block.0 < self@.graph.len(),
        ensures
            ids@ == predecessors_before(
                self@.graph,
                block.0 as int,
                self@.graph.len() as int,
            ),
    {
        &self.predecessors[block.0 as usize]
    }

    /// The dominator tree, as the children of each block.
    pub fn children(&self) -> (children: Vec<Vec<BlockId>>)
        requires
            self.well_formed(),
        ensures
            children@.len() == self@.graph.len(),
            forall|parent: int|
                0 <= parent < children@.len() ==> (#[trigger] children@[parent])@
                    == self@.children(parent),
    {
        let count: usize = self.idom.len();
        let ghost tree = self@;
        let mut children: Vec<Vec<BlockId>> = empty_lists(count);
        assert forall|parent: int| 0 <= parent < count implies (#[trigger] children@[parent])@
            == tree.children_before(parent, 1) by {}
        let mut index: usize = 1;
        while index < count
            invariant
                1 <= index <= count,
                count == self@.graph.len(),
                tree == self@,
                self.well_formed(),
                children@.len() == count,
                forall|parent: int|
                    0 <= parent < count ==> (#[trigger] children@[parent])@
                        == tree.children_before(parent, index as int),
            decreases count - index,
        {
            let parent: usize = self.idom(BlockId(index as u32)).0 as usize;
            let ghost before = children@;
            children[parent].push(BlockId(index as u32));
            assert forall|other: int| 0 <= other < count implies (#[trigger] children@[other])@
                == tree.children_before(other, index + 1) by {
                assert(before[other]@ == tree.children_before(other, index as int));
            }
            index = index + 1;
        }
        children
    }

    /// Where each block's dominance runs out, in reverse postorder.
    ///
    /// A block `b` joining two or more paths is on the frontier of everything
    /// on those paths from each predecessor up to — but not including — `b`'s
    /// own immediate dominator, which is where the paths had not yet parted.
    pub fn frontiers(&self) -> (frontiers: Vec<Vec<BlockId>>)
        requires
            self.well_formed(),
        ensures
            frontiers@.len() == self@.graph.len(),
            forall|x: int|
                0 <= x < frontiers@.len() ==> (#[trigger] frontiers@[x])@ == self@.frontier_in(
                    self.order(),
                    x,
                    self@.graph.len() as int,
                ),
            forall|x: int, k: int|
                #![trigger frontiers@[x]@[k]]
                0 <= x < frontiers@.len() && 0 <= k < frontiers@[x]@.len()
                    ==> frontiers@[x]@[k].0 < self@.graph.len(),
            forall|x: int, b: int|
                0 <= x < frontiers@.len() && 0 <= b < self@.graph.len()
                    ==> frontiers@[x]@.contains(BlockId(b as u32)) == #[trigger] self@.frontier(
                    x,
                    b,
                ),
            forall|x: int| 0 <= x < frontiers@.len() ==> (#[trigger] frontiers@[x])@.no_duplicates(),
    {
        let count: usize = self.idom.len();
        let ghost tree = self@;
        let ghost graph = tree.graph;
        let ghost order = self.order@;
        let mut frontiers: Vec<Vec<BlockId>> = empty_lists(count);
        assert forall|x: int| 0 <= x < count implies (#[trigger] frontiers@[x])@
            == tree.frontier_in(order, x, 0) by {}
        let mut i: usize = 0;
        while i < count
            invariant
                i <= count == graph.len(),
                tree == self@,
                graph == tree.graph,
                order == self.order@,
                self.well_formed(),
                frontiers@.len() == count,
                forall|x: int|
                    0 <= x < count ==> (#[trigger] frontiers@[x])@ == tree.frontier_in(
                        order,
                        x,
                        i as int,
                    ),
            decreases count - i,
        {
            let block: BlockId = self.order[i];
            let ghost b = block.0 as int;
            assert(order[i as int].0 < graph.len());
            let into: &Vec<BlockId> = self.predecessors(block);
            proof {
                predecessors_count(graph, b, graph.len() as int);
                predecessors_are(graph, b, graph.len() as int);
            }
            if into.len() >= 2 {
                let parted: BlockId = self.idom(block);
                let ghost before = frontiers@;
                let mut k: usize = 0;
                while k < into.len()
                    invariant
                        k <= into@.len(),
                        i < count == graph.len(),
                        block == order[i as int],
                        b == block.0 < graph.len(),
                        tree == self@,
                        graph == tree.graph,
                        order == self.order@,
                        self.well_formed(),
                        parted.0 < graph.len(),
                        parted.0 == tree.idom[b],
                        forall|j: int| 0 <= j < into@.len() ==> (#[trigger] into@[j]).0 < graph.len(),
                        forall|p: int|
                            0 <= p < graph.len() ==> #[trigger] graph[p].contains(b)
                                == into@.contains(BlockId(p as u32)),
                        before.len() == frontiers@.len() == count,
                        forall|x: int|
                            0 <= x < count ==> (#[trigger] before[x])@ == tree.frontier_in(
                                order,
                                x,
                                i as int,
                            ),
                        forall|x: int|
                            0 <= x < count ==> (#[trigger] frontiers@[x])@ == marked(
                                before[x]@,
                                block,
                                parts(graph, into@, parted.0 as int, k as int, x),
                            ),
                    decreases into@.len() - k,
                {
                    let pred: BlockId = into[k];
                    let ghost p = pred.0 as int;
                    let ghost d = parted.0 as int;
                    let mut runner: BlockId = pred;
                    proof {
                        assert(BlockId(p as u32) == into@[k as int]);
                        assert(into@.contains(BlockId(p as u32)));
                        assert(graph[p].contains(b));
                        if b == 0 {
                            entry_dominates(graph, p);
                        } else {
                            assert(is_idom(graph, tree.idom[b], b));
                            predecessor_dominated(graph, d, p, b);
                        }
                        dominates_itself(graph, p);
                    }
                    while runner.0 != parted.0
                        invariant
                            i < count == graph.len(),
                            block == order[i as int],
                            b == block.0 < graph.len(),
                            tree == self@,
                            graph == tree.graph,
                            order == self.order@,
                            self.well_formed(),
                            k < into@.len(),
                            pred == into@[k as int],
                            p == pred.0 < graph.len(),
                            d == parted.0 < graph.len(),
                            runner.0 < graph.len(),
                            dominates(graph, d, runner.0 as int),
                            dominates(graph, runner.0 as int, p),
                            before.len() == frontiers@.len() == count,
                            forall|x: int|
                                0 <= x < count ==> (#[trigger] before[x])@ == tree.frontier_in(
                                    order,
                                    x,
                                    i as int,
                                ),
                            forall|x: int|
                                0 <= x < count ==> (#[trigger] frontiers@[x])@ == marked(
                                    before[x]@,
                                    block,
                                    parts(graph, into@, d, k as int, x) || (dominates(graph, x, p)
                                        && !dominates(graph, x, runner.0 as int)),
                                ),
                        decreases self.rank@[runner.0 as int],
                    {
                        let ghost r = runner.0 as int;
                        let ghost held = frontiers@;
                        let at: usize = runner.0 as usize;
                        proof {
                            if r == 0 {
                                entry_dominates_alone(graph, d);
                            }
                            assert(r != 0);
                            assert(is_idom(graph, tree.idom[r], r));
                            frontier_in_before(tree, order, r, i as int);
                        }
                        if !listed(&frontiers[at], block) {
                            frontiers[at].push(block);
                        }
                        runner = self.idom(runner);
                        proof {
                            let up = runner.0 as int;
                            dominates_through(graph, up, r, p);
                            step_up(graph, up, r);
                            assert forall|x: int| 0 <= x < count implies (#[trigger] frontiers@[x])@
                                == marked(
                                before[x]@,
                                block,
                                parts(graph, into@, d, k as int, x) || (dominates(graph, x, p)
                                    && !dominates(graph, x, up)),
                            ) by {
                                assert(held[x]@ == marked(
                                    before[x]@,
                                    block,
                                    parts(graph, into@, d, k as int, x) || (dominates(graph, x, p)
                                        && !dominates(graph, x, r)),
                                ));
                                if x == r {
                                    dominates_itself(graph, r);
                                    contains_pushed(before[x]@, block);
                                } else if dominates(graph, x, r) {
                                    dominates_through(graph, x, r, p);
                                }
                            }
                        }
                    }
                    proof {
                        assert forall|x: int| 0 <= x < count implies (#[trigger] frontiers@[x])@
                            == marked(
                            before[x]@,
                            block,
                            parts(graph, into@, d, k + 1, x),
                        ) by {
                            parts_further(graph, into@, d, k as int, x);
                        }
                    }
                    k = k + 1;
                }
                proof {
                    assert forall|x: int| 0 <= x < count implies (#[trigger] frontiers@[x])@
                        == tree.frontier_in(order, x, i + 1) by {
                        assert(parts(graph, into@, parted.0 as int, into@.len() as int, x)
                            == tree.frontier(x, b)) by {
                            parts_are(tree, into@, b, x);
                        }
                    }
                }
            }
            i = i + 1;
        }
        proof {
            assert forall|x: int, k: int|
                #![trigger frontiers@[x]@[k]]
                0 <= x < count && 0 <= k < frontiers@[x]@.len() implies frontiers@[x]@[k].0
                < graph.len() by {
                assert(frontiers@[x]@ == tree.frontier_in(order, x, count as int));
                frontier_in_before(tree, order, x, count as int);
                assert(order.contains(frontiers@[x]@[k]));
            }
            assert forall|x: int, b: int|
                0 <= x < count && 0 <= b < count implies frontiers@[x]@.contains(BlockId(b as u32))
                == #[trigger] tree.frontier(x, b) by {
                assert(frontiers@[x]@ == tree.frontier_in(order, x, count as int));
                frontier_in_before(tree, order, x, count as int);
                assert(order.contains(BlockId(b as u32)));
                let j = choose|j: int| 0 <= j < order.len() && order[j] == BlockId(b as u32);
                if tree.frontier(x, b) {
                    frontier_in_holds(tree, order, x, count as int, j);
                }
                if frontiers@[x]@.contains(BlockId(b as u32)) {
                    let k = choose|k: int|
                        0 <= k < frontiers@[x]@.len() && frontiers@[x]@[k] == BlockId(b as u32);
                    assert(tree.frontier(x, frontiers@[x]@[k].0 as int));
                }
            }
            assert forall|x: int| 0 <= x < count implies (
            #[trigger] frontiers@[x])@.no_duplicates() by {
                frontier_in_before(tree, order, x, count as int);
            }
        }
        frontiers
    }
}

/// A list with a block behind it, where that is due.
pub open spec fn marked(list: Seq<BlockId>, block: BlockId, due: bool) -> Seq<BlockId> {
    if due {
        list.push(block)
    } else {
        list
    }
}

/// Whether one of the first `k` predecessors is dominated by `x`, which does not
/// dominate where the ways had not yet parted.
pub open spec fn parts(graph: Graph, into: Seq<BlockId>, d: int, k: int, x: int) -> bool {
    exists|j: int|
        0 <= j < k && dominates(graph, x, (#[trigger] into[j]).0 as int) && !dominates(graph, x, d)
}

proof fn parts_further(graph: Graph, into: Seq<BlockId>, d: int, k: int, x: int)
    requires
        0 <= k < into.len(),
    ensures
        parts(graph, into, d, k + 1, x) == (parts(graph, into, d, k, x) || (dominates(
            graph,
            x,
            into[k].0 as int,
        ) && !dominates(graph, x, d))),
{
    if parts(graph, into, d, k + 1, x) {
        let j = choose|j: int|
            0 <= j < k + 1 && dominates(graph, x, (#[trigger] into[j]).0 as int) && !dominates(
                graph,
                x,
                d,
            );
        if j < k {
            assert(dominates(graph, x, into[j].0 as int));
        }
    }
    if parts(graph, into, d, k, x) {
        let j = choose|j: int|
            0 <= j < k && dominates(graph, x, (#[trigger] into[j]).0 as int) && !dominates(
                graph,
                x,
                d,
            );
        assert(dominates(graph, x, into[j].0 as int));
    }
}

proof fn parts_are(tree: Dominance, into: Seq<BlockId>, b: int, x: int)
    requires
        into.len() >= 2,
        into.len() == in_degree(tree.graph, b),
        tree.graph.len() <= u32::MAX,
        forall|j: int| 0 <= j < into.len() ==> (#[trigger] into[j]).0 < tree.graph.len(),
        forall|p: int|
            0 <= p < tree.graph.len() ==> #[trigger] tree.graph[p].contains(b) == into.contains(
                BlockId(p as u32),
            ),
    ensures
        parts(tree.graph, into, tree.idom[b], into.len() as int, x) == tree.frontier(x, b),
{
    let graph = tree.graph;
    let d = tree.idom[b];
    if parts(graph, into, d, into.len() as int, x) {
        let j = choose|j: int|
            0 <= j < into.len() && dominates(graph, x, (#[trigger] into[j]).0 as int)
                && !dominates(graph, x, d);
        let p = into[j].0 as int;
        assert(into[j] == BlockId(p as u32));
        assert(into.contains(BlockId(p as u32)));
        assert(graph[p].contains(b));
    }
    if tree.frontier(x, b) {
        let p = choose|p: int|
            0 <= p < graph.len() && #[trigger] graph[p].contains(b) && dominates(graph, x, p)
                && !dominates(graph, x, d);
        assert(into.contains(BlockId(p as u32)));
        let j = choose|j: int| 0 <= j < into.len() && into[j] == BlockId(p as u32);
        assert(dominates(graph, x, into[j].0 as int));
    }
}

/// Only the entry dominates the entry.
proof fn entry_dominates_alone(graph: Graph, d: int)
    requires
        graph.len() > 0,
        dominates(graph, d, 0),
    ensures
        d == 0,
{
    let path = seq![0int];
    assert(leads(graph, path, 0, 0));
    assert(path.contains(d));
}

/// Between a block and its immediate dominator there is nothing.
proof fn step_up(graph: Graph, up: int, r: int)
    requires
        0 <= r < graph.len(),
        0 <= up < graph.len(),
        is_idom(graph, up, r),
        reaches(graph, 0, up),
    ensures
        !dominates(graph, r, up),
        forall|x: int|
            0 <= x < graph.len() && x != r ==> #[trigger] dominates(graph, x, up) == dominates(
                graph,
                x,
                r,
            ),
{
    if dominates(graph, r, up) {
        let path = choose|path: Seq<int>| leads(graph, path, 0, up);
        dominance_is_one_way(graph, up, r, path);
    }
    assert forall|x: int| 0 <= x < graph.len() && x != r implies #[trigger] dominates(graph, x, up)
        == dominates(graph, x, r) by {
        if dominates(graph, x, up) {
            dominates_through(graph, x, up, r);
        }
    }
}

proof fn contains_pushed(list: Seq<BlockId>, block: BlockId)
    ensures
        list.push(block).contains(block),
{
    assert(list.push(block)[list.len() as int] == block);
}

/// What is in a frontier is one of the blocks looked at, and none of them twice.
proof fn frontier_in_before(tree: Dominance, order: Seq<BlockId>, x: int, n: int)
    requires
        0 <= n <= order.len(),
        order.no_duplicates(),
    ensures
        tree.frontier_in(order, x, n).no_duplicates(),
        forall|k: int|
            0 <= k < tree.frontier_in(order, x, n).len() ==> order.contains(
                #[trigger] tree.frontier_in(order, x, n)[k],
            ) && tree.frontier(x, tree.frontier_in(order, x, n)[k].0 as int),
        forall|j: int|
            n <= j < order.len() ==> !tree.frontier_in(order, x, n).contains(#[trigger] order[j]),
    decreases n,
{
    if n > 0 {
        frontier_in_before(tree, order, x, n - 1);
        let rest = tree.frontier_in(order, x, n - 1);
        let all = tree.frontier_in(order, x, n);
        assert(!rest.contains(order[n - 1]));
        assert forall|j: int| n <= j < order.len() implies !all.contains(#[trigger] order[j]) by {
            assert(!rest.contains(order[j]));
            assert(order[n - 1] != order[j]);
            if all.contains(order[j]) {
                let k = choose|k: int| 0 <= k < all.len() && all[k] == order[j];
                if k < rest.len() {
                    assert(rest[k] == order[j]);
                }
            }
        }
    }
}

proof fn frontier_in_holds(tree: Dominance, order: Seq<BlockId>, x: int, n: int, j: int)
    requires
        0 <= j < n <= order.len(),
        tree.frontier(x, order[j].0 as int),
    ensures
        tree.frontier_in(order, x, n).contains(order[j]),
    decreases n,
{
    let all = tree.frontier_in(order, x, n);
    if j == n - 1 {
        assert(all[all.len() - 1] == order[j]);
    } else {
        frontier_in_holds(tree, order, x, n - 1, j);
        let rest = tree.frontier_in(order, x, n - 1);
        let k = choose|k: int| 0 <= k < rest.len() && rest[k] == order[j];
        assert(all[k] == order[j]);
    }
}

/// Whether a block is in a list.
fn listed(list: &Vec<BlockId>, block: BlockId) -> (found: bool)
    ensures
        found == list@.contains(block),
{
    let mut k: usize = 0;
    while k < list.len()
        invariant
            k <= list@.len(),
            forall|j: int| 0 <= j < k ==> #[trigger] list@[j] != block,
        decreases list@.len() - k,
    {
        if list[k].0 == block.0 {
            assert(list@[k as int] == block);
            return true;
        }
        k = k + 1;
    }
    false
}

/// Look at a block: it goes below where its predecessors agree. Answers whether
/// that is somewhere else.
fn look_at(
    up: &mut Vec<Option<BlockId>>,
    rank: &Vec<u32>,
    into: &Vec<BlockId>,
    block: BlockId,
    Ghost(graph): Ghost<Graph>,
    Ghost(from): Ghost<Seq<int>>,
    Ghost(done): Ghost<int>,
) -> (moved: bool)
    requires
        0 < block.0 < graph.len() <= u32::MAX,
        searches_well(
            graph,
            old(up)@,
            rank@,
            from,
            rank@[block.0 as int] as int,
            done,
        ),
        rank@[block.0 as int] < rank@.len(),
        forall|k: int| 0 <= k < into@.len() ==> (#[trigger] into@[k]).0 < graph.len(),
        forall|p: int|
            0 <= p < graph.len() ==> #[trigger] graph[p].contains(block.0 as int)
                == into@.contains(BlockId(p as u32)),
    ensures
        final(up)@.len() == old(up)@.len(),
        searches_well(
            graph,
            final(up)@,
            rank@,
            from,
            rank@[block.0 as int] + 1,
            if old(up)@[block.0 as int] is Some {
                done
            } else {
                rank@[block.0 as int] + 1
            },
        ),
        old(up)@[block.0 as int] is None ==> moved,
        moved ==> room_to_move(final(up)@, rank@, graph.len() as int) < room_to_move(
            old(up)@,
            rank@,
            graph.len() as int,
        ),
        !moved ==> final(up)@ == old(up)@ && meets(
            graph,
            old(up)@,
            rank@,
            block.0 as int,
            above(old(up)@, block.0 as int),
        ),
{
    let ghost b = block.0 as int;
    let ghost held = up@;
    assert(0 <= from[b] < graph.len());
    assert(held[from[b]] is Some);
    let new: BlockId = meeting_of(up, rank, into, Ghost(graph), Ghost(b), Ghost(from[b]));
    let same: bool = match up[block.0 as usize] {
        Some(d) => d.0 == new.0,
        None => false,
    };
    if same {
        proof {
            search_goes_on(graph, held, rank@, from, done, b, new.0 as int);
        }
        false
    } else {
        up.set(block.0 as usize, Some(new));
        proof {
            search_moves(graph, held, rank@, from, done, b, new);
            assert(up@ =~= held.update(b, Some(new)));
            moving_takes_room(held, rank@, b, new, graph.len() as int);
        }
        true
    }
}

/// Where everything has been looked at, a block below where its predecessors meet
/// is settled.
proof fn all_settled(
    graph: Graph,
    up: Seq<Option<BlockId>>,
    rank: Seq<u32>,
    from: Seq<int>,
    i: int,
    b: int,
)
    requires
        searches_well(graph, up, rank, from, i, graph.len() as int),
        forall|x: int| 0 <= x < graph.len() ==> #[trigger] rank[x] < graph.len(),
        meets(graph, up, rank, b, above(up, b)),
    ensures
        settled(graph, up, rank, b),
{
    assert forall|p: int| 0 <= p < graph.len() && #[trigger] graph[p].contains(b) implies climbs(
        up,
        rank,
        p,
        above(up, b),
    ) by {
        assert(rank[p] < graph.len());
        assert(up[p] is Some);
    }
}

/// The position of each block in an order.
fn ranks(order: &Vec<BlockId>) -> (rank: Vec<u32>)
    requires
        0 < order@.len() <= u32::MAX,
        order@[0] == BlockId(0),
        order@.no_duplicates(),
        forall|i: int| 0 <= i < order@.len() ==> (#[trigger] order@[i]).0 < order@.len(),
        forall|b: int| 0 <= b < order@.len() ==> #[trigger] order@.contains(BlockId(b as u32)),
    ensures
        is_rank(order@, rank@),
        ranks_differ(rank@),
{
    let count: usize = order.len();
    let mut rank: Vec<u32> = Vec::new();
    let mut b: usize = 0;
    while b < count
        invariant
            b <= count,
            rank@.len() == b,
        decreases count - b,
    {
        rank.push(u32::MAX);
        b = b + 1;
    }
    let mut i: usize = 0;
    while i < count
        invariant
            i <= count == order@.len() == rank@.len() <= u32::MAX,
            order@.no_duplicates(),
            forall|j: int| 0 <= j < order@.len() ==> (#[trigger] order@[j]).0 < order@.len(),
            forall|j: int| 0 <= j < i ==> rank@[(#[trigger] order@[j]).0 as int] == j,
        decreases count - i,
    {
        let ghost before = rank@;
        rank.set(order[i].0 as usize, i as u32);
        assert forall|j: int| 0 <= j < i + 1 implies rank@[(#[trigger] order@[j]).0 as int] == j by {
            if j < i {
                assert(order@[j] != order@[i as int]);
            }
        }
        i = i + 1;
    }
    proof {
        assert forall|b: int| 0 <= b < count implies #[trigger] rank@[b] < count
            && order@[rank@[b] as int].0 == b by {
            assert(order@.contains(BlockId(b as u32)));
            let j = choose|j: int| 0 <= j < order@.len() && order@[j] == BlockId(b as u32);
            assert(rank@[order@[j].0 as int] == j);
        }
        reveal(ranks_differ);
        assert(rank@[order@[0].0 as int] == 0);
    }
    rank
}

/// The last of the first `n` nodes that every way to `b` goes through before `b`.
proof fn closest_of(graph: Graph, b: int, n: int) -> (best: int)
    requires
        0 < b < graph.len(),
        reaches(graph, 0, b),
        0 <= n <= graph.len(),
    ensures
        0 <= best < graph.len(),
        best != b,
        dominates(graph, best, b),
        forall|e: int|
            0 <= e < n && e != b && #[trigger] dominates(graph, e, b) ==> dominates(
                graph,
                e,
                best,
            ),
    decreases n,
{
    if n == 0 {
        entry_dominates(graph, b);
        0
    } else {
        let was = closest_of(graph, b, n - 1);
        let d = n - 1;
        if d != b && dominates(graph, d, b) {
            if dominates(graph, was, d) {
                dominates_itself(graph, d);
                assert forall|e: int|
                    0 <= e < n && e != b && #[trigger] dominates(graph, e, b) implies dominates(
                    graph,
                    e,
                    d,
                ) by {
                    if e < d {
                        dominates_through(graph, e, was, d);
                    }
                }
                d
            } else {
                dominators_in_line(graph, d, was, b);
                was
            }
        } else {
            was
        }
    }
}

/// Every graph all of which can be reached has a dominator tree.
pub proof fn tree_exists(graph: Graph) -> (tree: Dominance)
    requires
        0 < graph.len() <= u32::MAX,
        closed(graph),
        forall|b: int| 0 <= b < graph.len() ==> #[trigger] reaches(graph, 0, b),
    ensures
        tree.well_formed(),
        tree.graph == graph,
{
    let idom = Seq::new(
        graph.len(),
        |b: int|
            if b == 0 {
                0
            } else {
                choose|d: int| 0 <= d < graph.len() && #[trigger] is_idom(graph, d, b)
            },
    );
    assert forall|b: int| 0 < b < graph.len() implies 0 <= #[trigger] idom[b] < graph.len()
        && is_idom(graph, idom[b], b) by {
        let d = closest_of(graph, b, graph.len() as int);
        assert(is_idom(graph, d, b));
    }
    Dominance { graph, idom }
}

/// As many empty lists.
fn empty_lists(count: usize) -> (lists: Vec<Vec<BlockId>>)
    ensures
        lists@.len() == count,
        forall|i: int| 0 <= i < count ==> (#[trigger] lists@[i])@ == Seq::<BlockId>::empty(),
{
    let mut lists: Vec<Vec<BlockId>> = Vec::new();
    let mut i: usize = 0;
    while i < count
        invariant
            i <= count,
            lists@.len() == i,
            forall|j: int| 0 <= j < i ==> (#[trigger] lists@[j])@ == Seq::<BlockId>::empty(),
        decreases count - i,
    {
        lists.push(Vec::new());
        i = i + 1;
    }
    lists
}

/// Who jumps to each block, in order, once for every edge.
pub fn predecessors(next: &Vec<Vec<usize>>) -> (into: Vec<Vec<BlockId>>)
    requires
        next@.len() <= u32::MAX,
        closed(edges(next@)),
    ensures
        into@.len() == next@.len(),
        forall|b: int|
            0 <= b < next@.len() ==> (#[trigger] into@[b])@ == predecessors_before(
                edges(next@),
                b,
                next@.len() as int,
            ),
{
    let ghost graph = edges(next@);
    let count: usize = next.len();
    let mut into: Vec<Vec<BlockId>> = empty_lists(count);
    let mut index: usize = 0;
    while index < count
        invariant
            index <= count == next@.len() <= u32::MAX,
            graph == edges(next@),
            closed(graph),
            into@.len() == count,
            forall|b: int|
                0 <= b < count ==> (#[trigger] into@[b])@ == predecessors_before(
                    graph,
                    b,
                    index as int,
                ),
        decreases count - index,
    {
        let list: &Vec<usize> = &next[index];
        let ghost row = graph[index as int];
        let ghost id = BlockId(index as u32);
        assert(row =~= list@.map_values(|to: usize| to as int));
        let mut k: usize = 0;
        assert forall|b: int| 0 <= b < count implies (#[trigger] into@[b])@ == predecessors_before(
            graph,
            b,
            index as int,
        ) + repeated(id, occurrences(row.take(0), b)) by {
            assert(predecessors_before(graph, b, index as int) + repeated(id, 0)
                =~= predecessors_before(graph, b, index as int));
        }
        while k < list.len()
            invariant
                k <= list@.len(),
                index < count == next@.len() <= u32::MAX,
                graph == edges(next@),
                closed(graph),
                *list == next@[index as int],
                row == graph[index as int],
                row == list@.map_values(|to: usize| to as int),
                id == BlockId(index as u32),
                into@.len() == count,
                forall|b: int|
                    0 <= b < count ==> (#[trigger] into@[b])@ == predecessors_before(
                        graph,
                        b,
                        index as int,
                    ) + repeated(id, occurrences(row.take(k as int), b)),
            decreases list@.len() - k,
        {
            let to: usize = list[k];
            assert(graph[index as int][k as int] == to);
            let ghost before = into@;
            into[to].push(BlockId(index as u32));
            proof {
                assert(row.take(k + 1).drop_last() =~= row.take(k as int));
                assert(row.take(k + 1).last() == to);
                assert forall|b: int| 0 <= b < count implies (#[trigger] into@[b])@
                    == predecessors_before(graph, b, index as int) + repeated(
                    id,
                    occurrences(row.take(k + 1), b),
                ) by {
                    assert(before[b]@ == predecessors_before(graph, b, index as int) + repeated(
                        id,
                        occurrences(row.take(k as int), b),
                    ));
                    if b == to {
                        let times = occurrences(row.take(k as int), b);
                        assert(repeated(id, times).push(id) =~= repeated(id, times + 1));
                        assert(into@[b]@ =~= predecessors_before(graph, b, index as int)
                            + repeated(id, times).push(id));
                    }
                }
            }
            k = k + 1;
        }
        assert(row.take(k as int) =~= row);
        index = index + 1;
    }
    into
}

} // verus!
