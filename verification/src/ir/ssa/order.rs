//! The order a dataflow over blocks goes in: reverse postorder.
//!
//! A block comes after one of its predecessors, whatever the shape of the graph,
//! so what is worked out for blocks in this order is worked out from something.

use vstd::prelude::*;

use super::dom::closed;
use crate::graph::{
    edges, leads, lowered, raising_one, reached_by_closure, reaches, Graph,
};
use crate::ir::value::BlockId;
use vstd::set_lib::{lemma_int_range, set_int_range};

verus! {

/// A depth-first walk under way: the blocks it is in, each with the successor to
/// look at next, the blocks it has come to, and the blocks it has left, in that
/// order.
#[verifier::ext_equal]
pub struct Descent {
    pub stack: Seq<(int, int)>,
    pub seen: Seq<bool>,
    pub post: Seq<int>,
}

pub open spec fn descent_start(count: nat) -> Descent {
    Descent {
        stack: seq![(0int, 0int)],
        seen: Seq::new(count, |b: int| b == 0),
        post: seq![],
    }
}

/// One step of a depth-first walk: into the next successor that has not been come
/// to, or out of a block that has none.
pub open spec fn descend(graph: Graph, at: Descent) -> Descent {
    if at.stack.len() == 0 {
        at
    } else {
        let (block, next) = at.stack.last();
        let rest = at.stack.drop_last();
        if next < graph[block].len() {
            let to = graph[block][next];
            let further = rest.push((block, next + 1));
            if at.seen[to] {
                Descent { stack: further, ..at }
            } else {
                Descent {
                    stack: further.push((to, 0int)),
                    seen: at.seen.update(to, true),
                    ..at
                }
            }
        } else {
            Descent { stack: rest, post: at.post.push(block), ..at }
        }
    }
}

pub open spec fn descended(graph: Graph, n: nat) -> Descent
    decreases n,
{
    if n == 0 {
        descent_start(graph.len())
    } else {
        descend(graph, descended(graph, (n - 1) as nat))
    }
}

/// The blocks of a walk that is over, the last one left first.
pub open spec fn last_left_first(post: Seq<int>) -> Seq<BlockId> {
    Seq::new(post.len(), |i: int| BlockId(post[post.len() - 1 - i] as u32))
}

/// Whether a list of blocks is the reverse postorder of a graph.
pub open spec fn is_reverse_post_order(graph: Graph, order: Seq<BlockId>) -> bool {
    exists|n: nat|
        (#[trigger] descended(graph, n)).stack.len() == 0 && order == last_left_first(
            descended(graph, n).post,
        )
}

/// A walk that is over stays where it is, so a graph has one reverse postorder.
pub proof fn one_reverse_post_order(graph: Graph, a: Seq<BlockId>, b: Seq<BlockId>)
    requires
        is_reverse_post_order(graph, a),
        is_reverse_post_order(graph, b),
    ensures
        a == b,
{
    let n = choose|n: nat|
        (#[trigger] descended(graph, n)).stack.len() == 0 && a == last_left_first(
            descended(graph, n).post,
        );
    let m = choose|m: nat|
        (#[trigger] descended(graph, m)).stack.len() == 0 && b == last_left_first(
            descended(graph, m).post,
        );
    if n <= m {
        descent_over(graph, n, m);
    } else {
        descent_over(graph, m, n);
    }
}

proof fn descent_over(graph: Graph, n: nat, m: nat)
    requires
        n <= m,
        descended(graph, n).stack.len() == 0,
    ensures
        descended(graph, m) == descended(graph, n),
    decreases m - n,
{
    if n < m {
        descent_over(graph, n, (m - 1) as nat);
    }
}

/// Whether a list names every block once, the first of all first, and each other
/// block behind one of its predecessors.
pub open spec fn goes_forward(graph: Graph, order: Seq<BlockId>) -> bool {
    &&& order.len() == graph.len() > 0
    &&& order[0] == BlockId(0)
    &&& forall|i: int| 0 <= i < order.len() ==> (#[trigger] order[i]).0 < graph.len()
    &&& order.no_duplicates()
    &&& forall|b: int| 0 <= b < graph.len() ==> #[trigger] order.contains(BlockId(b as u32))
    &&& forall|j: int|
        0 < j < order.len() ==> exists|i: int|
            0 <= i < j && graph[(#[trigger] order[i]).0 as int].contains(
                (#[trigger] order[j]).0 as int,
            )
}

// -- what holds of a walk ---------------------------------------------------

spec fn on_stack(at: Descent, b: int) -> bool {
    exists|i: int| 0 <= i < at.stack.len() && (#[trigger] at.stack[i]).0 == b
}

/// Whether a block was come to from one that has not been left before it.
spec fn come_from(graph: Graph, post: Seq<int>, j: int) -> bool {
    exists|p: int|
        0 <= p < graph.len() && #[trigger] graph[p].contains(post[j]) && forall|i: int|
            0 <= i <= j ==> #[trigger] post[i] != p
}

spec fn descends_well(graph: Graph, at: Descent) -> bool {
    &&& at.seen.len() == graph.len() > 0
    &&& at.seen[0]
    &&& forall|i: int|
        0 <= i < at.stack.len() ==> {
            let (block, next) = #[trigger] at.stack[i];
            0 <= block < graph.len() && at.seen[block] && 0 <= next <= graph[block].len()
        }
    &&& forall|i: int|
        0 <= i < at.post.len() ==> 0 <= #[trigger] at.post[i] < graph.len() && at.seen[at.post[i]]
    &&& forall|b: int|
        0 <= b < graph.len() && #[trigger] at.seen[b] ==> on_stack(at, b) || at.post.contains(b)
    &&& forall|i: int, j: int|
        0 <= i < j < at.stack.len() ==> (#[trigger] at.stack[i]).0 != (#[trigger] at.stack[j]).0
    &&& forall|i: int, j: int|
        0 <= i < j < at.post.len() ==> #[trigger] at.post[i] != #[trigger] at.post[j]
    &&& forall|i: int, j: int|
        0 <= i < at.stack.len() && 0 <= j < at.post.len() ==> (#[trigger] at.stack[i]).0
            != #[trigger] at.post[j]
    &&& forall|i: int|
        0 < i < at.stack.len() ==> graph[at.stack[i - 1].0].contains((#[trigger] at.stack[i]).0)
    &&& at.stack.len() > 0 ==> at.stack[0].0 == 0
    &&& at.stack.len() == 0 ==> at.post.len() > 0 && at.post.last() == 0
    &&& forall|i: int, k: int|
        #![trigger at.stack[i], graph[at.stack[i].0][k]]
        0 <= i < at.stack.len() && 0 <= k < at.stack[i].1 ==> at.seen[graph[at.stack[i].0][k]]
    &&& forall|i: int, k: int|
        #![trigger graph[at.post[i]][k]]
        0 <= i < at.post.len() && 0 <= k < graph[at.post[i]].len() ==> at.seen[graph[at.post[i]][k]]
    &&& forall|j: int|
        0 <= j < at.post.len() && #[trigger] at.post[j] != 0 ==> come_from(graph, at.post, j)
}

/// How many looks at successors and ways out are left, among the blocks a walk is
/// in.
spec fn left_to_do(graph: Graph, stack: Seq<(int, int)>) -> int
    decreases stack.len(),
{
    if stack.len() == 0 {
        0
    } else {
        left_to_do(graph, stack.drop_last()) + graph[stack.last().0].len() - stack.last().1 + 1
    }
}

proof fn some_left_to_do(graph: Graph, stack: Seq<(int, int)>)
    requires
        forall|i: int|
            0 <= i < stack.len() ==> (#[trigger] stack[i]).1 <= graph[stack[i].0].len(),
    ensures
        left_to_do(graph, stack) >= 0,
    decreases stack.len(),
{
    if stack.len() > 0 {
        assert(stack[stack.len() - 1].1 <= graph[stack[stack.len() - 1].0].len());
        some_left_to_do(graph, stack.drop_last());
    }
}

#[verifier::spinoff_prover]
proof fn start_descends_well(graph: Graph)
    requires
        graph.len() > 0,
    ensures
        descends_well(graph, descent_start(graph.len())),
{
    let at = descent_start(graph.len());
    assert(at.stack[0].0 == 0);
}

/// Into a successor, or past it.
#[verifier::spinoff_prover]
proof fn inward(graph: Graph, at: Descent)
    requires
        closed(graph),
        descends_well(graph, at),
        at.stack.len() > 0,
        at.stack.last().1 < graph[at.stack.last().0].len(),
    ensures
        descends_well(graph, descend(graph, at)),
{
    let n = at.stack.len() - 1;
    let (block, next) = at.stack[n];
    let to = graph[block][next];
    let after = descend(graph, at);
    assert(0 <= graph[block][next] < graph.len());
    assert forall|i: int| 0 <= i <= n implies (#[trigger] after.stack[i]).0 == at.stack[i].0 && (i
        < n ==> after.stack[i] == at.stack[i]) by {}
    assert(after.stack[n] == (block, next + 1));
    if !at.seen[to] {
        assert(after.stack[n + 1] == (to, 0int));
        assert forall|i: int| 0 <= i <= n implies (#[trigger] at.stack[i]).0 != to by {}
        assert forall|j: int| 0 <= j < at.post.len() implies #[trigger] at.post[j] != to by {}
    }
    assert forall|b: int| 0 <= b < graph.len() && #[trigger] after.seen[b] implies on_stack(
        after,
        b,
    ) || after.post.contains(b) by {
        if at.seen[b] {
            if on_stack(at, b) {
                let i = choose|i: int| 0 <= i < at.stack.len() && (#[trigger] at.stack[i]).0 == b;
                assert(after.stack[i].0 == b);
            }
        } else {
            assert(after.stack[n + 1].0 == b);
        }
    }
    assert forall|i: int| 0 < i < after.stack.len() implies graph[after.stack[i - 1].0].contains(
        (#[trigger] after.stack[i]).0,
    ) by {
        if i <= n {
            assert(graph[at.stack[i - 1].0].contains(at.stack[i].0));
            assert(after.stack[i - 1].0 == at.stack[i - 1].0);
        } else {
            assert(graph[block][next] == to);
            assert(after.stack[i - 1].0 == block);
        }
    }
    assert forall|i: int, k: int|
        #![trigger after.stack[i], graph[after.stack[i].0][k]]
        0 <= i < after.stack.len() && 0 <= k < after.stack[i].1 implies after.seen[graph[after.stack[i].0][k]] by {
        if i < n {
            assert(at.seen[graph[at.stack[i].0][k]]);
        } else if i == n {
            if k < next {
                assert(at.seen[graph[at.stack[n].0][k]]);
            }
        }
    }
}

/// Out of a block.
#[verifier::spinoff_prover]
proof fn outward(graph: Graph, at: Descent)
    requires
        closed(graph),
        descends_well(graph, at),
        at.stack.len() > 0,
        at.stack.last().1 >= graph[at.stack.last().0].len(),
    ensures
        descends_well(graph, descend(graph, at)),
{
    let n = at.stack.len() - 1;
    let (block, next) = at.stack[n];
    let after = descend(graph, at);
    let m = at.post.len() as int;
    assert(after.post[m] == block);
    assert forall|i: int| 0 <= i < m implies #[trigger] after.post[i] == at.post[i] by {}
    assert forall|i: int| 0 <= i < n implies #[trigger] after.stack[i] == at.stack[i] by {}
    assert forall|i: int| 0 <= i < m implies #[trigger] at.post[i] != block by {
        assert(at.stack[n].0 != at.post[i]);
    }
    assert forall|b: int| 0 <= b < graph.len() && #[trigger] after.seen[b] implies on_stack(
        after,
        b,
    ) || after.post.contains(b) by {
        assert(at.seen[b]);
        if on_stack(at, b) {
            let i = choose|i: int| 0 <= i < at.stack.len() && (#[trigger] at.stack[i]).0 == b;
            if i < n {
                assert(after.stack[i].0 == b);
            } else {
                assert(after.post[m] == b);
            }
        } else {
            let j = choose|j: int| 0 <= j < at.post.len() && at.post[j] == b;
            assert(after.post[j] == b);
        }
    }
    assert forall|i: int, j: int|
        0 <= i < after.stack.len() && 0 <= j < after.post.len() implies (
    #[trigger] after.stack[i]).0 != #[trigger] after.post[j] by {
        if j < m {
            assert(at.stack[i].0 != at.post[j]);
        } else {
            assert(at.stack[i].0 != at.stack[n].0);
        }
    }
    assert forall|i: int, k: int|
        #![trigger graph[after.post[i]][k]]
        0 <= i < after.post.len() && 0 <= k < graph[after.post[i]].len() implies after.seen[graph[after.post[i]][k]] by {
        if i < m {
            assert(at.seen[graph[at.post[i]][k]]);
        } else {
            assert(at.seen[graph[at.stack[n].0][k]]);
        }
    }
    assert forall|j: int| 0 <= j < after.post.len() && #[trigger] after.post[j] != 0 implies come_from(
        graph,
        after.post,
        j,
    ) by {
        if j < m {
            assert(come_from(graph, at.post, j));
            let p = choose|p: int|
                0 <= p < graph.len() && #[trigger] graph[p].contains(at.post[j]) && forall|i: int|
                    0 <= i <= j ==> #[trigger] at.post[i] != p;
            assert(graph[p].contains(after.post[j]));
            assert forall|i: int| 0 <= i <= j implies #[trigger] after.post[i] != p by {
                assert(after.post[i] == at.post[i]);
            }
        } else {
            let p = at.stack[n - 1].0;
            assert(graph[at.stack[n - 1].0].contains(at.stack[n].0));
            assert(graph[p].contains(after.post[j]));
            assert forall|i: int| 0 <= i <= j implies #[trigger] after.post[i] != p by {
                if i < m {
                    assert(at.stack[n - 1].0 != at.post[i]);
                } else {
                    assert(at.stack[n - 1].0 != at.stack[n].0);
                }
            }
        }
    }
}

/// What a walk over everything that can be reached leaves behind.
proof fn walk_goes_forward(graph: Graph, at: Descent)
    requires
        closed(graph),
        graph.len() <= u32::MAX,
        forall|b: int| 0 <= b < graph.len() ==> #[trigger] reaches(graph, 0, b),
        descends_well(graph, at),
        at.stack.len() == 0,
    ensures
        goes_forward(graph, last_left_first(at.post)),
{
    let post = at.post;
    let order = last_left_first(post);
    let n = post.len() as int;
    let holds = Set::new(|b: int| 0 <= b < graph.len() && at.seen[b]);
    assert forall|b: int| 0 <= b < graph.len() implies #[trigger] post.contains(b) by {
        let path = choose|path: Seq<int>| leads(graph, path, 0, b);
        assert(reaches(graph, 0, b));
        assert forall|x: int, y: int|
            #![trigger holds.contains(x), graph[x].contains(y)]
            holds.contains(x) && 0 <= x < graph.len() && 0 <= y < graph.len() && graph[x].contains(
                y,
            ) implies holds.contains(y) by {
            assert(at.seen[x]);
            let i = choose|i: int| 0 <= i < post.len() && post[i] == x;
            let k = choose|k: int| 0 <= k < graph[x].len() && graph[x][k] == y;
            assert(at.seen[graph[post[i]][k]]);
        }
        reached_by_closure(graph, 0, path, b, holds);
        assert(at.seen[b]);
    }
    assert(post.no_duplicates());
    assert(post.to_set() =~= set_int_range(0, graph.len() as int)) by {
        assert forall|b: int| post.to_set().contains(b) == set_int_range(
            0,
            graph.len() as int,
        ).contains(b) by {
            if 0 <= b < graph.len() {
                assert(post.contains(b));
            }
            if post.contains(b) {
                let i = choose|i: int| 0 <= i < post.len() && post[i] == b;
                assert(0 <= post[i] < graph.len());
            }
        }
    }
    post.unique_seq_to_set();
    lemma_int_range(0, graph.len() as int);
    assert(n == graph.len());
    assert forall|i: int| 0 <= i < order.len() implies (#[trigger] order[i]).0 < graph.len()
        && order[i].0 == post[n - 1 - i] by {
        assert(0 <= post[n - 1 - i] < graph.len());
    }
    assert(post[n - 1] == 0);
    assert forall|i: int, j: int| 0 <= i < order.len() && 0 <= j < order.len() && i
        != j implies order[i] != order[j] by {
        assert(order[i].0 == post[n - 1 - i] && order[j].0 == post[n - 1 - j]);
        if i < j {
            assert(post[n - 1 - j] != post[n - 1 - i]);
        } else {
            assert(post[n - 1 - i] != post[n - 1 - j]);
        }
    }
    assert forall|b: int| 0 <= b < graph.len() implies #[trigger] order.contains(
        BlockId(b as u32),
    ) by {
        assert(post.contains(b));
        let i = choose|i: int| 0 <= i < post.len() && post[i] == b;
        assert(order[n - 1 - i] == BlockId(b as u32));
    }
    assert forall|j: int| 0 < j < order.len() implies exists|i: int|
        0 <= i < j && graph[(#[trigger] order[i]).0 as int].contains(
            (#[trigger] order[j]).0 as int,
        ) by {
        let at_j = n - 1 - j;
        assert(order[j].0 == post[at_j]);
        assert(post[at_j] != post[n - 1]);
        assert(come_from(graph, post, at_j));
        let p = choose|p: int|
            0 <= p < graph.len() && #[trigger] graph[p].contains(post[at_j]) && forall|i: int|
                0 <= i <= at_j ==> #[trigger] post[i] != p;
        assert(post.contains(p));
        let k = choose|k: int| 0 <= k < post.len() && post[k] == p;
        let i = n - 1 - k;
        assert(order[i].0 == p);
        assert(0 <= i < j);
        assert(graph[order[i].0 as int].contains(order[j].0 as int));
    }
}

// -- the walk ---------------------------------------------------------------

/// A stack of blocks and positions as numbers.
spec fn stack_view(stack: Seq<(usize, usize)>) -> Seq<(int, int)> {
    stack.map_values(|entry: (usize, usize)| (entry.0 as int, entry.1 as int))
}

/// The blocks, each behind one of its predecessors, the entry first.
///
/// An explicit stack: a function nested a thousand deep would otherwise recurse
/// a thousand deep here.
pub fn reverse_post_order(next: &Vec<Vec<usize>>) -> (order: Vec<BlockId>)
    requires
        0 < next@.len() <= u32::MAX,
        closed(edges(next@)),
        forall|b: int| 0 <= b < next@.len() ==> #[trigger] reaches(edges(next@), 0, b),
    ensures
        is_reverse_post_order(edges(next@), order@),
        goes_forward(edges(next@), order@),
{
    let ghost graph = edges(next@);
    let count: usize = next.len();
    let mut seen: Vec<bool> = Vec::new();
    let mut i: usize = 0;
    while i < count
        invariant
            i <= count,
            seen@.len() == i,
            forall|j: int| 0 <= j < i ==> #[trigger] seen@[j] == (j == 0),
        decreases count - i,
    {
        seen.push(i == 0);
        i = i + 1;
    }
    let mut stack: Vec<(usize, usize)> = Vec::new();
    stack.push((0, 0));
    let mut post: Vec<usize> = Vec::new();
    let ghost mut n: nat = 0;
    proof {
        start_descends_well(graph);
        let start = descent_start(graph.len());
        assert(stack_view(stack@) =~= start.stack);
        assert(seen@ =~= start.seen);
        assert(post@.map_values(|b: usize| b as int) =~= start.post);
        some_left_to_do(graph, start.stack);
    }
    while stack.len() > 0
        invariant
            graph == edges(next@),
            count == next@.len(),
            closed(graph),
            descends_well(graph, descended(graph, n)),
            descended(graph, n).stack == stack_view(stack@),
            descended(graph, n).seen == seen@,
            descended(graph, n).post == post@.map_values(|b: usize| b as int),
            left_to_do(graph, stack_view(stack@)) >= 0,
        decreases lowered(seen@), left_to_do(graph, stack_view(stack@)),
    {
        let ghost before = descended(graph, n);
        let ghost held = stack@;
        let last: usize = stack.len() - 1;
        let (block, position) = stack[last];
        stack.pop();
        let ghost rest = stack_view(stack@);
        proof {
            assert(stack_view(held)[last as int] == (block as int, position as int));
            assert(before.stack[last as int] == (block as int, position as int));
            assert(rest =~= before.stack.drop_last());
            n = n + 1;
        }
        let list: &Vec<usize> = &next[block];
        assert(graph[block as int] =~= list@.map_values(|to: usize| to as int));
        if position < list.len() {
            let to: usize = list[position];
            assert(graph[block as int][position as int] == to);
            proof {
                inward(graph, before);
                assert(0 <= graph[block as int][position as int] < graph.len());
            }
            stack.push((block, position + 1));
            let ghost further = stack_view(stack@);
            proof {
                assert(further =~= rest.push((block as int, position + 1)));
                assert(further.drop_last() =~= rest);
            }
            if !seen[to] {
                let ghost flags = seen@;
                seen.set(to, true);
                stack.push((to, 0));
                proof {
                    raising_one(flags, to as int);
                    assert(stack_view(stack@) =~= further.push((to as int, 0int)));
                }
            }
        } else {
            proof {
                outward(graph, before);
            }
            post.push(block);
            proof {
                assert(post@.map_values(|b: usize| b as int) =~= before.post.push(block as int));
            }
        }
        proof {
            let after = descended(graph, n);
            assert(after == descend(graph, before));
            some_left_to_do(graph, after.stack);
        }
    }
    let mut order: Vec<BlockId> = Vec::new();
    let mut k: usize = post.len();
    let ghost left = descended(graph, n).post;
    proof {
        walk_goes_forward(graph, descended(graph, n));
    }
    while k > 0
        invariant
            k <= post@.len(),
            left == post@.map_values(|b: usize| b as int),
            order@.len() == post@.len() - k,
            forall|i: int|
                0 <= i < order@.len() ==> #[trigger] order@[i] == last_left_first(left)[i],
        decreases k,
    {
        k = k - 1;
        order.push(BlockId(post[k] as u32));
    }
    assert(order@ =~= last_left_first(left));
    order
}

} // verus!
