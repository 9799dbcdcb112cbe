//! Directed graphs: which nodes can be reached from which.

use vstd::prelude::*;

verus! {

/// A graph, as the successors of each node.
pub type Graph = Seq<Seq<int>>;

/// Whether a run of nodes follows the edges of a graph.
pub open spec fn is_path(graph: Graph, path: Seq<int>) -> bool {
    &&& path.len() > 0
    &&& forall|i: int| 0 <= i < path.len() ==> 0 <= #[trigger] path[i] < graph.len()
    &&& forall|i: int|
        0 <= i < path.len() - 1 ==> (#[trigger] graph[path[i]]).contains(path[i + 1])
}

/// Whether a run of nodes is a way from one node to another.
pub open spec fn leads(graph: Graph, path: Seq<int>, from: int, to: int) -> bool {
    is_path(graph, path) && path[0] == from && path.last() == to
}

/// Whether one node can be reached from another.
pub open spec fn reaches(graph: Graph, from: int, to: int) -> bool {
    exists|path: Seq<int>| leads(graph, path, from, to)
}

/// Whether everything reachable from a node stays inside the graph.
pub open spec fn closed_from(graph: Graph, from: int) -> bool {
    &&& 0 <= from < graph.len()
    &&& forall|node: int, i: int|
        #![trigger graph[node][i]]
        reaches(graph, from, node) && 0 <= i < graph[node].len() ==> 0 <= graph[node][i]
            < graph.len()
}

/// A graph as lists of indices.
pub open spec fn edges(next: Seq<Vec<usize>>) -> Graph {
    next.map_values(|to: Vec<usize>| to@.map_values(|node: usize| node as int))
}

pub proof fn reaches_itself(graph: Graph, node: int)
    requires
        0 <= node < graph.len(),
    ensures
        reaches(graph, node, node),
{
    assert(leads(graph, seq![node], node, node));
}

/// One edge further.
pub proof fn reaches_further(graph: Graph, from: int, node: int, to: int)
    requires
        reaches(graph, from, node),
        graph[node].contains(to),
        0 <= to < graph.len(),
    ensures
        reaches(graph, from, to),
{
    let path = choose|path: Seq<int>| leads(graph, path, from, node);
    let longer = path.push(to);
    assert forall|i: int| 0 <= i < longer.len() - 1 implies (#[trigger] graph[longer[i]]).contains(
        longer[i + 1],
    ) by {
        if i < path.len() - 1 {
            assert(graph[path[i]].contains(path[i + 1]));
        }
    }
    assert(leads(graph, longer, from, to));
}

/// The last edge of a way that has one.
pub proof fn last_step(graph: Graph, path: Seq<int>, from: int, to: int)
    requires
        leads(graph, path, from, to),
        path.len() > 1,
    ensures
        leads(graph, path.drop_last(), from, path[path.len() - 2]),
        graph[path[path.len() - 2]].contains(to),
{
    let shorter = path.drop_last();
    assert forall|i: int| 0 <= i < shorter.len() - 1 implies (#[trigger] graph[shorter[i]]).contains(
        shorter[i + 1],
    ) by {
        assert(graph[path[i]].contains(path[i + 1]));
    }
    assert(graph[path[path.len() - 2]].contains(path[path.len() - 2 + 1]));
}

/// The part of a way up to one of its nodes.
pub proof fn way_up_to(graph: Graph, path: Seq<int>, from: int, to: int, at: int)
    requires
        leads(graph, path, from, to),
        0 <= at < path.len(),
    ensures
        leads(graph, path.subrange(0, at + 1), from, path[at]),
{
    let part = path.subrange(0, at + 1);
    assert forall|i: int| 0 <= i < part.len() - 1 implies (#[trigger] graph[part[i]]).contains(
        part[i + 1],
    ) by {
        assert(graph[path[i]].contains(path[i + 1]));
    }
}

/// The part of a way from one of its nodes on.
pub proof fn way_from(graph: Graph, path: Seq<int>, from: int, to: int, at: int)
    requires
        leads(graph, path, from, to),
        0 <= at < path.len(),
    ensures
        leads(graph, path.subrange(at, path.len() as int), path[at], to),
{
    let part = path.subrange(at, path.len() as int);
    assert forall|i: int| 0 <= i < part.len() - 1 implies (#[trigger] graph[part[i]]).contains(
        part[i + 1],
    ) by {
        assert(graph[path[i + at]].contains(path[i + at + 1]));
    }
}

/// What holds of a node and of every successor of a node it holds of, holds of
/// every node reachable.
pub proof fn reached_by_closure(graph: Graph, from: int, path: Seq<int>, to: int, holds: Set<int>)
    requires
        leads(graph, path, from, to),
        holds.contains(from),
        forall|node: int, next: int|
            #![trigger holds.contains(node), graph[node].contains(next)]
            holds.contains(node) && 0 <= node < graph.len() && 0 <= next < graph.len()
                && graph[node].contains(next) ==> holds.contains(next),
    ensures
        holds.contains(to),
    decreases path.len(),
{
    if path.len() > 1 {
        let node = path[path.len() - 2];
        last_step(graph, path, from, to);
        reached_by_closure(graph, from, path.drop_last(), node, holds);
        assert(0 <= path[path.len() - 1] < graph.len());
        assert(0 <= path[path.len() - 2] < graph.len());
        assert(holds.contains(node) && graph[node].contains(to));
    }
}

/// How many flags of a list are down.
pub open spec fn lowered(flags: Seq<bool>) -> nat
    decreases flags.len(),
{
    if flags.len() == 0 {
        0
    } else {
        lowered(flags.drop_last()) + if flags.last() {
            0nat
        } else {
            1nat
        }
    }
}

pub proof fn raising_one(flags: Seq<bool>, at: int)
    requires
        0 <= at < flags.len(),
        !flags[at],
    ensures
        lowered(flags.update(at, true)) + 1 == lowered(flags),
    decreases flags.len(),
{
    let raised = flags.update(at, true);
    if at == flags.len() - 1 {
        assert(raised.drop_last() =~= flags.drop_last());
    } else {
        raising_one(flags.drop_last(), at);
        assert(raised.drop_last() =~= flags.drop_last().update(at, true));
    }
}

/// Which nodes can be reached from a node, each flagged.
///
/// An explicit stack: a graph a thousand deep would otherwise recurse a
/// thousand deep here.
pub fn reachable_from(next: &Vec<Vec<usize>>, from: usize) -> (reached: Vec<bool>)
    requires
        closed_from(edges(next@), from as int),
    ensures
        reached@.len() == next@.len(),
        forall|node: int|
            0 <= node < next@.len() ==> #[trigger] reached@[node] == reaches(
                edges(next@),
                from as int,
                node,
            ),
{
    let ghost graph = edges(next@);
    let count: usize = next.len();
    let mut reached: Vec<bool> = Vec::new();
    let mut i: usize = 0;
    while i < count
        invariant
            i <= count,
            reached@.len() == i,
            forall|j: int| 0 <= j < i ==> !reached@[j],
        decreases count - i,
    {
        reached.push(false);
        i = i + 1;
    }
    let mut stack: Vec<usize> = Vec::new();
    stack.push(from);
    proof {
        reaches_itself(graph, from as int);
        assert(stack@[0] == from);
    }
    while stack.len() > 0
        invariant
            graph == edges(next@),
            closed_from(graph, from as int),
            count == next@.len(),
            reached@.len() == count,
            forall|k: int|
                0 <= k < stack@.len() ==> (#[trigger] stack@[k]) < count && reaches(
                    graph,
                    from as int,
                    stack@[k] as int,
                ),
            forall|node: int|
                0 <= node < count && #[trigger] reached@[node] ==> reaches(
                    graph,
                    from as int,
                    node,
                ),
            reached@[from as int] || stack@.contains(from),
            forall|node: int, to: int|
                #![trigger reached@[node], graph[node].contains(to)]
                0 <= node < count && reached@[node] && 0 <= to < count && graph[node].contains(to)
                    ==> reached@[to] || stack@.contains(to as usize),
        decreases lowered(reached@), stack@.len(),
    {
        let ghost before = stack@;
        let ghost flags = reached@;
        let node: usize = stack[stack.len() - 1];
        stack.pop();
        assert(before == stack@.push(node));
        assert(before[before.len() - 1] == node);
        assert forall|x: usize| before.contains(x) && x != node implies stack@.contains(x) by {
            let k = choose|k: int| 0 <= k < before.len() && before[k] == x;
            assert(stack@[k] == x);
        }
        if reached[node] {
            continue;
        }
        reached.set(node, true);
        proof {
            raising_one(flags, node as int);
        }
        let ghost popped = stack@;
        let list: &Vec<usize> = &next[node];
        assert(graph[node as int] =~= list@.map_values(|to: usize| to as int));
        let mut i: usize = 0;
        while i < list.len()
            invariant
                i <= list@.len(),
                graph == edges(next@),
                closed_from(graph, from as int),
                count == next@.len(),
                node < count,
                *list == next@[node as int],
                graph[node as int] == list@.map_values(|to: usize| to as int),
                reaches(graph, from as int, node as int),
                forall|k: int|
                    0 <= k < stack@.len() ==> (#[trigger] stack@[k]) < count && reaches(
                        graph,
                        from as int,
                        stack@[k] as int,
                    ),
                forall|x: usize| popped.contains(x) ==> stack@.contains(x),
                forall|k: int| 0 <= k < i ==> stack@.contains(#[trigger] list@[k]),
            decreases list@.len() - i,
        {
            let to: usize = list[i];
            let ghost held = stack@;
            assert(graph[node as int][i as int] == to);
            proof {
                assert(0 <= graph[node as int][i as int] < graph.len());
                reaches_further(graph, from as int, node as int, to as int);
            }
            stack.push(to);
            assert(stack@[held.len() as int] == to);
            assert forall|x: usize| held.contains(x) implies stack@.contains(x) by {
                let k = choose|k: int| 0 <= k < held.len() && held[k] == x;
                assert(stack@[k] == x);
            }
            i = i + 1;
        }
        assert forall|at: int, to: int|
            #![trigger reached@[at], graph[at].contains(to)]
            0 <= at < count && reached@[at] && 0 <= to < count && graph[at].contains(to) implies
            reached@[to] || stack@.contains(to as usize) by {
            if at == node {
                let k = choose|k: int| 0 <= k < graph[at].len() && graph[at][k] == to;
                assert(list@[k] == to);
                assert(stack@.contains(list@[k]));
            } else {
                assert(flags[at]);
                if !flags[to] && to != node {
                    assert(before.contains(to as usize));
                    assert(popped.contains(to as usize));
                }
            }
        }
        assert(reached@[from as int] || stack@.contains(from)) by {
            if !flags[from as int] && from != node {
                assert(popped.contains(from));
            }
        }
    }
    proof {
        let holds = Set::new(|node: int| 0 <= node < count && reached@[node]);
        assert forall|node: int| 0 <= node < count && reaches(graph, from as int, node) implies
            #[trigger] reached@[node] by {
            let path = choose|path: Seq<int>| leads(graph, path, from as int, node);
            assert forall|at: int, to: int|
                #![trigger holds.contains(at), graph[at].contains(to)]
                holds.contains(at) && 0 <= at < graph.len() && 0 <= to < graph.len()
                    && graph[at].contains(to) implies holds.contains(to) by {
                assert(reached@[at]);
            }
            reached_by_closure(graph, from as int, path, node, holds);
        }
    }
    reached
}

/// How many of the first `n` flags of a list are up: the number a flagged entry
/// bears once the others are dropped.
pub open spec fn raised_before(flags: Seq<bool>, n: int) -> nat
    decreases n,
{
    if n <= 0 {
        0
    } else {
        raised_before(flags, n - 1) + if flags[n - 1] {
            1nat
        } else {
            0nat
        }
    }
}

pub proof fn raised_before_grows(flags: Seq<bool>, a: int, b: int)
    requires
        0 <= a <= b,
    ensures
        raised_before(flags, a) <= raised_before(flags, b) <= raised_before(flags, a) + (b - a),
        a < b && flags[a] ==> raised_before(flags, a) < raised_before(flags, b),
    decreases b - a,
{
    if a < b {
        raised_before_grows(flags, a, b - 1);
    }
}

} // verus!
