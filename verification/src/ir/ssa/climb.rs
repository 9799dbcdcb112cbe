//! Climbing towards the entry: the tree a search for dominators works on.
//!
//! Each block that has been looked at has a block above it, nearer to the entry
//! in reverse postorder. Where two ways up meet is where two answers agree, and
//! looking at a block again can only move it up: that is why the search ends.

use vstd::prelude::*;

use super::dom::dominates;
use crate::graph::{last_step, leads, Graph};
use crate::ir::value::BlockId;

verus! {

/// The block above each block that has been looked at.
pub type Above = Seq<Option<BlockId>>;

/// The block above a block.
pub open spec fn above(up: Above, x: int) -> int {
    (up[x]->0).0 as int
}

/// Whether going up from one block, and on up, comes to another.
pub open spec fn climbs(up: Above, rank: Seq<u32>, x: int, y: int) -> bool
    decreases rank[x],
{
    x == y || (x != 0 && up[x] is Some && rank[above(up, x)] < rank[x] && climbs(
        up,
        rank,
        above(up, x),
        y,
    ))
}

/// Whether positions are those of the blocks in an order that begins with the
/// entry.
pub open spec fn is_rank(order: Seq<BlockId>, rank: Seq<u32>) -> bool {
    &&& order.len() == rank.len() > 0
    &&& order[0] == BlockId(0)
    &&& rank[0] == 0
    &&& forall|i: int|
        0 <= i < order.len() ==> (#[trigger] order[i]).0 < rank.len() && rank[order[i].0 as int]
            == i
    &&& forall|b: int|
        0 <= b < rank.len() ==> #[trigger] rank[b] < rank.len() && order[rank[b] as int].0 == b
}

/// Whether what is above a block has been looked at, and comes before it.
pub open spec fn is_tree(up: Above, rank: Seq<u32>) -> bool {
    &&& up.len() == rank.len() > 0
    &&& up[0] == Some(BlockId(0))
    &&& rank[0] == 0
    &&& forall|x: int|
        0 < x < up.len() && (#[trigger] up[x]) is Some ==> 0 <= above(up, x) < up.len()
            && up[above(up, x)] is Some && rank[above(up, x)] < rank[x]
    &&& ranks_differ(rank)
}

/// Whether no two blocks are at one position.
#[verifier::opaque]
pub open spec fn ranks_differ(rank: Seq<u32>) -> bool {
    forall|x: int, y: int|
        0 <= x < rank.len() && 0 <= y < rank.len() && #[trigger] rank[x] == #[trigger] rank[y] ==> x
            == y
}

pub proof fn ranks_apart(rank: Seq<u32>, x: int, y: int)
    requires
        ranks_differ(rank),
        0 <= x < rank.len(),
        0 <= y < rank.len(),
        x != y,
    ensures
        rank[x] != rank[y],
{
    reveal(ranks_differ);
}

/// What is climbed to comes before, and has been looked at.
pub proof fn climbed(up: Above, rank: Seq<u32>, x: int, y: int)
    requires
        is_tree(up, rank),
        0 <= x < up.len(),
        up[x] is Some,
        climbs(up, rank, x, y),
    ensures
        0 <= y < up.len(),
        up[y] is Some,
        rank[y] <= rank[x],
        x != y ==> rank[y] < rank[x],
    decreases rank[x],
{
    if x != y {
        climbed(up, rank, above(up, x), y);
    }
}

pub proof fn climbs_through(up: Above, rank: Seq<u32>, x: int, y: int, z: int)
    requires
        climbs(up, rank, x, y),
        climbs(up, rank, y, z),
    ensures
        climbs(up, rank, x, z),
    decreases rank[x],
{
    if x != y {
        climbs_through(up, rank, above(up, x), y, z);
    }
}

/// Of two blocks on one way up, the later one is below the other.
pub proof fn climbs_in_line(up: Above, rank: Seq<u32>, x: int, y: int, z: int)
    requires
        is_tree(up, rank),
        0 <= x < up.len(),
        up[x] is Some,
        climbs(up, rank, x, y),
        climbs(up, rank, x, z),
        rank[z] <= rank[y],
    ensures
        climbs(up, rank, y, z),
    decreases rank[x],
{
    climbed(up, rank, x, y);
    climbed(up, rank, x, z);
    if x != y {
        if x != z {
            climbs_in_line(up, rank, above(up, x), y, z);
        }
    }
}

// -- moving one block -------------------------------------------------------

/// A way up that does not come by a block does not notice it moving.
pub proof fn elsewhere_the_same(up: Above, rank: Seq<u32>, b: int, to: BlockId, x: int, y: int)
    requires
        is_tree(up, rank),
        0 < b < up.len(),
        0 <= x < up.len(),
        up[x] is Some,
        !climbs(up, rank, x, b),
    ensures
        climbs(up.update(b, Some(to)), rank, x, y) == climbs(up, rank, x, y),
    decreases rank[x],
{
    if x != 0 {
        elsewhere_the_same(up, rank, b, to, above(up, x), y);
    }
}

/// A way up to a block that comes no later stays.
pub proof fn below_the_same(up: Above, rank: Seq<u32>, b: int, to: BlockId, x: int, z: int)
    requires
        is_tree(up, rank),
        0 < b < up.len(),
        0 <= x < up.len(),
        up[x] is Some,
        climbs(up, rank, x, z),
        rank[b] <= rank[z],
    ensures
        climbs(up.update(b, Some(to)), rank, x, z),
    decreases rank[x],
{
    if x != z {
        climbed(up, rank, x, z);
        below_the_same(up, rank, b, to, above(up, x), z);
    }
}

/// Moving a block up takes nothing new onto any way up.
pub proof fn moving_up_adds_nothing(
    up: Above,
    rank: Seq<u32>,
    b: int,
    to: BlockId,
    x: int,
    y: int,
)
    requires
        is_tree(up, rank),
        0 < b < up.len(),
        up[b] is Some,
        climbs(up, rank, above(up, b), to.0 as int),
        0 <= x < up.len(),
        up[x] is Some,
        climbs(up.update(b, Some(to)), rank, x, y),
    ensures
        climbs(up, rank, x, y),
    decreases rank[x],
{
    let now = up.update(b, Some(to));
    if x != y {
        if x == b {
            let old_above = above(up, b);
            climbed(up, rank, old_above, to.0 as int);
            assert(above(now, b) == to.0 as int);
            if climbs(up, rank, to.0 as int, b) {
                climbed(up, rank, to.0 as int, b);
            }
            elsewhere_the_same(up, rank, b, to, to.0 as int, y);
            climbs_through(up, rank, old_above, to.0 as int, y);
        } else {
            assert(above(now, x) == above(up, x));
            moving_up_adds_nothing(up, rank, b, to, above(up, x), y);
        }
    }
}

/// Nothing climbs to a block that has not been looked at.
pub proof fn not_looked_at_yet(up: Above, rank: Seq<u32>, b: int, x: int)
    requires
        is_tree(up, rank),
        up[b] is None,
        0 <= x < up.len(),
        up[x] is Some,
    ensures
        !climbs(up, rank, x, b),
{
    if climbs(up, rank, x, b) {
        climbed(up, rank, x, b);
    }
}

// -- what a search for dominators keeps -------------------------------------

/// Whether every predecessor that has been looked at climbs to a block.
pub open spec fn common(graph: Graph, up: Above, rank: Seq<u32>, c: int, y: int) -> bool {
    forall|p: int|
        0 <= p < graph.len() && up[p] is Some && #[trigger] graph[p].contains(c) ==> climbs(
            up,
            rank,
            p,
            y,
        )
}

/// Whether looking at a block again can only move it up.
pub open spec fn moves_up(graph: Graph, up: Above, rank: Seq<u32>, c: int) -> bool {
    forall|y: int|
        0 <= y < graph.len() && #[trigger] common(graph, up, rank, c, y) ==> climbs(
            up,
            rank,
            above(up, c),
            y,
        )
}

/// Whether no dominator of a block is missed by going to what is above it.
pub open spec fn misses_none(graph: Graph, up: Above, c: int) -> bool {
    forall|e: int|
        0 <= e < graph.len() && e != c && #[trigger] dominates(graph, e, c) ==> dominates(
            graph,
            e,
            above(up, c),
        )
}

/// What holds of a block that has been looked at, where the search has come to
/// position `i`: `from` is a predecessor that comes before it.
pub open spec fn holds_of(
    graph: Graph,
    up: Above,
    rank: Seq<u32>,
    from: Seq<int>,
    i: int,
    c: int,
) -> bool {
    &&& misses_none(graph, up, c)
    &&& moves_up(graph, up, rank, c)
    &&& climbs(up, rank, from[c], above(up, c)) || (rank[c] >= i && rank[above(up, c)] < i)
}

/// What holds all along the search: the blocks before position `done` have been
/// looked at.
pub open spec fn searches_well(
    graph: Graph,
    up: Above,
    rank: Seq<u32>,
    from: Seq<int>,
    i: int,
    done: int,
) -> bool {
    &&& is_tree(up, rank)
    &&& up.len() == graph.len() == from.len()
    &&& forall|c: int|
        0 < c < graph.len() ==> 0 <= #[trigger] from[c] < graph.len() && rank[from[c]] < rank[c]
            && graph[from[c]].contains(c)
    &&& i <= done
    &&& forall|x: int| 0 <= x < up.len() ==> (#[trigger] up[x]) is Some == (rank[x] < done)
    &&& forall|c: int|
        0 < c < graph.len() && (#[trigger] up[c]) is Some ==> holds_of(
            graph,
            up,
            rank,
            from,
            i,
            c,
        )
}

/// What dominates a block is on its way up.
pub proof fn dominators_are_above(
    graph: Graph,
    up: Above,
    rank: Seq<u32>,
    from: Seq<int>,
    i: int,
    done: int,
    x: int,
    e: int,
)
    requires
        searches_well(graph, up, rank, from, i, done),
        0 <= x < graph.len(),
        up[x] is Some,
        0 <= e < graph.len(),
        dominates(graph, e, x),
    ensures
        climbs(up, rank, x, e),
    decreases rank[x],
{
    if e != x {
        if x == 0 {
            let path = seq![0int];
            assert(leads(graph, path, 0, 0));
            assert(path.contains(e));
            assert(path[0] == 0);
        } else {
            assert(holds_of(graph, up, rank, from, i, x));
            dominators_are_above(graph, up, rank, from, i, done, above(up, x), e);
        }
    }
}

/// What dominates a block, and is above another above it, dominates that too.
pub proof fn dominates_on_the_way(
    graph: Graph,
    up: Above,
    rank: Seq<u32>,
    from: Seq<int>,
    i: int,
    done: int,
    x: int,
    r: int,
    e: int,
)
    requires
        searches_well(graph, up, rank, from, i, done),
        0 <= x < graph.len(),
        up[x] is Some,
        0 <= e < graph.len(),
        dominates(graph, e, x),
        climbs(up, rank, x, r),
        climbs(up, rank, r, e),
    ensures
        dominates(graph, e, r),
    decreases rank[x],
{
    if x != r {
        climbed(up, rank, x, r);
        climbed(up, rank, r, e);
        assert(e != x);
        assert(holds_of(graph, up, rank, from, i, x));
        dominates_on_the_way(graph, up, rank, from, i, done, above(up, x), r, e);
    }
}

/// A dominator of a block dominates its predecessors.
pub proof fn predecessor_dominated(graph: Graph, d: int, b: int, c: int)
    requires
        0 <= c < graph.len(),
        graph[b].contains(c),
        d != c,
        dominates(graph, d, c),
    ensures
        dominates(graph, d, b),
{
    assert forall|path: Seq<int>| #[trigger] leads(graph, path, 0, b) implies path.contains(d) by {
        let longer = path.push(c);
        assert forall|i: int| 0 <= i < longer.len() - 1 implies (
        #[trigger] graph[longer[i]]).contains(longer[i + 1]) by {
            if i < path.len() - 1 {
                assert(graph[path[i]].contains(path[i + 1]));
            }
        }
        assert(leads(graph, longer, 0, c));
        let k = choose|k: int| 0 <= k < longer.len() && longer[k] == d;
        assert(path[k] == d);
    }
}

/// Where the ways up from the predecessors of a block meet.
pub open spec fn meets(graph: Graph, up: Above, rank: Seq<u32>, b: int, to: int) -> bool {
    &&& 0 <= to < graph.len()
    &&& up[to] is Some
    &&& common(graph, up, rank, b, to)
    &&& forall|y: int|
        0 <= y < graph.len() && #[trigger] common(graph, up, rank, b, y) ==> climbs(
            up,
            rank,
            to,
            y,
        )
}

/// What is found for the block at position `i` misses no dominator.
proof fn meeting_misses_none(
    graph: Graph,
    up: Above,
    rank: Seq<u32>,
    from: Seq<int>,
    i: int,
    done: int,
    b: int,
    to: int,
)
    requires
        searches_well(graph, up, rank, from, i, done),
        0 < b < graph.len(),
        up[from[b]] is Some,
        meets(graph, up, rank, b, to),
    ensures
        rank[to] < rank[b],
        climbs(up, rank, from[b], to),
        forall|e: int|
            0 <= e < graph.len() && e != b && #[trigger] dominates(graph, e, b) ==> dominates(
                graph,
                e,
                to,
            ),
{
    let p = from[b];
    assert(0 <= from[b] < graph.len());
    assert(graph[p].contains(b));
    climbed(up, rank, p, to);
    assert forall|e: int|
        0 <= e < graph.len() && e != b && #[trigger] dominates(graph, e, b) implies dominates(
        graph,
        e,
        to,
    ) by {
        assert forall|q: int|
            0 <= q < graph.len() && up[q] is Some && #[trigger] graph[q].contains(b) implies climbs(
            up,
            rank,
            q,
            e,
        ) by {
            predecessor_dominated(graph, e, q, b);
            dominators_are_above(graph, up, rank, from, i, done, q, e);
        }
        assert(common(graph, up, rank, b, e));
        predecessor_dominated(graph, e, p, b);
        dominates_on_the_way(graph, up, rank, from, i, done, p, to, e);
    }
}

/// Nothing found: the search has come one further.
pub proof fn search_goes_on(
    graph: Graph,
    up: Above,
    rank: Seq<u32>,
    from: Seq<int>,
    done: int,
    b: int,
    to: int,
)
    requires
        searches_well(graph, up, rank, from, rank[b] as int, done),
        0 < b < graph.len(),
        up[b] is Some,
        meets(graph, up, rank, b, to),
        above(up, b) == to,
    ensures
        searches_well(graph, up, rank, from, rank[b] + 1, done),
{
    let i = rank[b] as int;
    assert(0 <= from[b] < graph.len());
    assert(up[from[b]] is Some);
    meeting_misses_none(graph, up, rank, from, i, done, b, to);
    assert forall|c: int| 0 < c < graph.len() && (#[trigger] up[c]) is Some implies holds_of(
        graph,
        up,
        rank,
        from,
        i + 1,
        c,
    ) by {
        assert(holds_of(graph, up, rank, from, i, c));
        if c != b {
            ranks_apart(rank, c, b);
        }
    }
}

/// One block looked at and moved, or looked at for the first time.
#[verifier::spinoff_prover]
#[verifier::rlimit(40)]
pub proof fn search_moves(
    graph: Graph,
    up: Above,
    rank: Seq<u32>,
    from: Seq<int>,
    done: int,
    b: int,
    to: BlockId,
)
    requires
        searches_well(graph, up, rank, from, rank[b] as int, done),
        0 < b < graph.len(),
        up[from[b]] is Some,
        meets(graph, up, rank, b, to.0 as int),
        up[b] != Some(to),
    ensures
        searches_well(
            graph,
            up.update(b, Some(to)),
            rank,
            from,
            rank[b] + 1,
            if up[b] is Some {
                done
            } else {
                rank[b] + 1
            },
        ),
        up[b] is Some ==> rank[to.0 as int] < rank[above(up, b)],
        rank[to.0 as int] < rank[b],
{
    let i = rank[b] as int;
    let now = up.update(b, Some(to));
    let r = to.0 as int;
    assert(0 <= from[b] < graph.len());
    meeting_misses_none(graph, up, rank, from, i, done, b, r);
    if climbs(up, rank, r, b) {
        climbed(up, rank, r, b);
    }
    if up[b] is Some {
        assert(holds_of(graph, up, rank, from, i, b));
        assert(common(graph, up, rank, b, r));
        climbed(up, rank, above(up, b), r);
    }
    assert(is_tree(now, rank)) by {
        assert forall|x: int| 0 < x < now.len() && (#[trigger] now[x]) is Some implies 0 <= above(
            now,
            x,
        ) < now.len() && now[above(now, x)] is Some && rank[above(now, x)] < rank[x] by {
            if x != b {
                assert(up[x] is Some);
                assert(above(now, x) == above(up, x));
            }
        }
    }
    // What was looked at before climbs to no more than it did.
    assert forall|x: int, y: int|
        0 <= x < graph.len() && up[x] is Some && #[trigger] climbs(
            now,
            rank,
            x,
            y,
        ) implies climbs(up, rank, x, y) by {
        if up[b] is Some {
            moving_up_adds_nothing(up, rank, b, to, x, y);
        } else {
            not_looked_at_yet(up, rank, b, x);
            elsewhere_the_same(up, rank, b, to, x, y);
        }
    }
    assert forall|c: int, y: int|
        0 <= c < graph.len() && 0 <= y < graph.len() && #[trigger] common(
            graph,
            now,
            rank,
            c,
            y,
        ) implies common(graph, up, rank, c, y) by {
        assert forall|p: int|
            0 <= p < graph.len() && up[p] is Some && #[trigger] graph[p].contains(c) implies climbs(
            up,
            rank,
            p,
            y,
        ) by {
            assert(now[p] is Some);
            assert(climbs(now, rank, p, y));
        }
    }
    let looked = if up[b] is Some {
        done
    } else {
        rank[b] + 1
    };
    assert forall|x: int| 0 <= x < now.len() implies (#[trigger] now[x]) is Some == (rank[x]
        < looked) by {
        if x != b {
            assert(up[x] is Some == (rank[x] < done));
            ranks_apart(rank, x, b);
        }
    }
    assert forall|c: int| 0 < c < graph.len() && (#[trigger] now[c]) is Some implies holds_of(
        graph,
        now,
        rank,
        from,
        i + 1,
        c,
    ) by {
        assert(0 <= from[c] < graph.len());
        if c == b {
            moved_block_holds(graph, up, rank, from, done, b, to);
        } else {
            assert(up[c] is Some);
            other_block_holds(graph, up, rank, from, done, b, to, c);
        }
    }
}

proof fn moved_block_holds(
    graph: Graph,
    up: Above,
    rank: Seq<u32>,
    from: Seq<int>,
    done: int,
    b: int,
    to: BlockId,
)
    requires
        searches_well(graph, up, rank, from, rank[b] as int, done),
        0 < b < graph.len(),
        up[from[b]] is Some,
        meets(graph, up, rank, b, to.0 as int),
        forall|y: int|
            0 <= y < graph.len() && #[trigger] common(
                graph,
                up.update(b, Some(to)),
                rank,
                b,
                y,
            ) ==> common(graph, up, rank, b, y),
    ensures
        holds_of(graph, up.update(b, Some(to)), rank, from, rank[b] + 1, b),
{
    let now = up.update(b, Some(to));
    let r = to.0 as int;
    let i = rank[b] as int;
    assert(0 <= from[b] < graph.len());
    meeting_misses_none(graph, up, rank, from, i, done, b, r);
    if climbs(up, rank, r, b) {
        climbed(up, rank, r, b);
    }
    if climbs(up, rank, from[b], b) {
        climbed(up, rank, from[b], b);
    }
    assert(above(now, b) == r);
    assert forall|y: int| 0 <= y < graph.len() && #[trigger] common(
        graph,
        now,
        rank,
        b,
        y,
    ) implies climbs(now, rank, above(now, b), y) by {
        assert(common(graph, up, rank, b, y));
        elsewhere_the_same(up, rank, b, to, r, y);
    }
    elsewhere_the_same(up, rank, b, to, from[b], r);
}

#[verifier::spinoff_prover]
#[verifier::rlimit(40)]
proof fn other_block_holds(
    graph: Graph,
    up: Above,
    rank: Seq<u32>,
    from: Seq<int>,
    done: int,
    b: int,
    to: BlockId,
    c: int,
)
    requires
        searches_well(graph, up, rank, from, rank[b] as int, done),
        is_tree(up.update(b, Some(to)), rank),
        0 < b < graph.len(),
        0 < c < graph.len(),
        c != b,
        up[c] is Some,
        forall|y: int|
            0 <= y < graph.len() && #[trigger] common(
                graph,
                up.update(b, Some(to)),
                rank,
                c,
                y,
            ) ==> common(graph, up, rank, c, y),
    ensures
        holds_of(graph, up.update(b, Some(to)), rank, from, rank[b] + 1, c),
{
    let now = up.update(b, Some(to));
    let i = rank[b] as int;
    let o = above(up, c);
    let p = from[c];
    assert(holds_of(graph, up, rank, from, i, c));
    assert(0 <= from[c] < graph.len());
    assert(up[p] is Some);
    assert(0 <= o < graph.len() && up[o] is Some);
    assert(above(now, c) == o);
    ranks_apart(rank, c, b);
    if rank[o] < rank[b] {
        // What is above it comes before the block that moves, so it stays.
        if climbs(up, rank, o, b) {
            climbed(up, rank, o, b);
        }
        assert forall|y: int| 0 <= y < graph.len() && #[trigger] common(
            graph,
            now,
            rank,
            c,
            y,
        ) implies climbs(now, rank, o, y) by {
            assert(common(graph, up, rank, c, y));
            elsewhere_the_same(up, rank, b, to, o, y);
        }
        if climbs(up, rank, p, o) {
            if climbs(up, rank, p, b) {
                climbed(up, rank, p, b);
            } else {
                elsewhere_the_same(up, rank, b, to, p, o);
            }
        }
    } else {
        // The way from its predecessor to what is above it stays, and what all
        // of its predecessors climb to is on that way.
        assert(climbs(up, rank, p, o));
        below_the_same(up, rank, b, to, p, o);
        assert forall|y: int| 0 <= y < graph.len() && #[trigger] common(
            graph,
            now,
            rank,
            c,
            y,
        ) implies climbs(now, rank, o, y) by {
            assert(common(graph, up, rank, c, y));
            climbed(up, rank, o, y);
            assert(graph[p].contains(c) && now[p] is Some);
            assert(climbs(now, rank, p, y));
            climbs_in_line(now, rank, p, o, y);
        }
    }
}

// -- where the search ends --------------------------------------------------

/// Whether what is above a block is on the way up from every predecessor.
pub open spec fn settled(graph: Graph, up: Above, rank: Seq<u32>, c: int) -> bool {
    forall|p: int|
        0 <= p < graph.len() && #[trigger] graph[p].contains(c) ==> climbs(
            up,
            rank,
            p,
            above(up, c),
        )
}

/// What is climbed to dominates, once nothing moves any more.
pub proof fn climbed_dominates(graph: Graph, up: Above, rank: Seq<u32>, path: Seq<int>, x: int, y: int)
    requires
        is_tree(up, rank),
        up.len() == graph.len(),
        forall|c: int| 0 < c < graph.len() ==> #[trigger] settled(graph, up, rank, c),
        forall|c: int| 0 <= c < graph.len() ==> (#[trigger] up[c]) is Some,
        leads(graph, path, 0, x),
        climbs(up, rank, x, y),
    ensures
        path.contains(y),
    decreases path.len(),
{
    assert(0 <= path[path.len() - 1] < graph.len());
    if x == y {
        assert(path[path.len() - 1] == y);
    } else {
        assert(path.len() > 1) by {
            if path.len() == 1 {
                assert(path[0] == x);
            }
        }
        let p = path[path.len() - 2];
        last_step(graph, path, 0, x);
        assert(0 <= path[path.len() - 2] < graph.len());
        assert(settled(graph, up, rank, x));
        climbs_through(up, rank, p, above(up, x), y);
        climbed_dominates(graph, up, rank, path.drop_last(), p, y);
        let k = choose|k: int| 0 <= k < path.drop_last().len() && path.drop_last()[k] == y;
        assert(path[k] == y);
    }
}

// -- how much is left -------------------------------------------------------

/// How far up the first `n` blocks still could move.
pub open spec fn room_to_move(up: Above, rank: Seq<u32>, n: int) -> nat
    decreases n,
{
    if n <= 0 {
        0
    } else {
        room_to_move(up, rank, n - 1) + if up[n - 1] is Some {
            rank[above(up, n - 1)] as nat
        } else {
            rank.len()
        }
    }
}

pub proof fn moving_takes_room(up: Above, rank: Seq<u32>, b: int, to: BlockId, n: int)
    requires
        0 <= b < up.len(),
        0 <= n <= up.len(),
        up[b] is Some ==> rank[to.0 as int] < rank[above(up, b)],
        up[b] is None ==> rank[to.0 as int] < rank.len(),
    ensures
        b < n ==> room_to_move(up.update(b, Some(to)), rank, n) < room_to_move(up, rank, n),
        b >= n ==> room_to_move(up.update(b, Some(to)), rank, n) == room_to_move(up, rank, n),
    decreases n,
{
    if n > 0 {
        moving_takes_room(up, rank, b, to, n - 1);
    }
}

// -- meeting ----------------------------------------------------------------

/// Where the ways up from two blocks meet.
pub fn intersect(up: &Vec<Option<BlockId>>, rank: &Vec<u32>, a: BlockId, b: BlockId) -> (meeting:
    BlockId)
    requires
        is_tree(up@, rank@),
        a.0 < up@.len(),
        b.0 < up@.len(),
        up@[a.0 as int] is Some,
        up@[b.0 as int] is Some,
    ensures
        meeting.0 < up@.len(),
        up@[meeting.0 as int] is Some,
        climbs(up@, rank@, a.0 as int, meeting.0 as int),
        climbs(up@, rank@, b.0 as int, meeting.0 as int),
        forall|y: int|
            #![trigger climbs(up@, rank@, meeting.0 as int, y)]
            climbs(up@, rank@, a.0 as int, y) && climbs(up@, rank@, b.0 as int, y) ==> climbs(
                up@,
                rank@,
                meeting.0 as int,
                y,
            ),
{
    let mut x: BlockId = a;
    let mut y: BlockId = b;
    while x.0 != y.0
        invariant
            is_tree(up@, rank@),
            a.0 < up@.len(),
            b.0 < up@.len(),
            up@[a.0 as int] is Some,
            up@[b.0 as int] is Some,
            x.0 < up@.len(),
            y.0 < up@.len(),
            up@[x.0 as int] is Some,
            up@[y.0 as int] is Some,
            climbs(up@, rank@, a.0 as int, x.0 as int),
            climbs(up@, rank@, b.0 as int, y.0 as int),
            forall|z: int|
                #![trigger climbs(up@, rank@, x.0 as int, z)]
                #![trigger climbs(up@, rank@, y.0 as int, z)]
                climbs(up@, rank@, a.0 as int, z) && climbs(up@, rank@, b.0 as int, z) ==> climbs(
                    up@,
                    rank@,
                    x.0 as int,
                    z,
                ) && climbs(up@, rank@, y.0 as int, z),
        decreases rank@[x.0 as int] + rank@[y.0 as int],
    {
        let ghost held = (x, y);
        if rank[x.0 as usize] > rank[y.0 as usize] {
            x = parent(up, rank, x);
        } else {
            proof {
                ranks_apart(rank@, x.0 as int, y.0 as int);
            }
            y = parent(up, rank, y);
        }
        proof {
            climb_one(up@, rank@, a.0 as int, held.0.0 as int, x.0 as int);
            climb_one(up@, rank@, b.0 as int, held.1.0 as int, y.0 as int);
            assert forall|z: int|
                #![trigger climbs(up@, rank@, x.0 as int, z)]
                #![trigger climbs(up@, rank@, y.0 as int, z)]
                climbs(up@, rank@, a.0 as int, z) && climbs(
                    up@,
                    rank@,
                    b.0 as int,
                    z,
                ) implies climbs(up@, rank@, x.0 as int, z) && climbs(
                up@,
                rank@,
                y.0 as int,
                z,
            ) by {
                assert(climbs(up@, rank@, held.0.0 as int, z));
                assert(climbs(up@, rank@, held.1.0 as int, z));
                climbed(up@, rank@, held.0.0 as int, z);
                climbed(up@, rank@, held.1.0 as int, z);
            }
        }
    }
    x
}

/// Climbing to a block, and to it or what is above it.
proof fn climb_one(up: Above, rank: Seq<u32>, a: int, x: int, next: int)
    requires
        is_tree(up, rank),
        0 <= x < up.len(),
        up[x] is Some,
        climbs(up, rank, a, x),
        next == x || (x != 0 && next == above(up, x)),
    ensures
        climbs(up, rank, a, next),
{
    if next != x {
        assert(climbs(up, rank, x, next)) by {
            assert(climbs(up, rank, above(up, x), next));
        }
        climbs_through(up, rank, a, x, next);
    }
}

/// The block above one that is not the entry.
fn parent(up: &Vec<Option<BlockId>>, rank: &Vec<u32>, x: BlockId) -> (above_it: BlockId)
    requires
        is_tree(up@, rank@),
        0 < x.0 < up@.len(),
        up@[x.0 as int] is Some,
    ensures
        above_it.0 < up@.len(),
        up@[above_it.0 as int] is Some,
        above_it.0 as int == above(up@, x.0 as int),
        rank@[above_it.0 as int] < rank@[x.0 as int],
{
    match up[x.0 as usize] {
        Some(d) => d,
        None => x,
    }
}

/// Where the ways up from the predecessors of a block that have been looked at
/// meet. One that has not been looked at has nothing to say yet.
pub fn meeting_of(
    up: &Vec<Option<BlockId>>,
    rank: &Vec<u32>,
    into: &Vec<BlockId>,
    Ghost(graph): Ghost<Graph>,
    Ghost(b): Ghost<int>,
    Ghost(from): Ghost<int>,
) -> (meeting: BlockId)
    requires
        is_tree(up@, rank@),
        up@.len() == graph.len() <= u32::MAX,
        forall|k: int| 0 <= k < into@.len() ==> (#[trigger] into@[k]).0 < graph.len(),
        forall|p: int|
            0 <= p < graph.len() ==> #[trigger] graph[p].contains(b) == into@.contains(
                BlockId(p as u32),
            ),
        0 <= from < graph.len(),
        graph[from].contains(b),
        up@[from] is Some,
    ensures
        meets(graph, up@, rank@, b, meeting.0 as int),
{
    let mut found: Option<BlockId> = None;
    let mut k: usize = 0;
    while k < into.len()
        invariant
            k <= into@.len(),
            is_tree(up@, rank@),
            up@.len() == graph.len(),
            forall|k: int| 0 <= k < into@.len() ==> (#[trigger] into@[k]).0 < graph.len(),
            match found {
                None => forall|j: int| 0 <= j < k ==> up@[(#[trigger] into@[j]).0 as int] is None,
                Some(at) => {
                    &&& at.0 < graph.len()
                    &&& up@[at.0 as int] is Some
                    &&& forall|j: int|
                        0 <= j < k && up@[(#[trigger] into@[j]).0 as int] is Some ==> climbs(
                            up@,
                            rank@,
                            into@[j].0 as int,
                            at.0 as int,
                        )
                    &&& forall|y: int|
                        (forall|j: int|
                            0 <= j < k && up@[(#[trigger] into@[j]).0 as int] is Some ==> climbs(
                                up@,
                                rank@,
                                into@[j].0 as int,
                                y,
                            )) ==> #[trigger] climbs(up@, rank@, at.0 as int, y)
                },
            },
        decreases into@.len() - k,
    {
        let pred: BlockId = into[k];
        if up[pred.0 as usize].is_some() {
            let ghost before = found;
            let at: BlockId = match found {
                None => pred,
                Some(so_far) => intersect(up, rank, pred, so_far),
            };
            found = Some(at);
            proof {
                assert forall|j: int|
                    0 <= j < k + 1 && up@[(#[trigger] into@[j]).0 as int] is Some implies climbs(
                    up@,
                    rank@,
                    into@[j].0 as int,
                    at.0 as int,
                ) by {
                    if j < k {
                        if let Some(so_far) = before {
                            climbs_through(
                                up@,
                                rank@,
                                into@[j].0 as int,
                                so_far.0 as int,
                                at.0 as int,
                            );
                        }
                    }
                }
                assert forall|y: int|
                    (forall|j: int|
                        0 <= j < k + 1 && up@[(#[trigger] into@[j]).0 as int] is Some ==> climbs(
                            up@,
                            rank@,
                            into@[j].0 as int,
                            y,
                        )) implies #[trigger] climbs(up@, rank@, at.0 as int, y) by {
                    assert(climbs(up@, rank@, into@[k as int].0 as int, y));
                    if let Some(so_far) = before {
                        assert(climbs(up@, rank@, so_far.0 as int, y));
                    }
                }
            }
        }
        k = k + 1;
    }
    proof {
        assert(into@.contains(BlockId(from as u32)));
        let j = choose|j: int| 0 <= j < into@.len() && into@[j] == BlockId(from as u32);
        assert(up@[into@[j].0 as int] is Some);
    }
    match found {
        Some(at) => {
            proof {
                assert forall|p: int|
                    0 <= p < graph.len() && up@[p] is Some && #[trigger] graph[p].contains(
                        b,
                    ) implies climbs(up@, rank@, p, at.0 as int) by {
                    assert(into@.contains(BlockId(p as u32)));
                    let j = choose|j: int| 0 <= j < into@.len() && into@[j] == BlockId(p as u32);
                    assert(into@[j].0 == p);
                }
                assert forall|y: int|
                    0 <= y < graph.len() && #[trigger] common(
                        graph,
                        up@,
                        rank@,
                        b,
                        y,
                    ) implies climbs(up@, rank@, at.0 as int, y) by {
                    assert forall|j: int|
                        0 <= j < k && up@[(#[trigger] into@[j]).0 as int] is Some implies climbs(
                        up@,
                        rank@,
                        into@[j].0 as int,
                        y,
                    ) by {
                        let p = into@[j].0 as int;
                        assert(into@[j] == BlockId(p as u32));
                        assert(into@.contains(BlockId(p as u32)));
                        assert(graph[p].contains(b));
                    }
                }
            }
            at
        },
        None => BlockId(0),
    }
}

} // verus!
