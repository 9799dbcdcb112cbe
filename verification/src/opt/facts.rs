//! What a register is known to hold.

use vstd::prelude::*;

use crate::ast::BinOp;
use crate::graph::edges;
use crate::ir::block::{flow, instr_views, successor_lists, Block, BlockView};
use crate::ir::fold::{fold_bin, fold_cmp, folded_bin, folded_comparison};
use crate::ir::func::{block_within, well_formed, Function, FunctionView};
use crate::ir::instr::{instr_within, Instr, InstrView};
use crate::ir::ssa::dom::{flow_is_closed, predecessors, predecessors_are, predecessors_before};
use crate::ir::value::{value_within, BlockId, Num, Value};

verus! {

/// What is known about one register where the analysis stands.
///
/// The third value of the lattice is *absence*: a register no fact mentions has
/// not been reached yet, which is what lets a loop's back edge start out saying
/// nothing and be corrected on the next round.
#[derive(Clone, Copy, Debug, PartialEq, Eq, Structural)]
pub enum Known {
    Const(i64),
    /// Reached by two paths that disagree, or produced by something no pass can
    /// evaluate — a load, a call, a parameter.
    Unknown,
}

/// What is known about every register at one point in the function.
pub type Facts = Seq<Option<Known>>;

/// What is left of what two paths say of a register. Two that agree on a value
/// keep it; two that disagree lose it. A register only one side mentions is
/// taken as it stands: the other side has not reached a definition of it, and a
/// program cannot read a register on a path that never wrote one.
pub open spec fn met(a: Option<Known>, b: Option<Known>) -> Option<Known> {
    match (a, b) {
        (None, _) => b,
        (_, None) => a,
        (Some(held), Some(value)) => if held == value {
            a
        } else {
            Some(Known::Unknown)
        },
    }
}

pub open spec fn meet(a: Facts, b: Facts) -> Facts {
    Seq::new(a.len(), |r: int| met(a[r], b[r]))
}

/// What an operand is known to be.
pub open spec fn known_of(value: Value, facts: Facts) -> Known {
    match value {
        Value::Const(c) => Known::Const(c),
        Value::Reg(reg) => match facts[reg.0 as int] {
            Some(known) => known,
            None => Known::Unknown,
        },
    }
}

/// What an operation is known to answer, given what is known of its operands.
pub open spec fn operation(num: Num, op: BinOp, lhs: Known, rhs: Known) -> Option<i64> {
    match (lhs, rhs) {
        (Known::Const(a), Known::Const(b)) => if num is Float && op is Rem {
            None
        } else {
            folded_bin(num, op, Value::Const(a), Value::Const(b))
        },
        _ => None,
    }
}

/// What an instruction is known to produce, given what is known coming in.
pub open spec fn evaluated(instr: InstrView, facts: Facts) -> Known {
    match instr {
        InstrView::Const { val, .. } => Known::Const(val),
        InstrView::Copy { src, .. } => known_of(src, facts),
        InstrView::Bin { num, op, lhs, rhs, .. } => match operation(
            num,
            op,
            known_of(lhs, facts),
            known_of(rhs, facts),
        ) {
            Some(answer) => Known::Const(answer),
            None => Known::Unknown,
        },
        InstrView::Cmp { num, op, lhs, rhs, .. } => match (
            known_of(lhs, facts),
            known_of(rhs, facts),
        ) {
            (Known::Const(a), Known::Const(b)) => Known::Const(
                folded_comparison(num, op, Value::Const(a), Value::Const(b))->0,
            ),
            _ => Known::Unknown,
        },
        // Everything else produces an address, a length, or whatever a callee
        // decided — none of them answerable here.
        _ => Known::Unknown,
    }
}

/// What is known once an instruction has written.
pub open spec fn known_after(facts: Facts, instr: InstrView) -> Facts {
    match instr.written() {
        Some(dst) => facts.update(dst.0 as int, Some(evaluated(instr, facts))),
        None => facts,
    }
}

/// What is known after the first `n` instructions of a block.
pub open spec fn transferred(facts: Facts, instrs: Seq<InstrView>, n: int) -> Facts
    decreases n,
{
    if n <= 0 {
        facts
    } else {
        known_after(transferred(facts, instrs, n - 1), instrs[n - 1])
    }
}

/// What is known at the end of a block.
pub open spec fn block_transferred(facts: Facts, block: BlockView) -> Facts {
    transferred(facts, block.instrs, block.instrs.len() as int)
}

/// What is known on entry to each block, and on leaving it.
#[verifier::ext_equal]
pub struct Analysis {
    pub entries: Seq<Facts>,
    pub exits: Seq<Facts>,
}

/// What is known where blocks meet, out of the first `n`.
pub open spec fn gathered(start: Facts, exits: Seq<Facts>, into: Seq<BlockId>, n: int) -> Facts
    decreases n,
{
    if n <= 0 {
        start
    } else {
        meet(gathered(start, exits, into, n - 1), exits[into[n - 1].0 as int])
    }
}

/// Who jumps to a block, once for every edge.
pub open spec fn comes_from(blocks: Seq<BlockView>, b: int) -> Seq<BlockId> {
    predecessors_before(flow(blocks), b, blocks.len() as int)
}

/// What is known on entry to a block, from what its predecessors leave.
pub open spec fn entry_of(blocks: Seq<BlockView>, at: Analysis, b: int) -> Facts {
    let into = comes_from(blocks, b);
    gathered(at.entries[b], at.exits, into, into.len() as int)
}

/// With one block looked at again.
pub open spec fn block_analysed(blocks: Seq<BlockView>, at: Analysis, b: int) -> Analysis {
    let entry = entry_of(blocks, at, b);
    Analysis {
        entries: at.entries.update(b, entry),
        exits: at.exits.update(b, block_transferred(entry, blocks[b])),
    }
}

/// With the first `n` blocks looked at again, in order.
pub open spec fn round_before(blocks: Seq<BlockView>, at: Analysis, n: int) -> Analysis
    decreases n,
{
    if n <= 0 {
        at
    } else {
        block_analysed(blocks, round_before(blocks, at, n - 1), n - 1)
    }
}

/// With every block looked at again.
pub open spec fn round(blocks: Seq<BlockView>, at: Analysis) -> Analysis {
    round_before(blocks, at, blocks.len() as int)
}

/// Nothing known of any register.
pub open spec fn nothing_known(registers: nat) -> Facts {
    Seq::new(registers, |r: int| None::<Known>)
}

/// What is known after so many rounds. Every block starts knowing nothing at
/// all rather than knowing everything is unknown, which is what makes a loop
/// answerable: the back edge says nothing on the first round and contributes
/// properly once the body has been walked.
pub open spec fn rounds(function: FunctionView, n: nat) -> Analysis
    decreases n,
{
    if n == 0 {
        let none = Seq::new(function.blocks.len(), |b: int| nothing_known(function.names.len()));
        Analysis { entries: none, exits: none }
    } else {
        round(function.blocks, rounds(function, (n - 1) as nat))
    }
}

/// Whether an analysis is where the rounds end: another changes nothing.
pub open spec fn settled(function: FunctionView, at: Analysis) -> bool {
    &&& round(function.blocks, at) == at
    &&& exists|n: nat| at == #[trigger] rounds(function, n)
}

/// What is known everywhere, once another round changes nothing.
pub open spec fn analysed(function: FunctionView) -> Analysis {
    choose|at: Analysis| settled(function, at)
}

pub proof fn rounds_stay(function: FunctionView, n: nat, m: nat)
    requires
        n <= m,
        round(function.blocks, rounds(function, n)) == rounds(function, n),
    ensures
        rounds(function, m) == rounds(function, n),
    decreases m,
{
    if n < m {
        rounds_stay(function, n, (m - 1) as nat);
    }
}

/// The rounds end in one place.
pub proof fn analysed_is(function: FunctionView, at: Analysis)
    requires
        settled(function, at),
    ensures
        analysed(function) == at,
{
    let other = analysed(function);
    assert(settled(function, other));
    let n = choose|n: nat| at == #[trigger] rounds(function, n);
    let m = choose|m: nat| other == #[trigger] rounds(function, m);
    if n <= m {
        rounds_stay(function, n, m);
    } else {
        rounds_stay(function, m, n);
    }
}

// -- how much there is still to learn ---------------------------------------

/// How often what is known of a register can still change.
pub open spec fn height(known: Option<Known>) -> nat {
    match known {
        None => 2,
        Some(Known::Const(_)) => 1,
        Some(Known::Unknown) => 0,
    }
}

pub open spec fn heights(facts: Facts) -> nat
    decreases facts.len(),
{
    if facts.len() == 0 {
        0
    } else {
        heights(facts.drop_last()) + height(facts.last())
    }
}

pub open spec fn all_heights(entries: Seq<Facts>) -> nat
    decreases entries.len(),
{
    if entries.len() == 0 {
        0
    } else {
        all_heights(entries.drop_last()) + heights(entries.last())
    }
}

proof fn meeting_lowers(a: Facts, b: Facts)
    requires
        a.len() == b.len(),
        forall|r: int| 0 <= r < a.len() ==> height(#[trigger] b[r]) <= height(a[r]),
    ensures
        heights(b) <= heights(a),
        (exists|r: int| 0 <= r < a.len() && height(#[trigger] b[r]) < height(a[r])) ==> heights(b)
            < heights(a),
    decreases a.len(),
{
    if a.len() > 0 {
        let last = a.len() - 1;
        assert(height(b[last]) <= height(a[last]));
        meeting_lowers(a.drop_last(), b.drop_last());
        if exists|r: int| 0 <= r < a.len() && height(#[trigger] b[r]) < height(a[r]) {
            let r = choose|r: int| 0 <= r < a.len() && height(#[trigger] b[r]) < height(a[r]);
            if r < last {
                assert(height(b.drop_last()[r]) < height(a.drop_last()[r]));
            }
        }
    }
}

/// Meeting changes a fact only by learning less.
proof fn meet_lowers(a: Facts, b: Facts)
    requires
        a.len() == b.len(),
    ensures
        heights(meet(a, b)) <= heights(a),
        meet(a, b) != a ==> heights(meet(a, b)) < heights(a),
{
    let m = meet(a, b);
    assert forall|r: int| 0 <= r < a.len() implies height(#[trigger] m[r]) <= height(a[r]) by {}
    meeting_lowers(a, m);
    if m != a {
        assert(exists|r: int| 0 <= r < a.len() && m[r] != a[r]) by {
            if forall|r: int| 0 <= r < a.len() ==> m[r] == a[r] {
                assert(m =~= a);
            }
        }
        let r = choose|r: int| 0 <= r < a.len() && m[r] != a[r];
        assert(height(m[r]) < height(a[r]));
    }
}

proof fn all_heights_after(entries: Seq<Facts>, b: int, facts: Facts)
    requires
        0 <= b < entries.len(),
    ensures
        all_heights(entries.update(b, facts)) + heights(entries[b]) == all_heights(entries)
            + heights(facts),
    decreases entries.len(),
{
    let new = entries.update(b, facts);
    if b == entries.len() - 1 {
        assert(new.drop_last() =~= entries.drop_last());
    } else {
        all_heights_after(entries.drop_last(), b, facts);
        assert(new.drop_last() =~= entries.drop_last().update(b, facts));
    }
}

/// Gathering changes a fact only by learning less.
pub proof fn gathering_lowers(
    start: Facts,
    exits: Seq<Facts>,
    into: Seq<BlockId>,
    n: int,
    registers: nat,
)
    requires
        0 <= n <= into.len(),
        start.len() == registers,
        forall|k: int|
            0 <= k < into.len() ==> exits[(#[trigger] into[k]).0 as int].len() == registers,
    ensures
        gathered(start, exits, into, n).len() == registers,
        heights(gathered(start, exits, into, n)) <= heights(start),
        gathered(start, exits, into, n) != start ==> heights(gathered(start, exits, into, n))
            < heights(start),
    decreases n,
{
    if n > 0 {
        gathering_lowers(start, exits, into, n - 1, registers);
        assert(exits[into[n - 1].0 as int].len() == registers);
        meet_lowers(gathered(start, exits, into, n - 1), exits[into[n - 1].0 as int]);
    }
}

/// Where gathering ends up where it started, no predecessor had anything to
/// add.
pub proof fn nothing_to_gather(
    start: Facts,
    exits: Seq<Facts>,
    into: Seq<BlockId>,
    n: int,
    k: int,
    registers: nat,
)
    requires
        0 <= k < n <= into.len(),
        start.len() == registers,
        forall|k: int|
            0 <= k < into.len() ==> exits[(#[trigger] into[k]).0 as int].len() == registers,
        gathered(start, exits, into, n) == start,
    ensures
        meet(start, exits[into[k].0 as int]) == start,
    decreases n,
{
    gathering_lowers(start, exits, into, n - 1, registers);
    let before = gathered(start, exits, into, n - 1);
    assert(exits[into[n - 1].0 as int].len() == registers);
    meet_lowers(before, exits[into[n - 1].0 as int]);
    assert(before == start);
    if k < n - 1 {
        nothing_to_gather(start, exits, into, n - 1, k, registers);
    }
}

pub proof fn transfer_keeps_count(facts: Facts, instrs: Seq<InstrView>, n: int)
    requires
        0 <= n <= instrs.len(),
        forall|k: int| 0 <= k < instrs.len() ==> instr_within(#[trigger] instrs[k], facts.len()),
    ensures
        transferred(facts, instrs, n).len() == facts.len(),
    decreases n,
{
    if n > 0 {
        transfer_keeps_count(facts, instrs, n - 1);
        assert(instr_within(instrs[n - 1], facts.len()));
    }
}

/// What one round does.
proof fn round_before_well(function: FunctionView, at: Analysis, n: int)
    requires
        well_formed(function),
        0 <= n <= function.blocks.len(),
        speaks_of(at, function.blocks.len(), function.names.len()),
    ensures
        ({
            let blocks = function.blocks;
            let registers = function.names.len();
            let after = round_before(blocks, at, n);
            &&& speaks_of(after, blocks.len(), registers)
            &&& all_heights(after.entries) <= all_heights(at.entries)
            &&& after.entries != at.entries ==> all_heights(after.entries) < all_heights(
                at.entries,
            )
            &&& in_step(blocks, after, n)
            &&& forall|k: int|
                n <= k < blocks.len() ==> #[trigger] after.exits[k] == at.exits[k]
            &&& forall|k: int|
                n <= k < blocks.len() ==> #[trigger] after.entries[k] == at.entries[k]
        }),
    decreases n,
{
    if n > 0 {
        let blocks = function.blocks;
        let registers = function.names.len();
        let b = n - 1;
        round_before_well(function, at, b);
        assert(block_within(blocks[b], registers, blocks.len()));
        let before = round_before(blocks, at, b);
        let after = round_before(blocks, at, n);
        let into = comes_from(blocks, b);
        predecessors_are(flow(blocks), b, blocks.len() as int);
        let entry = entry_of(blocks, before, b);
        gathering_lowers(before.entries[b], before.exits, into, into.len() as int, registers);
        transfer_keeps_count(entry, blocks[b].instrs, blocks[b].instrs.len() as int);
        all_heights_after(before.entries, b, entry);
        if entry == before.entries[b] {
            assert(after.entries =~= before.entries);
        }
        assert forall|k: int| 0 <= k < n implies #[trigger] after.exits[k] == block_transferred(
            after.entries[k],
            blocks[k],
        ) by {
            if k < b {
                assert(before.exits[k] == block_transferred(before.entries[k], blocks[k]));
            }
        }
    }
}

proof fn rounds_settle_from(function: FunctionView, n: nat)
    requires
        well_formed(function),
        speaks_of(rounds(function, n), function.blocks.len(), function.names.len()),
        n > 0 ==> in_step(function.blocks, rounds(function, n), function.blocks.len() as int),
    ensures
        exists|at: Analysis| settled(function, at) && speaks_of(
            at,
            function.blocks.len(),
            function.names.len(),
        ),
    decreases
            all_heights(rounds(function, n).entries),
            if n == 0 {
                1int
            } else {
                0int
            },
{
    let blocks = function.blocks;
    let at = rounds(function, n);
    let next = rounds(function, n + 1);
    round_before_well(function, at, blocks.len() as int);
    assert(next == round(blocks, at));
    if next == at {
        assert(settled(function, at));
    } else {
        if n > 0 && next.entries == at.entries {
            assert forall|k: int| 0 <= k < blocks.len() implies next.exits[k] == at.exits[k] by {
                assert(next.exits[k] == block_transferred(next.entries[k], blocks[k]));
                assert(at.exits[k] == block_transferred(at.entries[k], blocks[k]));
            }
            assert(next.exits =~= at.exits);
        }
        rounds_settle_from(function, n + 1);
    }
}

/// The lattice is three deep, so the rounds run out.
pub proof fn rounds_settle(function: FunctionView)
    requires
        well_formed(function),
    ensures
        settled(function, analysed(function)),
        speaks_of(analysed(function), function.blocks.len(), function.names.len()),
{
    rounds_settle_from(function, 0);
    let at = choose|at: Analysis|
        settled(function, at) && speaks_of(at, function.blocks.len(), function.names.len());
    analysed_is(function, at);
}

// -- working it out ---------------------------------------------------------

/// Fold `other` into `into`, answering whether anything changed.
fn meet_into(into: &mut Vec<Option<Known>>, other: &Vec<Option<Known>>) -> (changed: bool)
    requires
        old(into)@.len() == other@.len(),
    ensures
        final(into)@ == meet(old(into)@, other@),
        changed == (final(into)@ != old(into)@),
        heights(final(into)@) <= heights(old(into)@),
        changed ==> heights(final(into)@) < heights(old(into)@),
{
    let ghost before = into@;
    let mut changed: bool = false;
    let mut r: usize = 0;
    while r < other.len()
        invariant
            r <= other@.len(),
            into@.len() == other@.len(),
            before.len() == other@.len(),
            forall|k: int| 0 <= k < r ==> #[trigger] into@[k] == met(before[k], other@[k]),
            forall|k: int| r <= k < other@.len() ==> #[trigger] into@[k] == before[k],
            changed == exists|k: int| 0 <= k < r && #[trigger] into@[k] != before[k],
        decreases other@.len() - r,
    {
        let ghost so_far = into@;
        let held: Option<Known> = into[r];
        let new: Option<Known> = match (held, other[r]) {
            (None, value) => value,
            (held, None) => held,
            (Some(a), Some(b)) => if a == b {
                held
            } else {
                Some(Known::Unknown)
            },
        };
        let differs: bool = match (held, new) {
            (None, None) => false,
            (Some(a), Some(b)) => a != b,
            _ => true,
        };
        into.set(r, new);
        proof {
            if changed {
                let k = choose|k: int| 0 <= k < r && #[trigger] so_far[k] != before[k];
                assert(into@[k] != before[k]);
            }
            if differs {
                assert(into@[r as int] != before[r as int]);
            }
            if exists|k: int| 0 <= k < r + 1 && #[trigger] into@[k] != before[k] {
                let k = choose|k: int| 0 <= k < r + 1 && #[trigger] into@[k] != before[k];
                if k < r {
                    assert(so_far[k] != before[k]);
                }
            }
        }
        changed = changed || differs;
        r = r + 1;
    }
    proof {
        assert(into@ =~= meet(before, other@));
        meet_lowers(before, other@);
        if !changed {
            assert(into@ =~= before);
        }
    }
    changed
}

/// What `value` is known to be.
pub fn known(value: Value, facts: &Vec<Option<Known>>) -> (what: Known)
    requires
        value_within(value, facts@.len()),
    ensures
        what == known_of(value, facts@),
{
    match value {
        Value::Const(c) => Known::Const(c),
        Value::Reg(reg) => match facts[reg.0 as usize] {
            Some(known) => known,
            None => Known::Unknown,
        },
    }
}

/// What this instruction is known to produce, given what is known coming in.
///
/// Folding goes through the same two functions lowering uses, which is what
/// keeps the two from ever disagreeing about what the smallest `int` divided by
/// `-1` is — and what makes "the answer does not exist" the reason an operation
/// survives this pass.
pub fn evaluate(instr: &Instr, facts: &Vec<Option<Known>>) -> (what: Known)
    requires
        instr_within(instr@, facts@.len()),
    ensures
        what == evaluated(instr@, facts@),
{
    match instr {
        Instr::Const { val, .. } => Known::Const(*val),
        Instr::Copy { src, .. } => {
            assert(value_within(instr@.operands()[0], facts@.len()));
            known(*src, facts)
        },
        Instr::Bin { num, op, lhs: left, rhs: right, .. } => {
            assert(value_within(instr@.operands()[0], facts@.len()));
            assert(value_within(instr@.operands()[1], facts@.len()));
            match (known(*left, facts), known(*right, facts)) {
                (Known::Const(a), Known::Const(b)) => {
                    let unanswered: bool = match (*num, *op) {
                        (Num::Float, BinOp::Rem) => true,
                        _ => false,
                    };
                    if unanswered {
                        Known::Unknown
                    } else {
                        match fold_bin(*num, *op, Value::Const(a), Value::Const(b)) {
                            Some(answer) => Known::Const(answer),
                            None => Known::Unknown,
                        }
                    }
                },
                _ => Known::Unknown,
            }
        },
        Instr::Cmp { num, op, lhs: left, rhs: right, .. } => {
            assert(value_within(instr@.operands()[0], facts@.len()));
            assert(value_within(instr@.operands()[1], facts@.len()));
            match (known(*left, facts), known(*right, facts)) {
                (Known::Const(a), Known::Const(b)) => {
                    match fold_cmp(*num, *op, Value::Const(a), Value::Const(b)) {
                        Some(answer) => Known::Const(answer),
                        None => Known::Unknown,
                    }
                },
                _ => Known::Unknown,
            }
        },
        _ => Known::Unknown,
    }
}

/// Walk a block, updating what is known as each instruction writes.
fn transfer(facts: &mut Vec<Option<Known>>, block: &Block, Ghost(blocks): Ghost<nat>)
    requires
        block_within(block@, old(facts)@.len(), blocks),
    ensures
        final(facts)@ == block_transferred(old(facts)@, block@),
        final(facts)@.len() == old(facts)@.len(),
{
    let ghost start = facts@;
    let ghost views = block@.instrs;
    let mut k: usize = 0;
    while k < block.instrs.len()
        invariant
            k <= block.instrs@.len(),
            views == instr_views(block.instrs@),
            facts@.len() == start.len(),
            forall|i: int|
                0 <= i < views.len() ==> instr_within(#[trigger] views[i], start.len()),
            facts@ == transferred(start, views, k as int),
        decreases block.instrs@.len() - k,
    {
        assert(views[k as int] == block.instrs@[k as int]@);
        assert(instr_within(views[k as int], start.len()));
        let value: Known = evaluate(&block.instrs[k], facts);
        if let Some(dst) = block.instrs[k].def() {
            facts.set(dst.0 as usize, Some(value));
        }
        k = k + 1;
    }
}

/// Whether two lists of facts say the same.
fn same(a: &Vec<Option<Known>>, b: &Vec<Option<Known>>) -> (same: bool)
    requires
        a@.len() == b@.len(),
    ensures
        same == (a@ == b@),
{
    let mut r: usize = 0;
    while r < a.len()
        invariant
            r <= a@.len() == b@.len(),
            forall|k: int| 0 <= k < r ==> a@[k] == b@[k],
        decreases a@.len() - r,
    {
        let differs: bool = match (a[r], b[r]) {
            (None, None) => false,
            (Some(x), Some(y)) => x != y,
            _ => true,
        };
        if differs {
            return false;
        }
        r = r + 1;
    }
    assert(a@ =~= b@);
    true
}

pub fn copied_facts(facts: &Vec<Option<Known>>) -> (copy: Vec<Option<Known>>)
    ensures
        copy@ == facts@,
{
    let mut copy: Vec<Option<Known>> = Vec::new();
    let mut i: usize = 0;
    while i < facts.len()
        invariant
            i <= facts@.len(),
            copy@ == facts@.take(i as int),
        decreases facts@.len() - i,
    {
        copy.push(facts[i]);
        assert(facts@.take(i + 1) =~= facts@.take(i as int).push(facts@[i as int]));
        i = i + 1;
    }
    assert(copy@ =~= facts@);
    copy
}

/// The facts of a run of lists of facts.
pub open spec fn facts_of(lists: Seq<Vec<Option<Known>>>) -> Seq<Facts> {
    lists.map_values(|list: Vec<Option<Known>>| list@)
}

fn blank_facts(blocks: usize, registers: usize) -> (lists: Vec<Vec<Option<Known>>>)
    ensures
        facts_of(lists@) == Seq::new(blocks as nat, |b: int| nothing_known(registers as nat)),
{
    let mut lists: Vec<Vec<Option<Known>>> = Vec::new();
    let mut b: usize = 0;
    while b < blocks
        invariant
            b <= blocks,
            lists@.len() == b,
            forall|k: int|
                0 <= k < b ==> (#[trigger] lists@[k])@ == nothing_known(registers as nat),
        decreases blocks - b,
    {
        let mut list: Vec<Option<Known>> = Vec::new();
        let mut r: usize = 0;
        while r < registers
            invariant
                r <= registers,
                list@.len() == r,
                forall|k: int| 0 <= k < r ==> list@[k] is None,
            decreases registers - r,
        {
            list.push(None);
            r = r + 1;
        }
        assert(list@ =~= nothing_known(registers as nat));
        lists.push(list);
        b = b + 1;
    }
    assert(facts_of(lists@) =~= Seq::new(blocks as nat, |b: int| nothing_known(registers as nat)));
    lists
}

/// Whether every list of facts speaks of every register.
pub open spec fn speaks_of(at: Analysis, blocks: nat, registers: nat) -> bool {
    &&& at.entries.len() == blocks
    &&& at.exits.len() == blocks
    &&& forall|b: int| 0 <= b < blocks ==> (#[trigger] at.entries[b]).len() == registers
    &&& forall|b: int| 0 <= b < blocks ==> (#[trigger] at.exits[b]).len() == registers
}

/// Whether what is known on leaving each of the first `n` blocks is what comes
/// of what is known on entry.
spec fn in_step(blocks: Seq<BlockView>, at: Analysis, n: int) -> bool {
    forall|b: int|
        0 <= b < n ==> #[trigger] at.exits[b] == block_transferred(at.entries[b], blocks[b])
}

/// Look at one block again. Answers whether anything changed.
fn look_again(
    function: &Function,
    b: usize,
    into: &Vec<BlockId>,
    entries: &mut Vec<Vec<Option<Known>>>,
    exits: &mut Vec<Vec<Option<Known>>>,
) -> (changed: bool)
    requires
        well_formed(function@),
        b < function.blocks@.len(),
        into@ == comes_from(function@.blocks, b as int),
        forall|k: int| 0 <= k < into@.len() ==> (#[trigger] into@[k]).0 < function.blocks@.len(),
        speaks_of(
            (Analysis { entries: facts_of(old(entries)@), exits: facts_of(old(exits)@) }),
            function.blocks@.len(),
            function@.names.len(),
        ),
    ensures
        speaks_of(
            (Analysis { entries: facts_of(final(entries)@), exits: facts_of(final(exits)@) }),
            function.blocks@.len(),
            function@.names.len(),
        ),
        (Analysis { entries: facts_of(final(entries)@), exits: facts_of(final(exits)@) })
            == block_analysed(
            function@.blocks,
            (Analysis { entries: facts_of(old(entries)@), exits: facts_of(old(exits)@) }),
            b as int,
        ),
        changed == ((Analysis {
            entries: facts_of(final(entries)@),
            exits: facts_of(final(exits)@),
        }) != (Analysis { entries: facts_of(old(entries)@), exits: facts_of(old(exits)@) })),
        all_heights(facts_of(final(entries)@)) <= all_heights(facts_of(old(entries)@)),
        facts_of(final(entries)@) != facts_of(old(entries)@) ==> all_heights(
            facts_of(final(entries)@),
        ) < all_heights(facts_of(old(entries)@)),
{
    let ghost before = Analysis { entries: facts_of(entries@), exits: facts_of(exits@) };
    let ghost blocks = function@.blocks;
    let ghost names = function@.names.len();
    let ghost held = entries@;
    let mut changed: bool = false;
    assert(before.entries[b as int] == entries@[b as int]@);
    let mut entry: Vec<Option<Known>> = copied_facts(&entries[b]);
    let mut i: usize = 0;
    while i < into.len()
        invariant
            i <= into@.len(),
            b < blocks.len(),
            before.exits == facts_of(exits@),
            speaks_of(before, blocks.len(), names),
            forall|k: int| 0 <= k < into@.len() ==> (#[trigger] into@[k]).0 < blocks.len(),
            entry@.len() == names,
            entry@ == gathered(before.entries[b as int], before.exits, into@, i as int),
            heights(entry@) <= heights(before.entries[b as int]),
            changed ==> heights(entry@) < heights(before.entries[b as int]),
            changed == (entry@ != before.entries[b as int]),
        decreases into@.len() - i,
    {
        let p: usize = into[i].0 as usize;
        assert(before.exits[p as int] == exits@[p as int]@);
        assert(before.exits[p as int].len() == names);
        if meet_into(&mut entry, &exits[p]) {
            changed = true;
        }
        i = i + 1;
    }
    let mut leaving: Vec<Option<Known>> = copied_facts(&entry);
    assert(blocks[b as int] == function.blocks@[b as int]@);
    assert(block_within(blocks[b as int], names, blocks.len()));
    transfer(&mut leaving, &function.blocks[b], Ghost(blocks.len()));
    assert(before.exits[b as int] == exits@[b as int]@);
    assert(before.exits[b as int].len() == names);
    let ghost entry_facts = entry@;
    let ghost leaving_facts = leaving@;
    if !same(&leaving, &exits[b]) {
        changed = true;
    }
    entries.set(b, entry);
    exits.set(b, leaving);
    proof {
        let after = Analysis { entries: facts_of(entries@), exits: facts_of(exits@) };
        assert(after.entries =~= before.entries.update(b as int, entry_facts));
        assert(after.exits =~= before.exits.update(b as int, leaving_facts));
        assert(after =~= block_analysed(blocks, before, b as int));
        all_heights_after(before.entries, b as int, entry_facts);
        if entry_facts == before.entries[b as int] {
            assert(after.entries =~= before.entries);
        } else {
            assert(after.entries[b as int] != before.entries[b as int]);
        }
        if leaving_facts == before.exits[b as int] {
            assert(after.exits =~= before.exits);
        } else {
            assert(after.exits[b as int] != before.exits[b as int]);
        }
    }
    changed
}

/// The forward dataflow: what is known on entry to each block.
///
/// Every block starts knowing nothing at all rather than knowing everything is
/// unknown, which is what makes a loop answerable: the back edge says nothing
/// on the first round and contributes properly once the body has been walked.
/// The lattice is three deep, so the rounds run out.
pub fn analyse(function: &Function) -> (entries: Vec<Vec<Option<Known>>>)
    requires
        well_formed(function@),
    ensures
        settled(function@, analysed(function@)),
        speaks_of(analysed(function@), function.blocks@.len(), function@.names.len()),
        facts_of(entries@) == analysed(function@).entries,
{
    let ghost view = function@;
    let ghost blocks = view.blocks;
    let ghost names = view.names.len();
    let count: usize = function.blocks.len();
    let next: Vec<Vec<usize>> = successor_lists(&function.blocks);
    proof {
        flow_is_closed(view);
        assert(edges(next@).len() == next@.len());
    }
    let into: Vec<Vec<BlockId>> = predecessors(&next);
    let mut entries: Vec<Vec<Option<Known>>> = blank_facts(count, function.vreg_count());
    let mut exits: Vec<Vec<Option<Known>>> = blank_facts(count, function.vreg_count());
    let ghost mut n: nat = 0;
    let ghost mut first: bool = true;
    let mut changed: bool = true;
    while changed
        invariant
            well_formed(view),
            view == function@,
            blocks == view.blocks,
            names == view.names.len(),
            count == blocks.len(),
            into@.len() == count,
            edges(next@) == flow(blocks),
            next@.len() == count,
            forall|b: int|
                0 <= b < count ==> (#[trigger] into@[b])@ == predecessors_before(
                    edges(next@),
                    b,
                    next@.len() as int,
                ),
            (Analysis { entries: facts_of(entries@), exits: facts_of(exits@) }) == rounds(view, n),
            speaks_of(
                (Analysis { entries: facts_of(entries@), exits: facts_of(exits@) }),
                count as nat,
                names,
            ),
            !first ==> in_step(
                blocks,
                (Analysis { entries: facts_of(entries@), exits: facts_of(exits@) }),
                count as int,
            ),
            !changed ==> round(blocks, rounds(view, n)) == rounds(view, n),
        decreases all_heights(facts_of(entries@)), first as int, changed as int,
    {
        let ghost start = Analysis { entries: facts_of(entries@), exits: facts_of(exits@) };
        let ghost was_first = first;
        changed = false;
        // Forward order, so a block usually sees its predecessors' answers on
        // the same round rather than the next one.
        let mut b: usize = 0;
        while b < count
            invariant
                b <= count,
                well_formed(view),
                view == function@,
                blocks == view.blocks,
                names == view.names.len(),
                count == blocks.len() == function.blocks@.len(),
                into@.len() == count,
                edges(next@) == flow(blocks),
                next@.len() == count,
                forall|b: int|
                    0 <= b < count ==> (#[trigger] into@[b])@ == predecessors_before(
                        edges(next@),
                        b,
                        next@.len() as int,
                    ),
                speaks_of(start, count as nat, names),
                speaks_of(
                    (Analysis { entries: facts_of(entries@), exits: facts_of(exits@) }),
                    count as nat,
                    names,
                ),
                (Analysis { entries: facts_of(entries@), exits: facts_of(exits@) })
                    == round_before(blocks, start, b as int),
                changed == ((Analysis { entries: facts_of(entries@), exits: facts_of(exits@) })
                    != start),
                forall|k: int|
                    b <= k < count ==> #[trigger] facts_of(entries@)[k] == start.entries[k],
                forall|k: int|
                    b <= k < count ==> #[trigger] facts_of(exits@)[k] == start.exits[k],
                in_step(
                    blocks,
                    (Analysis { entries: facts_of(entries@), exits: facts_of(exits@) }),
                    b as int,
                ),
                !was_first ==> in_step(
                    blocks,
                    (Analysis { entries: facts_of(entries@), exits: facts_of(exits@) }),
                    count as int,
                ),
                !was_first ==> in_step(blocks, start, count as int),
                all_heights(facts_of(entries@)) <= all_heights(start.entries),
                facts_of(entries@) != start.entries ==> all_heights(facts_of(entries@))
                    < all_heights(start.entries),
            decreases count - b,
        {
            let ghost before = Analysis { entries: facts_of(entries@), exits: facts_of(exits@) };
            proof {
                predecessors_are(flow(blocks), b as int, blocks.len() as int);
            }
            if look_again(function, b, &into[b], &mut entries, &mut exits) {
                changed = true;
            }
            proof {
                let now = Analysis { entries: facts_of(entries@), exits: facts_of(exits@) };
                let entry = entry_of(blocks, before, b as int);
                assert(now == block_analysed(blocks, before, b as int));
                // Each block is looked at once a round, so what changed stays
                // changed.
                if now != before {
                    assert(now.entries[b as int] != before.entries[b as int]
                        || now.exits[b as int] != before.exits[b as int]) by {
                        if now.entries[b as int] == before.entries[b as int]
                            && now.exits[b as int] == before.exits[b as int] {
                            assert(now.entries =~= before.entries);
                            assert(now.exits =~= before.exits);
                        }
                    }
                    assert(before.entries[b as int] == start.entries[b as int]);
                    assert(before.exits[b as int] == start.exits[b as int]);
                }
                if before != start {
                    assert(exists|k: int|
                        0 <= k < b && (before.entries[k] != start.entries[k] || before.exits[k]
                            != start.exits[k])) by {
                        if forall|k: int|
                            0 <= k < b ==> before.entries[k] == start.entries[k]
                                && before.exits[k] == start.exits[k] {
                            assert(before.entries =~= start.entries);
                            assert(before.exits =~= start.exits);
                        }
                    }
                    let k = choose|k: int|
                        0 <= k < b && (before.entries[k] != start.entries[k] || before.exits[k]
                            != start.exits[k]);
                    assert(now.entries[k] == before.entries[k] && now.exits[k] == before.exits[k]);
                }
                assert(in_step(blocks, now, b + 1)) by {
                    assert forall|k: int| 0 <= k < b + 1 implies #[trigger] now.exits[k]
                        == block_transferred(now.entries[k], blocks[k]) by {
                        if k < b {
                            assert(before.exits[k] == block_transferred(
                                before.entries[k],
                                blocks[k],
                            ));
                        }
                    }
                }
                if !was_first {
                    assert forall|k: int| 0 <= k < count implies #[trigger] now.exits[k]
                        == block_transferred(now.entries[k], blocks[k]) by {
                        if k != b {
                            assert(before.exits[k] == block_transferred(
                                before.entries[k],
                                blocks[k],
                            ));
                        }
                    }
                }
            }
            b = b + 1;
        }
        proof {
            n = n + 1;
            first = false;
            if changed && !was_first {
                let now = Analysis { entries: facts_of(entries@), exits: facts_of(exits@) };
                if now.entries == start.entries {
                    assert forall|k: int| 0 <= k < count implies now.exits[k] == start.exits[k] by {
                        assert(now.exits[k] == block_transferred(now.entries[k], blocks[k]));
                        assert(start.exits[k] == block_transferred(start.entries[k], blocks[k]));
                    }
                    assert(now.exits =~= start.exits);
                }
            }
        }
    }
    proof {
        let at = Analysis { entries: facts_of(entries@), exits: facts_of(exits@) };
        assert(at == rounds(view, n));
        assert(settled(view, at));
        analysed_is(view, at);
    }
    entries
}

} // verus!
