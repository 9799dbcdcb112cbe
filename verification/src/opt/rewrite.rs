//! Putting what is known in place of what held it.

use vstd::prelude::*;

use super::facts::{
    analyse, analysed, copied_facts, evaluate, evaluated, facts_of, known, known_of, settled,
    speaks_of, Facts, Known,
};
use crate::graph::raised_before;
use crate::ir::block::{
    block_views, instr_views, prune_unreachable, pruned, pruned_position, pruned_up_to, reached,
    reached_flags, renumbered, renumbered_target, Block, BlockView, TargetView, TermView,
    Terminator,
};
use crate::ir::func::{
    block_within, position_taken, pruning_keeps_well_formed, successor_kept, well_formed, Function,
    FunctionView,
};
use crate::ir::instr::{instr_within, Instr, InstrView};
use crate::ir::ssa::form::arities_agree;
use crate::ir::value::{registers, value_within, VReg, Value};

verus! {

/// An operand, or what it is known to be.
pub open spec fn folded_value(value: Value, facts: Facts) -> Value {
    match known_of(value, facts) {
        Known::Const(c) => Value::Const(c),
        Known::Unknown => value,
    }
}

/// The index of an element, or what it is known to be. One known to be out of
/// the range of a known length is left as the register it was: two constants
/// carry no bounds check, and nobody proved that this one is in range.
pub open spec fn folded_index(index: Value, len: Value, facts: Facts) -> Value {
    match (index, known_of(index, facts)) {
        (Value::Reg(_), Known::Const(at)) => match len {
            Value::Const(elements) => if 0 <= at < elements {
                Value::Const(at)
            } else {
                index
            },
            Value::Reg(_) => Value::Const(at),
        },
        _ => index,
    }
}

/// The operands of an instruction, or what they are known to be.
pub open spec fn folded_operands(instr: InstrView, facts: Facts) -> Seq<Value> {
    match instr {
        InstrView::Elem { base, index, len, .. } => {
            let elements = folded_value(len, facts);
            seq![folded_value(base, facts), folded_index(index, elements, facts), elements]
        },
        _ => instr.operands().map_values(|value: Value| folded_value(value, facts)),
    }
}

/// An instruction with known constants in place of the registers holding them.
pub open spec fn substituted(instr: InstrView, facts: Facts) -> InstrView {
    instr.with_operands(folded_operands(instr, facts))
}

/// An instruction, or its answer where that is known, and what is known after
/// it.
pub open spec fn rewritten_instr(instr: InstrView, facts: Facts) -> (InstrView, Facts) {
    let with = substituted(instr, facts);
    match with.written() {
        Some(dst) => {
            let what = evaluated(with, facts);
            let after = facts.update(dst.0 as int, Some(what));
            match what {
                Known::Const(val) => (InstrView::Const { dst, val }, after),
                Known::Unknown => (with, after),
            }
        },
        None => (with, facts),
    }
}

/// The first `n` instructions of a block, rewritten, and what is known after
/// them.
pub open spec fn rewritten_instrs(facts: Facts, instrs: Seq<InstrView>, n: int) -> (
    Seq<InstrView>,
    Facts,
)
    decreases n,
{
    if n <= 0 {
        (seq![], facts)
    } else {
        let (done, at) = rewritten_instrs(facts, instrs, n - 1);
        let (instr, after) = rewritten_instr(instrs[n - 1], at);
        (done.push(instr), after)
    }
}

/// An ending with what it reads replaced where that is known. A condition
/// settled here is not a choice any more.
pub open spec fn rewritten_term(term: TermView, facts: Facts) -> TermView {
    match term {
        TermView::Branch { cond, then_blk, else_blk } => match folded_value(cond, facts) {
            Value::Const(c) => TermView::Jump(
                if c != 0 {
                    then_blk
                } else {
                    else_blk
                },
            ),
            Value::Reg(_) => term,
        },
        TermView::Return(Some(value)) => TermView::Return(Some(folded_value(value, facts))),
        _ => term,
    }
}

pub open spec fn rewritten_block(block: BlockView, facts: Facts) -> BlockView {
    let (instrs, after) = rewritten_instrs(facts, block.instrs, block.instrs.len() as int);
    BlockView { instrs, term: rewritten_term(block.term, after), ..block }
}

/// Every block rewritten with what is known on entry to it.
pub open spec fn rewritten(blocks: Seq<BlockView>, entries: Seq<Facts>) -> Seq<BlockView> {
    Seq::new(blocks.len(), |b: int| rewritten_block(blocks[b], entries[b]))
}

/// A function with what is known in place of what held it.
pub open spec fn known_replaced(function: FunctionView) -> FunctionView {
    FunctionView {
        blocks: rewritten(function.blocks, analysed(function).entries),
        ..function
    }
}

/// A function with what is constant worked out, what that settles rewritten,
/// and what became unreachable gone.
pub open spec fn propagated(function: FunctionView) -> FunctionView {
    FunctionView { blocks: pruned(known_replaced(function).blocks), ..function }
}

/// Whether that changes anything.
pub open spec fn propagation_changes(function: FunctionView) -> bool {
    ||| known_replaced(function).blocks != function.blocks
    ||| propagated(function).blocks.len() != function.blocks.len()
}

// -- how much there is still to do ------------------------------------------

/// How often an instruction can still change: once for every register it reads,
/// and once more where it is not a constant yet.
pub open spec fn instr_weight(instr: InstrView) -> nat {
    registers(instr.operands()).len() + if instr is Const {
        0nat
    } else {
        1nat
    }
}

pub open spec fn term_weight(term: TermView) -> nat {
    registers(term.head()).len() + if term is Branch {
        1nat
    } else {
        0nat
    }
}

pub open spec fn instrs_weight(instrs: Seq<InstrView>) -> nat
    decreases instrs.len(),
{
    if instrs.len() == 0 {
        0
    } else {
        instrs_weight(instrs.drop_last()) + instr_weight(instrs.last())
    }
}

pub open spec fn block_weight(block: BlockView) -> nat {
    1 + instrs_weight(block.instrs) + term_weight(block.term)
}

/// How often the blocks of a function can still change.
pub open spec fn weight(blocks: Seq<BlockView>) -> nat
    decreases blocks.len(),
{
    if blocks.len() == 0 {
        0
    } else {
        weight(blocks.drop_last()) + block_weight(blocks.last())
    }
}

proof fn folding_lowers(before: Seq<Value>, after: Seq<Value>)
    requires
        before.len() == after.len(),
        forall|i: int|
            0 <= i < before.len() ==> #[trigger] after[i] == before[i] || (before[i] is Reg
                && after[i] is Const),
    ensures
        registers(after).len() <= registers(before).len(),
        before != after ==> registers(after).len() < registers(before).len(),
    decreases before.len(),
{
    if before.len() > 0 {
        let a = before.drop_last();
        let b = after.drop_last();
        folding_lowers(a, b);
        assert(after[before.len() - 1] == before[before.len() - 1] || (before[before.len() - 1] is Reg
            && after[before.len() - 1] is Const));
        if before != after && a == b {
            assert(before =~= a.push(before.last()));
            assert(after =~= b.push(after.last()));
        }
    } else {
        assert(before =~= after);
    }
}

/// Folding gives each operand a constant for a register, or leaves it.
proof fn operands_folded(instr: InstrView, facts: Facts)
    ensures
        folded_operands(instr, facts).len() == instr.operands().len(),
        forall|i: int|
            0 <= i < instr.operands().len() ==> #[trigger] folded_operands(instr, facts)[i]
                == instr.operands()[i] || (instr.operands()[i] is Reg && folded_operands(
                instr,
                facts,
            )[i] is Const),
        substituted(instr, facts).operands() == folded_operands(instr, facts),
        substituted(instr, facts).written() == instr.written(),
        substituted(instr, facts) is Const == instr is Const,
        folded_operands(instr, facts) == instr.operands() ==> substituted(instr, facts) == instr,
{
    let operands = folded_operands(instr, facts);
    let with = instr.with_operands(operands);
    assert(with.operands() =~= operands);
    assert(instr.with_operands(instr.operands()) =~= instr);
}

proof fn instr_lowers(instr: InstrView, facts: Facts)
    ensures
        instr_weight(rewritten_instr(instr, facts).0) <= instr_weight(instr),
        rewritten_instr(instr, facts).0 != instr ==> instr_weight(rewritten_instr(instr, facts).0)
            < instr_weight(instr),
        rewritten_instr(instr, facts).0.written() == instr.written(),
{
    operands_folded(instr, facts);
    folding_lowers(instr.operands(), folded_operands(instr, facts));
    let after = rewritten_instr(instr, facts).0;
    if after is Const {
        assert(after.operands() =~= seq![]);
        if instr is Const {
            assert(substituted(instr, facts) =~= instr);
        }
    }
}

proof fn instrs_lower(facts: Facts, instrs: Seq<InstrView>, n: int)
    requires
        0 <= n <= instrs.len(),
    ensures
        rewritten_instrs(facts, instrs, n).0.len() == n,
        instrs_weight(rewritten_instrs(facts, instrs, n).0) <= instrs_weight(instrs.take(n)),
        rewritten_instrs(facts, instrs, n).0 != instrs.take(n) ==> instrs_weight(
            rewritten_instrs(facts, instrs, n).0,
        ) < instrs_weight(instrs.take(n)),
    decreases n,
{
    if n > 0 {
        instrs_lower(facts, instrs, n - 1);
        let (before, at) = rewritten_instrs(facts, instrs, n - 1);
        let after = rewritten_instrs(facts, instrs, n).0;
        instr_lowers(instrs[n - 1], at);
        assert(after.drop_last() =~= before);
        assert(instrs.take(n).drop_last() =~= instrs.take(n - 1));
        if after != instrs.take(n) && before == instrs.take(n - 1) && after.last() == instrs[n
            - 1] {
            assert(after =~= instrs.take(n));
        }
    } else {
        assert(instrs.take(0) =~= seq![]);
    }
}

proof fn term_lowers(term: TermView, facts: Facts)
    ensures
        term_weight(rewritten_term(term, facts)) <= term_weight(term),
        rewritten_term(term, facts) != term ==> term_weight(rewritten_term(term, facts))
            < term_weight(term),
{
    let after = rewritten_term(term, facts);
    match term {
        TermView::Branch { cond, .. } => {
            reveal_with_fuel(registers, 2);
            assert(registers(seq![]).len() == 0);
        },
        TermView::Return(Some(value)) => {
            reveal_with_fuel(registers, 2);
            assert(after.head() =~= seq![folded_value(value, facts)]);
            assert(after.head().drop_last() =~= seq![]);
            assert(term.head().drop_last() =~= seq![]);
        },
        _ => {},
    }
}

proof fn block_lowers(block: BlockView, facts: Facts)
    ensures
        block_weight(rewritten_block(block, facts)) <= block_weight(block),
        rewritten_block(block, facts) != block ==> block_weight(rewritten_block(block, facts))
            < block_weight(block),
{
    let n = block.instrs.len() as int;
    instrs_lower(facts, block.instrs, n);
    assert(block.instrs.take(n) =~= block.instrs);
    term_lowers(block.term, rewritten_instrs(facts, block.instrs, n).1);
    let after = rewritten_block(block, facts);
    if after.instrs == block.instrs && after.term == block.term {
        assert(after =~= block);
    }
}

proof fn blocks_lower(blocks: Seq<BlockView>, entries: Seq<Facts>, n: int)
    requires
        0 <= n <= blocks.len(),
    ensures
        weight(rewritten(blocks, entries).take(n)) <= weight(blocks.take(n)),
        rewritten(blocks, entries).take(n) != blocks.take(n) ==> weight(
            rewritten(blocks, entries).take(n),
        ) < weight(blocks.take(n)),
    decreases n,
{
    let all = rewritten(blocks, entries);
    if n > 0 {
        blocks_lower(blocks, entries, n - 1);
        block_lowers(blocks[n - 1], entries[n - 1]);
        assert(all.take(n).drop_last() =~= all.take(n - 1));
        assert(blocks.take(n).drop_last() =~= blocks.take(n - 1));
        if all.take(n - 1) == blocks.take(n - 1) && all[n - 1] == blocks[n - 1] {
            assert(all.take(n) =~= all.take(n - 1).push(all[n - 1]));
            assert(blocks.take(n) =~= blocks.take(n - 1).push(blocks[n - 1]));
        }
    } else {
        assert(all.take(0) =~= blocks.take(0));
    }
}

/// A block weighs what it weighed once it is renumbered.
proof fn renumbering_weighs_nothing(blocks: Seq<BlockView>, at: int)
    ensures
        block_weight(renumbered(blocks, at)) == block_weight(blocks[at]),
{
    let before = blocks[at].term;
    let after = renumbered(blocks, at).term;
    assert(after.head() =~= before.head());
}

proof fn pruning_lowers(blocks: Seq<BlockView>, n: int)
    requires
        0 <= n <= blocks.len(),
    ensures
        pruned_up_to(blocks, n).len() <= n,
        weight(pruned_up_to(blocks, n)) + (n - pruned_up_to(blocks, n).len()) <= weight(
            blocks.take(n),
        ),
    decreases n,
{
    if n > 0 {
        pruning_lowers(blocks, n - 1);
        renumbering_weighs_nothing(blocks, n - 1);
        assert(blocks.take(n).drop_last() =~= blocks.take(n - 1));
        if reached(blocks, n - 1) {
            assert(pruned_up_to(blocks, n).drop_last() =~= pruned_up_to(blocks, n - 1));
        }
    }
}

/// Each round that changes anything leaves less to change, so the rounds run
/// out of things to do.
pub proof fn propagation_runs_out(function: FunctionView)
    ensures
        weight(propagated(function).blocks) <= weight(function.blocks),
        propagation_changes(function) ==> weight(propagated(function).blocks) < weight(
            function.blocks,
        ),
{
    let blocks = function.blocks;
    let n = blocks.len() as int;
    let entries = analysed(function).entries;
    let all = rewritten(blocks, entries);
    blocks_lower(blocks, entries, n);
    assert(all.take(n) =~= all);
    assert(blocks.take(n) =~= blocks);
    pruning_lowers(all, n);
}

// -- what rewriting keeps ---------------------------------------------------

proof fn instr_rewritten_within(instr: InstrView, facts: Facts, count: nat)
    requires
        instr_within(instr, count),
    ensures
        instr_within(rewritten_instr(instr, facts).0, count),
{
    operands_folded(instr, facts);
    let with = substituted(instr, facts);
    let after = rewritten_instr(instr, facts).0;
    assert forall|i: int| 0 <= i < with.operands().len() implies value_within(
        #[trigger] with.operands()[i],
        count,
    ) by {
        assert(value_within(instr.operands()[i], count));
        assert(folded_operands(instr, facts)[i] == instr.operands()[i] || folded_operands(
            instr,
            facts,
        )[i] is Const);
    }
}

proof fn instrs_rewritten_within(facts: Facts, instrs: Seq<InstrView>, n: int, count: nat)
    requires
        0 <= n <= instrs.len(),
        facts.len() == count,
        forall|k: int| 0 <= k < instrs.len() ==> instr_within(#[trigger] instrs[k], count),
    ensures
        rewritten_instrs(facts, instrs, n).0.len() == n,
        rewritten_instrs(facts, instrs, n).1.len() == count,
        forall|k: int|
            0 <= k < n ==> instr_within(
                #[trigger] rewritten_instrs(facts, instrs, n).0[k],
                count,
            ),
    decreases n,
{
    if n > 0 {
        instrs_rewritten_within(facts, instrs, n - 1, count);
        let (before, at) = rewritten_instrs(facts, instrs, n - 1);
        let after = rewritten_instrs(facts, instrs, n).0;
        instr_rewritten_within(instrs[n - 1], at, count);
        assert forall|k: int| 0 <= k < n implies instr_within(#[trigger] after[k], count) by {
            if k < n - 1 {
                assert(after[k] == before[k]);
            }
        }
    }
}

/// The targets of a rewritten ending are targets it had.
proof fn term_rewritten(term: TermView, facts: Facts)
    ensures
        forall|i: int|
            0 <= i < rewritten_term(term, facts).targets().len() ==> term.targets().contains(
                #[trigger] rewritten_term(term, facts).targets()[i],
            ),
{
    let after = rewritten_term(term, facts);
    assert forall|i: int| 0 <= i < after.targets().len() implies term.targets().contains(
        #[trigger] after.targets()[i],
    ) by {
        match term {
            TermView::Branch { then_blk, else_blk, .. } => {
                assert(term.targets()[0] == then_blk && term.targets()[1] == else_blk);
                if after is Jump {
                    assert(after.targets()[i] == then_blk || after.targets()[i] == else_blk);
                }
            },
            _ => {
                assert(after.targets()[i] == term.targets()[i]);
            },
        }
    }
}

proof fn block_rewritten_within(block: BlockView, facts: Facts, count: nat, blocks: nat)
    requires
        block_within(block, count, blocks),
        facts.len() == count,
    ensures
        block_within(rewritten_block(block, facts), count, blocks),
{
    let n = block.instrs.len() as int;
    instrs_rewritten_within(facts, block.instrs, n, count);
    let at = rewritten_instrs(facts, block.instrs, n).1;
    let after = rewritten_block(block, facts);
    term_rewritten(block.term, at);
    assert forall|i: int| 0 <= i < after.term.targets().len() implies (
    #[trigger] after.term.targets()[i]).block.0 < blocks by {
        assert(block.term.targets().contains(after.term.targets()[i]));
        let j = choose|j: int|
            0 <= j < block.term.targets().len() && block.term.targets()[j]
                == after.term.targets()[i];
        assert(block.term.targets()[j].block.0 < blocks);
    }
    assert forall|i: int| 0 <= i < after.term.operands().len() implies value_within(
        #[trigger] after.term.operands()[i],
        count,
    ) by {
        match block.term {
            TermView::Branch { cond, then_blk, else_blk } => {
                if let TermView::Jump(target) = after.term {
                    if target == then_blk {
                        assert(block.term.operands()[i + 1] == then_blk.args[i]);
                    } else {
                        assert(block.term.operands()[i + 1 + then_blk.args.len()]
                            == else_blk.args[i]);
                    }
                }
            },
            TermView::Return(Some(value)) => {
                assert(block.term.operands()[0] == value);
            },
            _ => {
                assert(after.term.operands()[i] == block.term.operands()[i]);
            },
        }
    }
}

/// Replacing what is known leaves everything named a thing there is, and every
/// edge handing what it handed.
pub proof fn replacing_keeps_well_formed(function: FunctionView)
    requires
        well_formed(function),
        speaks_of(analysed(function), function.blocks.len(), function.names.len()),
    ensures
        well_formed(known_replaced(function)),
        arities_agree(function.blocks) ==> arities_agree(known_replaced(function).blocks),
{
    let after = known_replaced(function);
    let entries = analysed(function).entries;
    assert forall|b: int| 0 <= b < after.blocks.len() implies block_within(
        #[trigger] after.blocks[b],
        after.names.len(),
        after.blocks.len(),
    ) && after.blocks[b].index == b by {
        assert(block_within(function.blocks[b], function.names.len(), function.blocks.len()));
        assert(entries[b].len() == function.names.len());
        block_rewritten_within(
            function.blocks[b],
            entries[b],
            function.names.len(),
            function.blocks.len(),
        );
        assert(function.blocks[b].index == b);
    }
    if arities_agree(function.blocks) {
        assert forall|b: int, i: int|
            #![trigger after.blocks[b].term.targets()[i]]
            0 <= b < after.blocks.len() && 0 <= i
                < after.blocks[b].term.targets().len() implies after.blocks[b].term.targets()[i].args.len()
            == after.blocks[after.blocks[b].term.targets()[i].block.0 as int].params.len() by {
            let block = function.blocks[b];
            let at = rewritten_instrs(entries[b], block.instrs, block.instrs.len() as int).1;
            term_rewritten(block.term, at);
            assert(after.blocks[b].term == rewritten_term(block.term, at));
            assert(block.term.targets().contains(after.blocks[b].term.targets()[i]));
            let j = choose|j: int|
                0 <= j < block.term.targets().len() && block.term.targets()[j]
                    == after.blocks[b].term.targets()[i];
            assert(block_within(block, function.names.len(), function.blocks.len()));
            assert(block.term.targets()[j].block.0 < function.blocks.len());
            assert(function.blocks[b].term.targets()[j].args.len()
                == function.blocks[block.term.targets()[j].block.0 as int].params.len());
        }
    }
}

/// Pruning leaves every edge handing its block what it handed it.
pub proof fn pruning_keeps_arities(function: FunctionView)
    requires
        well_formed(function),
        arities_agree(function.blocks),
    ensures
        arities_agree(pruned(function.blocks)),
{
    let blocks = function.blocks;
    let kept = pruned(blocks);
    let flags = reached_flags(blocks);
    let n = blocks.len() as int;
    pruning_keeps_well_formed(function);
    assert forall|k: int, i: int|
        #![trigger kept[k].term.targets()[i]]
        0 <= k < kept.len() && 0 <= i < kept[k].term.targets().len() implies kept[k].term.targets()[i].args.len()
        == kept[kept[k].term.targets()[i].block.0 as int].params.len() by {
        let at = position_taken(blocks, n, k);
        let term = blocks[at].term;
        let targets = term.targets().map_values(
            |target: TargetView| renumbered_target(target, flags),
        );
        assert(kept[k].term.targets() =~= targets);
        successor_kept(blocks, at, i);
        let to = term.targets()[i].block.0 as int;
        pruned_position(blocks, n, to);
        assert(raised_before(flags, to) <= u32::MAX);
        assert(kept[raised_before(flags, to) as int] == renumbered(blocks, to));
        assert(blocks[at].term.targets()[i].args.len() == blocks[to].params.len());
    }
}

// -- doing it ---------------------------------------------------------------

/// An operand, or what it is known to be.
fn fold_value(value: Value, facts: &Vec<Option<Known>>) -> (folded: Value)
    requires
        value_within(value, facts@.len()),
    ensures
        folded == folded_value(value, facts@),
{
    match known(value, facts) {
        Known::Const(c) => Value::Const(c),
        Known::Unknown => value,
    }
}

fn fold_values(values: &Vec<Value>, facts: &Vec<Option<Known>>) -> (folded: Vec<Value>)
    requires
        forall|i: int|
            0 <= i < values@.len() ==> value_within(#[trigger] values@[i], facts@.len()),
    ensures
        folded@ == values@.map_values(|value: Value| folded_value(value, facts@)),
{
    let mut folded: Vec<Value> = Vec::new();
    let mut i: usize = 0;
    while i < values.len()
        invariant
            i <= values@.len(),
            forall|i: int|
                0 <= i < values@.len() ==> value_within(#[trigger] values@[i], facts@.len()),
            folded@.len() == i,
            forall|k: int|
                0 <= k < i ==> #[trigger] folded@[k] == folded_value(values@[k], facts@),
        decreases values@.len() - i,
    {
        assert(value_within(values@[i as int], facts@.len()));
        folded.push(fold_value(values[i], facts));
        i = i + 1;
    }
    assert(folded@ =~= values@.map_values(|value: Value| folded_value(value, facts@)));
    folded
}

/// Whether two runs of operands are the same.
fn same_values(a: &Vec<Value>, b: &Vec<Value>) -> (same: bool)
    requires
        a@.len() == b@.len(),
    ensures
        same == (a@ == b@),
{
    let mut i: usize = 0;
    while i < a.len()
        invariant
            i <= a@.len() == b@.len(),
            forall|k: int| 0 <= k < i ==> a@[k] == b@[k],
        decreases a@.len() - i,
    {
        if a[i] != b[i] {
            return false;
        }
        i = i + 1;
    }
    assert(a@ =~= b@);
    true
}

/// Put known constants in place of the registers holding them.
///
/// ## The index that is deliberately left alone
///
/// An [`Instr::Elem`] whose index *and* length are both constants carries no
/// bounds check: it was settled while the program was being checked, so there is
/// nothing left to ask. That bargain holds for an index written as a literal. It
/// does not hold for one this pass worked out — nobody proved it is in range,
/// and substituting it would delete the very check that catches it.
///
/// ```text
/// int i = 5;  int[3] xs = [1, 2, 3];  println(xs[i]);
/// ```
///
/// So an index known to be out of range is left as the register it was. The
/// program stops at exactly the place and with exactly the message it would
/// have without this pass.
fn substitute(instr: &mut Instr, facts: &Vec<Option<Known>>) -> (changed: bool)
    requires
        instr_within(old(instr)@, facts@.len()),
    ensures
        final(instr)@ == substituted(old(instr)@, facts@),
        changed == (final(instr)@ != old(instr)@),
{
    let ghost before = instr@;
    let values: Vec<Value> = instr.values();
    let folded: Vec<Value> = match instr {
        Instr::Elem { base, index, len, .. } => {
            assert(before.operands() =~= seq![*base, *index, *len]);
            assert(value_within(before.operands()[0], facts@.len()));
            assert(value_within(before.operands()[1], facts@.len()));
            assert(value_within(before.operands()[2], facts@.len()));
            let elements: Value = fold_value(*len, facts);
            let at: Value = match (*index, known(*index, facts)) {
                (Value::Reg(_), Known::Const(at)) => match elements {
                    Value::Const(count) => if 0 <= at && at < count {
                        Value::Const(at)
                    } else {
                        *index
                    },
                    // A string's or a list's length is never known here, so the
                    // check is emitted either way and the index may as well be
                    // spelled out.
                    Value::Reg(_) => Value::Const(at),
                },
                _ => *index,
            };
            vec![fold_value(*base, facts), at, elements]
        },
        _ => fold_values(&values, facts),
    };
    proof {
        assert(folded@ =~= folded_operands(before, facts@));
        operands_folded(before, facts@);
    }
    let same: bool = same_values(&values, &folded);
    instr.values_mut(folded);
    !same
}

/// Rewrite the instructions of a block. Answers whether anything changed.
fn rewrite_instrs(instrs: &mut Vec<Instr>, facts: &mut Vec<Option<Known>>) -> (changed: bool)
    requires
        forall|k: int|
            0 <= k < old(instrs)@.len() ==> instr_within(
                #[trigger] instr_views(old(instrs)@)[k],
                old(facts)@.len(),
            ),
    ensures
        final(facts)@.len() == old(facts)@.len(),
        (instr_views(final(instrs)@), final(facts)@) == rewritten_instrs(
            old(facts)@,
            instr_views(old(instrs)@),
            old(instrs)@.len() as int,
        ),
        changed == (instr_views(final(instrs)@) != instr_views(old(instrs)@)),
{
    let ghost start = facts@;
    let ghost views = instr_views(instrs@);
    let count: usize = instrs.len();
    let mut changed: bool = false;
    let mut k: usize = 0;
    while k < count
        invariant
            k <= count == instrs@.len(),
            views.len() == count,
            facts@.len() == start.len(),
            forall|k: int| 0 <= k < count ==> instr_within(#[trigger] views[k], start.len()),
            facts@ == rewritten_instrs(start, views, k as int).1,
            rewritten_instrs(start, views, k as int).0.len() == k,
            forall|j: int|
                0 <= j < k ==> (#[trigger] instrs@[j])@ == rewritten_instrs(
                    start,
                    views,
                    k as int,
                ).0[j],
            forall|j: int| k <= j < count ==> (#[trigger] instrs@[j])@ == views[j],
            changed == exists|j: int| 0 <= j < k && (#[trigger] instrs@[j])@ != views[j],
        decreases count - k,
    {
        let ghost before = instrs@;
        let ghost at = facts@;
        let ghost changed_so_far = changed;
        assert(before[k as int]@ == views[k as int]);
        assert(instr_within(views[k as int], start.len()));
        proof {
            operands_folded(views[k as int], at);
            instr_rewritten_within(views[k as int], at, start.len());
            substituted_within(views[k as int], at, start.len());
        }
        if substitute(&mut instrs[k], facts) {
            changed = true;
        }
        let ghost with = instrs@[k as int]@;
        let value: Known = evaluate(&instrs[k], facts);
        let defined: Option<VReg> = instrs[k].def();
        if let Some(dst) = defined {
            // An instruction whose answer is known *is* its answer. Only reached
            // when the fold succeeded, so nothing that could have stopped the
            // program is replaced by something that cannot.
            let settled: bool = match &instrs[k] {
                Instr::Const { .. } => true,
                _ => false,
            };
            if let Known::Const(val) = value {
                if !settled {
                    instrs.set(k, Instr::Const { dst, val });
                    changed = true;
                }
            }
            facts.set(dst.0 as usize, Some(value));
        }
        proof {
            let now = instrs@[k as int]@;
            assert(now == rewritten_instr(views[k as int], at).0);
            assert(changed == (changed_so_far || now != views[k as int]));
            assert forall|j: int| 0 <= j < k + 1 implies (#[trigger] instrs@[j])@
                == rewritten_instrs(start, views, k + 1).0[j] by {
                if j < k {
                    assert(instrs@[j] == before[j]);
                }
            }
            assert forall|j: int| k + 1 <= j < count implies (#[trigger] instrs@[j])@
                == views[j] by {
                assert(instrs@[j] == before[j]);
            }
            if changed_so_far {
                let j = choose|j: int| 0 <= j < k && (#[trigger] before[j])@ != views[j];
                assert(instrs@[j]@ != views[j]);
            }
            if exists|j: int| 0 <= j < k + 1 && (#[trigger] instrs@[j])@ != views[j] {
                let j = choose|j: int| 0 <= j < k + 1 && (#[trigger] instrs@[j])@ != views[j];
                if j < k {
                    assert(before[j]@ != views[j]);
                }
            }
        }
        k = k + 1;
    }
    proof {
        assert(instr_views(instrs@) =~= rewritten_instrs(start, views, count as int).0);
        if changed {
            let j = choose|j: int| 0 <= j < count && (#[trigger] instrs@[j])@ != views[j];
            assert(instr_views(instrs@)[j] != views[j]);
        } else {
            assert(instr_views(instrs@) =~= views);
        }
    }
    changed
}

proof fn substituted_within(instr: InstrView, facts: Facts, count: nat)
    requires
        instr_within(instr, count),
    ensures
        instr_within(substituted(instr, facts), count),
{
    operands_folded(instr, facts);
    let with = substituted(instr, facts);
    assert forall|i: int| 0 <= i < with.operands().len() implies value_within(
        #[trigger] with.operands()[i],
        count,
    ) by {
        assert(value_within(instr.operands()[i], count));
        assert(folded_operands(instr, facts)[i] == instr.operands()[i] || folded_operands(
            instr,
            facts,
        )[i] is Const);
    }
}

/// Rewrite how a block ends. Answers whether anything changed.
fn rewrite_term(term: &mut Terminator, facts: &Vec<Option<Known>>) -> (changed: bool)
    requires
        forall|i: int|
            0 <= i < old(term)@.operands().len() ==> value_within(
                #[trigger] old(term)@.operands()[i],
                facts@.len(),
            ),
    ensures
        final(term)@ == rewritten_term(old(term)@, facts@),
        changed == (final(term)@ != old(term)@),
{
    let ghost before = term@;
    let settled: Option<i64> = match term {
        Terminator::Branch { cond, .. } => {
            assert(value_within(before.operands()[0], facts@.len()));
            match fold_value(*cond, facts) {
                Value::Const(c) => Some(c),
                Value::Reg(_) => None,
            }
        },
        Terminator::Return(Some(value)) => {
            assert(value_within(before.operands()[0], facts@.len()));
            let folded: Value = fold_value(*value, facts);
            let changed: bool = folded != *value;
            *value = folded;
            return changed;
        },
        _ => None,
    };
    match settled {
        None => false,
        // A condition settled here is not a choice any more.
        Some(c) => {
            let mut ended = Terminator::Return(None);
            std::mem::swap(&mut ended, term);
            match ended {
                Terminator::Branch { then_blk, else_blk, .. } => {
                    if c != 0 {
                        *term = Terminator::Jump(then_blk);
                    } else {
                        *term = Terminator::Jump(else_blk);
                    }
                },
                _ => {},
            }
            true
        },
    }
}

/// Replace what is known, and reduce what that makes reducible.
fn rewrite(function: &mut Function, entries: &Vec<Vec<Option<Known>>>) -> (changed: bool)
    requires
        well_formed(old(function)@),
        entries@.len() == old(function).blocks@.len(),
        forall|b: int|
            0 <= b < entries@.len() ==> (#[trigger] entries@[b])@.len() == old(
                function,
            )@.names.len(),
    ensures
        final(function)@ == (FunctionView {
            blocks: rewritten(old(function)@.blocks, facts_of(entries@)),
            ..old(function)@
        }),
        changed == (final(function)@.blocks != old(function)@.blocks),
{
    let ghost whole = function@;
    let ghost lists = facts_of(entries@);
    let ghost start = *function;
    let count: usize = function.blocks.len();
    let mut changed: bool = false;
    let mut b: usize = 0;
    while b < count
        invariant
            b <= count == function.blocks@.len(),
            whole.blocks.len() == count == entries@.len(),
            well_formed(whole),
            lists == facts_of(entries@),
            forall|b: int|
                0 <= b < entries@.len() ==> (#[trigger] entries@[b])@.len() == whole.names.len(),
            function.name == start.name,
            function.params == start.params,
            function.ret == start.ret,
            function.frame_bytes == start.frame_bytes,
            function.vreg_names == start.vreg_names,
            forall|k: int|
                0 <= k < b ==> (#[trigger] function.blocks@[k])@ == rewritten_block(
                    whole.blocks[k],
                    lists[k],
                ),
            forall|k: int|
                b <= k < count ==> (#[trigger] function.blocks@[k])@ == whole.blocks[k],
            changed == exists|k: int|
                0 <= k < b && (#[trigger] function.blocks@[k])@ != whole.blocks[k],
        decreases count - b,
    {
        let ghost before = function.blocks@;
        let ghost changed_so_far = changed;
        let ghost block = whole.blocks[b as int];
        assert(before[b as int]@ == block);
        assert(block_within(block, whole.names.len(), whole.blocks.len()));
        assert(lists[b as int] == entries@[b as int]@);
        let mut facts: Vec<Option<Known>> = copied_facts(&entries[b]);
        let instrs_changed: bool = rewrite_instrs(&mut function.blocks[b].instrs, &mut facts);
        let term_changed: bool = rewrite_term(&mut function.blocks[b].term, &facts);
        if instrs_changed || term_changed {
            changed = true;
        }
        proof {
            let now = function.blocks@[b as int]@;
            assert(now =~= rewritten_block(block, lists[b as int]));
            assert((now != block) == (instrs_changed || term_changed)) by {
                if now.instrs == block.instrs && now.term == block.term {
                    assert(now =~= block);
                }
            }
            assert forall|k: int| 0 <= k < b + 1 implies (#[trigger] function.blocks@[k])@
                == rewritten_block(whole.blocks[k], lists[k]) by {
                if k < b {
                    assert(function.blocks@[k] == before[k]);
                }
            }
            assert forall|k: int| b + 1 <= k < count implies (#[trigger] function.blocks@[k])@
                == whole.blocks[k] by {
                assert(function.blocks@[k] == before[k]);
            }
            if changed_so_far {
                let k = choose|k: int| 0 <= k < b && (#[trigger] before[k])@ != whole.blocks[k];
                assert(function.blocks@[k]@ != whole.blocks[k]);
            }
            if exists|k: int|
                0 <= k < b + 1 && (#[trigger] function.blocks@[k])@ != whole.blocks[k] {
                let k = choose|k: int|
                    0 <= k < b + 1 && (#[trigger] function.blocks@[k])@ != whole.blocks[k];
                if k < b {
                    assert(before[k]@ != whole.blocks[k]);
                }
            }
        }
        b = b + 1;
    }
    proof {
        assert(block_views(function.blocks@) =~= rewritten(whole.blocks, lists));
        if changed {
            let k = choose|k: int|
                0 <= k < count && (#[trigger] function.blocks@[k])@ != whole.blocks[k];
            assert(function@.blocks[k] != whole.blocks[k]);
        } else {
            assert(function@.blocks =~= whole.blocks);
        }
    }
    changed
}

/// Work out what is constant everywhere, rewrite what that settles, and drop
/// whatever became unreachable. Answers whether anything changed.
pub fn propagate(function: &mut Function) -> (changed: bool)
    requires
        well_formed(old(function)@),
    ensures
        final(function)@ == propagated(old(function)@),
        changed == propagation_changes(old(function)@),
        settled(old(function)@, analysed(old(function)@)),
        well_formed(final(function)@),
        arities_agree(old(function)@.blocks) ==> arities_agree(final(function)@.blocks),
{
    let ghost whole = function@;
    let entries: Vec<Vec<Option<Known>>> = analyse(function);
    proof {
        assert forall|b: int| 0 <= b < entries@.len() implies (#[trigger] entries@[b])@.len()
            == whole.names.len() by {
            assert(analysed(whole).entries[b] == entries@[b]@);
        }
        assert(facts_of(entries@).len() == entries@.len());
    }
    let changed: bool = rewrite(function, &entries);
    proof {
        replacing_keeps_well_formed(whole);
        pruning_keeps_well_formed(known_replaced(whole));
        if arities_agree(whole.blocks) {
            pruning_keeps_arities(known_replaced(whole));
        }
    }
    // A branch that became a jump may have left its other arm reachable by
    // nothing. Blocks are renumbered by the same routine lowering uses.
    let before: usize = function.blocks.len();
    let mut blocks: Vec<Block> = Vec::new();
    std::mem::swap(&mut blocks, &mut function.blocks);
    function.blocks = prune_unreachable(blocks);
    assert(function@ =~= propagated(whole));
    changed || function.blocks.len() != before
}

} // verus!
