//! Basic blocks: how one ends, where it sends control, and dropping the ones
//! nothing reaches.

use vstd::prelude::*;

use crate::graph::{closed_from, edges, raised_before, reachable_from, reaches, Graph};
use crate::ir::instr::{Instr, InstrView};
use crate::ir::value::{push_registers, registers, BlockId, VReg, Value};
use crate::text::{decimal_nat, push_decimal_u64};

verus! {

/// Where a terminator sends control, and what it hands the block on arrival.
///
/// `args` is one value per [`Block::params`] of `block`, and is empty
/// everywhere outside SSA form. Carrying the values on the *edge* is what keeps
/// them in step with the graph: a pass that redirects a jump moves its
/// arguments with it.
#[derive(Clone, Debug)]
pub struct Target {
    pub block: BlockId,
    pub args: Vec<Value>,
}

/// A [`Target`] as what it says.
#[verifier::ext_equal]
pub struct TargetView {
    pub block: BlockId,
    pub args: Seq<Value>,
}

impl View for Target {
    type V = TargetView;

    open spec fn view(&self) -> TargetView {
        TargetView { block: self.block, args: self.args@ }
    }
}

impl TargetView {
    /// A target that hands the block nothing.
    pub open spec fn plain(block: BlockId) -> TargetView {
        TargetView { block, args: seq![] }
    }
}

impl Target {
    /// A jump that hands the block nothing, which is every jump outside SSA.
    pub fn to(block: BlockId) -> (target: Target)
        ensures
            target@ == TargetView::plain(block),
    {
        Target { block, args: Vec::new() }
    }
}

impl From<BlockId> for Target {
    fn from(block: BlockId) -> (target: Target)
        ensures
            target@ == TargetView::plain(block),
    {
        Target::to(block)
    }
}

impl vstd::std_specs::convert::FromSpecImpl<BlockId> for Target {
    open spec fn obeys_from_spec() -> bool {
        false
    }

    open spec fn from_spec(block: BlockId) -> Target {
        arbitrary()
    }
}

/// How a basic block ends. Every block has exactly one.
#[derive(Clone, Debug)]
pub enum Terminator {
    Jump(Target),
    /// Continue at `then_blk` when `cond` is non-zero, `else_blk` otherwise.
    Branch { cond: Value, then_blk: Target, else_blk: Target },
    /// Leave the function, with a value for a function that returns one.
    Return(Option<Value>),
}

/// A [`Terminator`] as what it says.
#[verifier::ext_equal]
pub enum TermView {
    Jump(TargetView),
    Branch { cond: Value, then_blk: TargetView, else_blk: TargetView },
    Return(Option<Value>),
}

impl View for Terminator {
    type V = TermView;

    open spec fn view(&self) -> TermView {
        match *self {
            Terminator::Jump(target) => TermView::Jump(target@),
            Terminator::Branch { cond, then_blk, else_blk } => TermView::Branch {
                cond,
                then_blk: then_blk@,
                else_blk: else_blk@,
            },
            Terminator::Return(value) => TermView::Return(value),
        }
    }
}

impl TermView {
    pub open spec fn jump(block: BlockId) -> TermView {
        TermView::Jump(TargetView::plain(block))
    }

    pub open spec fn branch(cond: Value, then_blk: BlockId, else_blk: BlockId) -> TermView {
        TermView::Branch {
            cond,
            then_blk: TargetView::plain(then_blk),
            else_blk: TargetView::plain(else_blk),
        }
    }

    /// Where control may go, in the order it is written.
    pub open spec fn targets(self) -> Seq<TargetView> {
        match self {
            TermView::Jump(target) => seq![target],
            TermView::Branch { then_blk, else_blk, .. } => seq![then_blk, else_blk],
            TermView::Return(_) => seq![],
        }
    }

    /// The same ending with other targets, one for each it has.
    pub open spec fn with_targets(self, targets: Seq<TargetView>) -> TermView {
        match self {
            TermView::Jump(_) => TermView::Jump(targets[0]),
            TermView::Branch { cond, .. } => TermView::Branch {
                cond,
                then_blk: targets[0],
                else_blk: targets[1],
            },
            TermView::Return(value) => TermView::Return(value),
        }
    }

    /// Where control may go.
    pub open spec fn successors(self) -> Seq<BlockId> {
        self.targets().map_values(|target: TargetView| target.block)
    }

    /// What the ending reads itself: the condition, or what is returned.
    pub open spec fn head(self) -> Seq<Value> {
        match self {
            TermView::Branch { cond, .. } => seq![cond],
            TermView::Return(Some(value)) => seq![value],
            _ => seq![],
        }
    }

    /// Every operand, the arguments handed to the successors last.
    pub open spec fn operands(self) -> Seq<Value> {
        match self {
            TermView::Jump(target) => target.args,
            TermView::Branch { cond, then_blk, else_blk } => seq![cond] + then_blk.args
                + else_blk.args,
            TermView::Return(Some(value)) => seq![value],
            TermView::Return(None) => seq![],
        }
    }

    /// The same ending with other operands, one for each it has.
    pub open spec fn with_operands(self, operands: Seq<Value>) -> TermView {
        match self {
            TermView::Jump(target) => TermView::Jump(
                TargetView { block: target.block, args: operands },
            ),
            TermView::Branch { cond, then_blk, else_blk } => {
                let middle = 1 + then_blk.args.len() as int;
                TermView::Branch {
                    cond: operands[0],
                    then_blk: TargetView {
                        block: then_blk.block,
                        args: operands.subrange(1, middle),
                    },
                    else_blk: TargetView {
                        block: else_blk.block,
                        args: operands.subrange(middle, operands.len() as int),
                    },
                }
            },
            TermView::Return(Some(_)) => TermView::Return(Some(operands[0])),
            TermView::Return(None) => self,
        }
    }
}

/// Put a run of operands on the end of a list.
pub fn push_values(out: &mut Vec<Value>, values: &Vec<Value>)
    ensures
        final(out)@ == old(out)@ + values@,
{
    let mut i: usize = 0;
    assert(old(out)@ + values@.subrange(0, 0) =~= old(out)@);
    while i < values.len()
        invariant
            i <= values@.len(),
            out@ == old(out)@ + values@.subrange(0, i as int),
        decreases values@.len() - i,
    {
        out.push(values[i]);
        i = i + 1;
        assert(values@.subrange(0, i as int) =~= values@.subrange(0, i - 1).push(values@[i - 1]));
    }
    assert(values@.subrange(0, i as int) =~= values@);
}

/// The operands from `from` up to `to`.
fn slice_of(values: &Vec<Value>, from: usize, to: usize) -> (part: Vec<Value>)
    requires
        from <= to <= values@.len(),
    ensures
        part@ == values@.subrange(from as int, to as int),
{
    let mut part: Vec<Value> = Vec::new();
    let mut i: usize = from;
    while i < to
        invariant
            from <= i <= to <= values@.len(),
            part@ == values@.subrange(from as int, i as int),
        decreases to - i,
    {
        part.push(values[i]);
        i = i + 1;
        assert(values@.subrange(from as int, i as int) =~= values@.subrange(
            from as int,
            i - 1,
        ).push(values@[i - 1]));
    }
    part
}

impl Terminator {
    /// A jump carrying no arguments.
    pub fn jump(block: BlockId) -> (term: Terminator)
        ensures
            term@ == TermView::jump(block),
    {
        Terminator::Jump(Target::to(block))
    }

    /// A two-way branch carrying no arguments on either edge.
    pub fn branch(cond: Value, then_blk: BlockId, else_blk: BlockId) -> (term: Terminator)
        ensures
            term@ == TermView::branch(cond, then_blk, else_blk),
    {
        Terminator::Branch { cond, then_blk: Target::to(then_blk), else_blk: Target::to(else_blk) }
    }

    /// Where control may go.
    pub fn successors(&self) -> (successors: Vec<BlockId>)
        ensures
            successors@ == self@.successors(),
    {
        let successors: Vec<BlockId> = match self {
            Terminator::Jump(target) => vec![target.block],
            Terminator::Branch { then_blk, else_blk, .. } => vec![then_blk.block, else_blk.block],
            Terminator::Return(_) => Vec::new(),
        };
        assert(successors@ =~= self@.successors());
        successors
    }

    /// Where control may go, and with what.
    pub fn targets(&self) -> (targets: Vec<&Target>)
        ensures
            targets@.len() == self@.targets().len(),
            forall|i: int|
                0 <= i < targets@.len() ==> (#[trigger] targets@[i])@ == self@.targets()[i],
    {
        match self {
            Terminator::Jump(target) => vec![target],
            Terminator::Branch { then_blk, else_blk, .. } => vec![then_blk, else_blk],
            Terminator::Return(_) => Vec::new(),
        }
    }

    /// Send control elsewhere: replace every target, in the order
    /// [`Self::targets`] lists them.
    pub fn targets_mut(&mut self, targets: Vec<Target>)
        requires
            targets@.len() == old(self)@.targets().len(),
        ensures
            final(self)@ == old(self)@.with_targets(targets@.map_values(|target: Target| target@)),
    {
        let ghost views = targets@.map_values(|target: Target| target@);
        let mut rest = targets;
        match self {
            Terminator::Jump(target) => {
                let first = rest.remove(0);
                assert(views[0] == first@);
                *target = first;
            },
            Terminator::Branch { then_blk, else_blk, .. } => {
                let first = rest.remove(0);
                let second = rest.remove(0);
                assert(views[0] == first@);
                assert(views[1] == second@);
                *then_blk = first;
                *else_blk = second;
            },
            Terminator::Return(_) => {},
        }
    }

    /// Every virtual register the terminator reads, the arguments it hands its
    /// successors included.
    pub fn uses(&self) -> (used: Vec<VReg>)
        ensures
            used@ == registers(self@.operands()),
    {
        let values = self.values();
        let mut used: Vec<VReg> = Vec::new();
        push_registers(&mut used, &values);
        proof {
            assert(Seq::<VReg>::empty() + registers(values@) =~= registers(values@));
        }
        used
    }

    /// Every operand, the arguments handed to the successors last.
    pub fn values(&self) -> (values: Vec<Value>)
        ensures
            values@ == self@.operands(),
    {
        let mut values: Vec<Value> = Vec::new();
        match self {
            Terminator::Jump(target) => {
                push_values(&mut values, &target.args);
                assert(values@ =~= target.args@);
            },
            Terminator::Branch { cond, then_blk, else_blk } => {
                values.push(*cond);
                push_values(&mut values, &then_blk.args);
                push_values(&mut values, &else_blk.args);
                assert(values@ =~= seq![*cond] + then_blk.args@ + else_blk.args@);
            },
            Terminator::Return(Some(value)) => {
                values.push(*value);
            },
            Terminator::Return(None) => {},
        }
        values
    }

    /// Replace every operand, in the order [`Self::values`] lists them.
    pub fn values_mut(&mut self, operands: Vec<Value>)
        requires
            operands@.len() == old(self)@.operands().len(),
        ensures
            final(self)@ == old(self)@.with_operands(operands@),
    {
        match self {
            Terminator::Jump(target) => {
                let block: BlockId = target.block;
                *target = Target { block, args: operands };
            },
            Terminator::Branch { cond, then_blk, else_blk } => {
                let count: usize = operands.len();
                assert(count == 1 + then_blk.args@.len() + else_blk.args@.len());
                let middle: usize = 1 + then_blk.args.len();
                let first: BlockId = then_blk.block;
                let second: BlockId = else_blk.block;
                *cond = operands[0];
                *then_blk = Target { block: first, args: slice_of(&operands, 1, middle) };
                *else_blk = Target {
                    block: second,
                    args: slice_of(&operands, middle, count),
                };
            },
            Terminator::Return(Some(value)) => {
                *value = operands[0];
            },
            Terminator::Return(None) => {},
        }
    }
}

/// What a block is *for*, which is the half of its name that survives
/// renumbering.
#[derive(Clone, Copy, Debug, PartialEq, Eq, Structural)]
pub enum BlockKind {
    /// Where the function starts. Always block 0.
    Entry,
    /// A block interposed on an edge, to hold the copies SSA leaves behind.
    Edge,
    Then,
    Else,
    /// Where the arms of an `if` meet again.
    Join,
    /// A loop header: it re-tests the condition on every iteration.
    Loop,
    Body,
    /// A `for`'s step, on the occasions it needs a block of its own: a
    /// `continue` has to jump somewhere that still runs it.
    Step,
    /// Where a loop leaves.
    Done,
    /// One `match` arm's body.
    Arm,
    /// Where a `match` tests the next variant, having ruled out the ones before.
    Case,
    /// The right operand of `&&` or `||`, reached only when the left one did
    /// not already settle the answer.
    Rhs,
    /// Where a short-circuited `&&` or `||` lands, carrying the answer its left
    /// operand gave on its own.
    Short,
    /// Opened after a `return`, `break` or `continue` for whatever follows it,
    /// and reached by nothing.
    Unreachable,
}

impl BlockKind {
    pub open spec fn spec_prefix(self) -> Seq<char> {
        match self {
            BlockKind::Entry => "entry"@,
            BlockKind::Edge => "edge"@,
            BlockKind::Then => "then"@,
            BlockKind::Else => "else"@,
            BlockKind::Join => "join"@,
            BlockKind::Loop => "loop"@,
            BlockKind::Body => "body"@,
            BlockKind::Step => "step"@,
            BlockKind::Done => "done"@,
            BlockKind::Arm => "arm"@,
            BlockKind::Case => "case"@,
            BlockKind::Rhs => "rhs"@,
            BlockKind::Short => "short"@,
            BlockKind::Unreachable => "unreachable"@,
        }
    }

    pub fn prefix(self) -> (prefix: &'static str)
        ensures
            prefix@ == self.spec_prefix(),
    {
        match self {
            BlockKind::Entry => "entry",
            BlockKind::Edge => "edge",
            BlockKind::Then => "then",
            BlockKind::Else => "else",
            BlockKind::Join => "join",
            BlockKind::Loop => "loop",
            BlockKind::Body => "body",
            BlockKind::Step => "step",
            BlockKind::Done => "done",
            BlockKind::Arm => "arm",
            BlockKind::Case => "case",
            BlockKind::Rhs => "rhs",
            BlockKind::Short => "short",
            BlockKind::Unreachable => "unreachable",
        }
    }
}

#[derive(Clone, Debug)]
pub struct Block {
    pub kind: BlockKind,
    /// Values this block is handed on arrival, one per argument every target
    /// naming it carries. Empty outside SSA form.
    pub params: Vec<VReg>,
    /// Position in [`crate::ir::Function::blocks`], repeated here so a block can
    /// name itself.
    pub index: u32,
    pub instrs: Vec<Instr>,
    pub term: Terminator,
}

/// A [`Block`] as what it says.
#[verifier::ext_equal]
pub struct BlockView {
    pub kind: BlockKind,
    pub params: Seq<VReg>,
    pub index: u32,
    pub instrs: Seq<InstrView>,
    pub term: TermView,
}

/// What each of a run of instructions says.
pub open spec fn instr_views(instrs: Seq<Instr>) -> Seq<InstrView> {
    instrs.map_values(|instr: Instr| instr@)
}

impl View for Block {
    type V = BlockView;

    open spec fn view(&self) -> BlockView {
        BlockView {
            kind: self.kind,
            params: self.params@,
            index: self.index,
            instrs: instr_views(self.instrs@),
            term: self.term@,
        }
    }
}

/// What each of a run of blocks says.
pub open spec fn block_views(blocks: Seq<Block>) -> Seq<BlockView> {
    blocks.map_values(|block: Block| block@)
}

impl Block {
    /// Assembly label and dump name, e.g. `then0` or `loop2`.
    pub fn label(&self) -> (label: String)
        ensures
            label@ == self@.label(),
    {
        let mut label = self.kind.prefix().to_owned();
        push_decimal_u64(&mut label, self.index as u64);
        label
    }
}

impl BlockView {
    pub open spec fn label(self) -> Seq<char> {
        self.kind.spec_prefix() + decimal_nat(self.index as nat)
    }
}

/// The control flow graph of a run of blocks.
pub open spec fn flow(blocks: Seq<BlockView>) -> Graph {
    blocks.map_values(
        |block: BlockView| block.term.successors().map_values(|id: BlockId| id.0 as int),
    )
}

/// Whether control can get from the first block to another.
pub open spec fn reached(blocks: Seq<BlockView>, at: int) -> bool {
    reaches(flow(blocks), 0, at)
}

/// Which blocks control can get to.
pub open spec fn reached_flags(blocks: Seq<BlockView>) -> Seq<bool> {
    Seq::new(blocks.len(), |at: int| reached(blocks, at))
}

/// A target as it is once blocks nothing reaches are gone.
pub open spec fn renumbered_target(target: TargetView, flags: Seq<bool>) -> TargetView {
    TargetView {
        block: BlockId(raised_before(flags, target.block.0 as int) as u32),
        args: target.args,
    }
}

/// A block as it is once blocks nothing reaches are gone.
pub open spec fn renumbered(blocks: Seq<BlockView>, at: int) -> BlockView {
    let flags = reached_flags(blocks);
    BlockView {
        index: raised_before(flags, at) as u32,
        term: blocks[at].term.with_targets(
            blocks[at].term.targets().map_values(
                |target: TargetView| renumbered_target(target, flags),
            ),
        ),
        ..blocks[at]
    }
}

/// The blocks control can get to, in the order they were, renumbered.
pub open spec fn pruned(blocks: Seq<BlockView>) -> Seq<BlockView> {
    pruned_up_to(blocks, blocks.len() as int)
}

/// Those of the first `n` blocks control can get to, renumbered.
pub open spec fn pruned_up_to(blocks: Seq<BlockView>, n: int) -> Seq<BlockView>
    decreases n,
{
    if n <= 0 {
        seq![]
    } else if reached(blocks, n - 1) {
        pruned_up_to(blocks, n - 1).push(renumbered(blocks, n - 1))
    } else {
        pruned_up_to(blocks, n - 1)
    }
}

/// Where a block that is kept ends up.
pub proof fn pruned_position(blocks: Seq<BlockView>, n: int, at: int)
    requires
        0 <= at < n <= blocks.len(),
        reached(blocks, at),
    ensures
        raised_before(reached_flags(blocks), at) < pruned_up_to(blocks, n).len(),
        pruned_up_to(blocks, n)[raised_before(reached_flags(blocks), at) as int] == renumbered(
            blocks,
            at,
        ),
    decreases n,
{
    pruned_length(blocks, n - 1);
    if at < n - 1 {
        pruned_position(blocks, n - 1, at);
    }
}

pub proof fn pruned_length(blocks: Seq<BlockView>, n: int)
    requires
        0 <= n <= blocks.len(),
    ensures
        pruned_up_to(blocks, n).len() == raised_before(reached_flags(blocks), n),
    decreases n,
{
    if n > 0 {
        pruned_length(blocks, n - 1);
    }
}

/// Whether a run of blocks is a graph with an entry, whose edges, where control
/// can get to them, lead somewhere.
pub open spec fn is_flow_graph(blocks: Seq<BlockView>) -> bool {
    blocks.len() <= u32::MAX && closed_from(flow(blocks), 0)
}

/// The successors of every block, as indices.
pub fn successor_lists(blocks: &Vec<Block>) -> (next: Vec<Vec<usize>>)
    ensures
        edges(next@) == flow(block_views(blocks@)),
{
    let ghost graph = flow(block_views(blocks@));
    let mut next: Vec<Vec<usize>> = Vec::new();
    let mut i: usize = 0;
    while i < blocks.len()
        invariant
            i <= blocks@.len(),
            graph == flow(block_views(blocks@)),
            next@.len() == i,
            forall|j: int| 0 <= j < i ==> #[trigger] edges(next@)[j] == graph[j],
        decreases blocks@.len() - i,
    {
        let ids: Vec<BlockId> = blocks[i].term.successors();
        let mut list: Vec<usize> = Vec::new();
        let mut k: usize = 0;
        while k < ids.len()
            invariant
                k <= ids@.len(),
                list@.len() == k,
                forall|j: int| 0 <= j < k ==> #[trigger] list@[j] == ids@[j].0,
            decreases ids@.len() - k,
        {
            list.push(ids[k].0 as usize);
            k = k + 1;
        }
        proof {
            assert(graph[i as int] =~= list@.map_values(|node: usize| node as int));
        }
        let ghost before = next@;
        next.push(list);
        assert forall|j: int| 0 <= j < i + 1 implies #[trigger] edges(next@)[j] == graph[j] by {
            if j < i {
                assert(edges(before)[j] == graph[j]);
            }
        }
        i = i + 1;
    }
    assert(edges(next@) =~= graph);
    next
}

/// Drop the blocks nothing can reach, and renumber the survivors.
///
/// Lowering a `return` opens a fresh block for whatever follows it, which is
/// usually nothing at all. Without this pass every function ending in a
/// `return` would carry a stray block.
pub fn prune_unreachable(blocks: Vec<Block>) -> (kept: Vec<Block>)
    requires
        is_flow_graph(block_views(blocks@)),
    ensures
        block_views(kept@) == pruned(block_views(blocks@)),
{
    let ghost views = block_views(blocks@);
    let next: Vec<Vec<usize>> = successor_lists(&blocks);
    let reachable: Vec<bool> = reachable_from(&next, 0);
    let ghost flags = reached_flags(views);
    assert(reachable@ =~= flags);
    let count: usize = blocks.len();

    // Old index -> new index, for the terminators that name them.
    let mut renumber: Vec<u32> = Vec::new();
    let mut following: u32 = 0;
    let mut i: usize = 0;
    while i < count
        invariant
            i <= count == reachable@.len(),
            count <= u32::MAX,
            reachable@ == flags,
            renumber@.len() == i,
            following == raised_before(flags, i as int),
            following <= i,
            forall|j: int| 0 <= j < i ==> #[trigger] renumber@[j] == raised_before(flags, j),
        decreases count - i,
    {
        renumber.push(following);
        if reachable[i] {
            following = following + 1;
        }
        i = i + 1;
    }

    let mut rest: Vec<Block> = blocks;
    let mut kept: Vec<Block> = Vec::new();
    let mut i: usize = 0;
    assert(block_views(kept@) =~= pruned_up_to(views, 0));
    while i < count
        invariant
            i <= count == reachable@.len(),
            count <= u32::MAX,
            views.len() == count,
            is_flow_graph(views),
            flags == reached_flags(views),
            reachable@ == flags,
            renumber@.len() == count,
            forall|j: int| 0 <= j < count ==> #[trigger] renumber@[j] == raised_before(flags, j),
            rest@.len() == count - i,
            forall|j: int| 0 <= j < rest@.len() ==> (#[trigger] rest@[j])@ == views[j + i],
            block_views(kept@) == pruned_up_to(views, i as int),
        decreases count - i,
    {
        assert(rest@[0]@ == views[i as int]);
        let ghost remaining = rest@;
        let mut block: Block = rest.remove(0);
        assert forall|j: int| 0 <= j < rest@.len() implies (#[trigger] rest@[j])@ == views[j + i
            + 1] by {
            assert(rest@[j] == remaining[j + 1]);
        }
        if reachable[i] {
            let ghost old_term = block.term@;
            let mut targets: Vec<Target> = Vec::new();
            let listed: Vec<&Target> = block.term.targets();
            let mut k: usize = 0;
            while k < listed.len()
                invariant
                    k <= listed@.len(),
                    i < count,
                    views.len() == count,
                    is_flow_graph(views),
                    reached(views, i as int),
                    old_term == views[i as int].term,
                    listed@.len() == old_term.targets().len(),
                    forall|j: int|
                        0 <= j < listed@.len() ==> (#[trigger] listed@[j])@
                            == old_term.targets()[j],
                    renumber@.len() == count,
                    forall|j: int|
                        0 <= j < count ==> #[trigger] renumber@[j] == raised_before(flags, j),
                    targets@.len() == k,
                    forall|j: int|
                        0 <= j < k ==> (#[trigger] targets@[j])@ == renumbered_target(
                            old_term.targets()[j],
                            flags,
                        ),
                decreases listed@.len() - k,
            {
                let target: &Target = listed[k];
                proof {
                    let node = flow(views)[i as int][k as int];
                    assert(node == target.block.0);
                    assert(reaches(flow(views), 0, i as int));
                }
                let mut args: Vec<Value> = Vec::new();
                push_values(&mut args, &target.args);
                assert(args@ =~= target.args@);
                targets.push(Target { block: BlockId(renumber[target.block.0 as usize]), args });
                k = k + 1;
            }
            let ghost wanted = old_term.targets().map_values(
                |target: TargetView| renumbered_target(target, flags),
            );
            assert(targets@.map_values(|target: Target| target@) =~= wanted);
            block.term.targets_mut(targets);
            // A label is derived from the index, so renumbering is a single
            // assignment, and the kind still says where the block came from.
            block.index = renumber[i];
            assert(block@ == renumbered(views, i as int));
            let ghost before = kept@;
            kept.push(block);
            assert(block_views(kept@) =~= block_views(before).push(block@));
        }
        i = i + 1;
    }
    kept
}

} // verus!
