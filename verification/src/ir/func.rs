//! A lowered function and the program that holds them.

use vstd::prelude::*;

use crate::ast::{Ty, TypeTable};
use crate::graph::{
    leads, raised_before, raised_before_grows, reaches, reaches_further, reaches_itself,
};
use crate::ir::block::{
    block_views, flow, is_flow_graph, pruned, pruned_length, pruned_position, pruned_up_to,
    reached, reached_flags, renumbered, renumbered_target, Block, BlockView,
};
use crate::ir::instr::{instr_within, InstrView};
use crate::ir::value::{value_within, BlockId, FuncId, VReg};
use crate::text::text_views;

verus! {

/// One function's control flow graph, virtual registers and signature.
#[derive(Debug)]
pub struct Function {
    pub name: String,
    /// The register each parameter was lowered into, in declaration order.
    pub params: Vec<VReg>,
    /// `None` for a function that returns nothing.
    pub ret: Option<Ty>,
    /// Bytes of frame this function's aggregates need, reserved once in the
    /// prologue and handed out by [`crate::ir::Instr::Frame`].
    pub frame_bytes: u32,
    /// Basic blocks in the order they will be emitted; block 0 is the entry.
    pub blocks: Vec<Block>,
    /// Human-readable name per virtual register, used by IR and allocator dumps.
    pub vreg_names: Vec<String>,
}

/// A [`Function`] as what it says.
#[verifier::ext_equal]
pub struct FunctionView {
    pub name: Seq<char>,
    pub params: Seq<VReg>,
    pub ret: Option<Ty>,
    pub frame_bytes: u32,
    pub blocks: Seq<BlockView>,
    pub names: Seq<Seq<char>>,
}

impl View for Function {
    type V = FunctionView;

    open spec fn view(&self) -> FunctionView {
        FunctionView {
            name: self.name@,
            params: self.params@,
            ret: self.ret,
            frame_bytes: self.frame_bytes,
            blocks: block_views(self.blocks@),
            names: text_views(self.vreg_names@),
        }
    }
}

/// What each of a run of functions says.
pub open spec fn function_views(functions: Seq<Function>) -> Seq<FunctionView> {
    functions.map_values(|function: Function| function@)
}

impl Function {
    /// How many virtual registers there are.
    pub fn vreg_count(&self) -> (count: usize)
        ensures
            count == self@.names.len(),
    {
        self.vreg_names.len()
    }

    pub fn name_of(&self, reg: VReg) -> (name: &str)
        requires
            reg.0 < self@.names.len(),
        ensures
            name@ == self@.names[reg.0 as int],
    {
        self.vreg_names[reg.0 as usize].as_str()
    }

    pub fn block(&self, id: BlockId) -> (block: &Block)
        requires
            id.0 < self.blocks@.len(),
        ensures
            *block == self.blocks@[id.0 as int],
    {
        &self.blocks[id.0 as usize]
    }
}

#[derive(Debug)]
pub struct Program {
    pub functions: Vec<Function>,
    /// Interned string literals, each as the characters it holds.
    pub strings: Vec<Vec<char>>,
    /// Interned runs of literal text. See [`crate::ir::Instr::PrintText`].
    pub texts: Vec<String>,
    /// One method table per class, in `ClassId` order.
    pub vtables: Vec<Vec<FuncId>>,
    /// Every type the program has, carried through so that a type can still be
    /// named and a value of one can still be printed.
    pub table: TypeTable,
}

/// The characters of each of a run of literals.
pub open spec fn literal_views(literals: Seq<Vec<char>>) -> Seq<Seq<char>> {
    literals.map_values(|literal: Vec<char>| literal@)
}

/// The entries of each of a run of method tables.
pub open spec fn vtable_views(tables: Seq<Vec<FuncId>>) -> Seq<Seq<FuncId>> {
    tables.map_values(|table: Vec<FuncId>| table@)
}

/// A [`Program`] as what it says.
#[verifier::ext_equal]
pub struct ProgramView {
    pub functions: Seq<FunctionView>,
    pub strings: Seq<Seq<char>>,
    pub texts: Seq<Seq<char>>,
    pub vtables: Seq<Seq<FuncId>>,
    pub table: TypeTable,
}

impl View for Program {
    type V = ProgramView;

    open spec fn view(&self) -> ProgramView {
        ProgramView {
            functions: function_views(self.functions@),
            strings: literal_views(self.strings@),
            texts: text_views(self.texts@),
            vtables: vtable_views(self.vtables@),
            table: self.table,
        }
    }
}

impl Program {
    pub fn function(&self, id: FuncId) -> (function: &Function)
        requires
            id.0 < self.functions@.len(),
        ensures
            *function == self.functions@[id.0 as int],
    {
        &self.functions[id.0 as usize]
    }
}

// -- what there is to name --------------------------------------------------

/// What a whole program has, for a function to name.
#[verifier::ext_equal]
pub struct Limits {
    /// How many arguments each function takes.
    pub arities: Seq<nat>,
    pub table: TypeTable,
}

/// Whether the functions, types and literals an instruction names exist.
pub open spec fn instr_known(instr: InstrView, limits: Limits, strings: nat, texts: nat) -> bool {
    match instr {
        InstrView::Call { callee, .. } => callee.0 < limits.arities.len(),
        InstrView::VTable { class, .. } => limits.table.has_class(class),
        InstrView::VariantAddr { id, tag, .. } => limits.table.has_enum(id) && tag
            < limits.table.enums@[id.0 as int].variants@.len(),
        InstrView::StrAddr { id, .. } => id.0 < strings,
        InstrView::PrintText { id } => id.0 < texts,
        InstrView::Print { ty, .. } => limits.table.knows(ty),
        _ => true,
    }
}

/// Whether everything a block names exists in a function with so many registers
/// and blocks.
pub open spec fn block_within(block: BlockView, registers: nat, blocks: nat) -> bool {
    &&& forall|i: int| 0 <= i < block.params.len() ==> (#[trigger] block.params[i]).0 < registers
    &&& forall|i: int|
        0 <= i < block.instrs.len() ==> instr_within(#[trigger] block.instrs[i], registers)
    &&& forall|i: int|
        0 <= i < block.term.targets().len() ==> (#[trigger] block.term.targets()[i]).block.0
            < blocks
    &&& forall|i: int|
        0 <= i < block.term.operands().len() ==> value_within(
            #[trigger] block.term.operands()[i],
            registers,
        )
}

/// Whether a function has an entry, its blocks know where they stand, and
/// everything it names is its own.
pub open spec fn well_formed(function: FunctionView) -> bool {
    &&& 0 < function.blocks.len() <= u32::MAX
    &&& function.names.len() <= u32::MAX
    &&& forall|i: int|
        0 <= i < function.blocks.len() ==> block_within(
            #[trigger] function.blocks[i],
            function.names.len(),
            function.blocks.len(),
        ) && function.blocks[i].index == i
    &&& forall|i: int|
        0 <= i < function.params.len() ==> (#[trigger] function.params[i]).0 < function.names.len()
}

/// Whether control can get to every block.
pub open spec fn all_reached(blocks: Seq<BlockView>) -> bool {
    forall|i: int| 0 <= i < blocks.len() ==> #[trigger] reached(blocks, i)
}

/// Whether no block is handed anything on arrival.
pub open spec fn hands_nothing(blocks: Seq<BlockView>) -> bool {
    forall|i: int|
        0 <= i < blocks.len() ==> (#[trigger] blocks[i]).params.len() == 0 && target_args_empty(
            blocks[i],
        )
}

/// Whether a block hands its successors nothing.
pub open spec fn target_args_empty(block: BlockView) -> bool {
    forall|i: int|
        0 <= i < block.term.targets().len() ==> (#[trigger] block.term.targets()[i]).args.len()
            == 0
}

/// The register the argument at `index` arrives in, by the first of the first
/// `n` instructions that says so.
pub open spec fn arrives_in(instrs: Seq<InstrView>, index: int, n: int) -> Option<VReg>
    decreases n,
{
    if n <= 0 {
        None
    } else {
        match arrives_in(instrs, index, n - 1) {
            Some(reg) => Some(reg),
            None => match instrs[n - 1] {
                InstrView::Param { dst, index: at } => if at == index {
                    Some(dst)
                } else {
                    None
                },
                _ => None,
            },
        }
    }
}

/// The register the argument at `index` arrives in.
pub open spec fn arrived(function: FunctionView, index: int) -> Option<VReg> {
    arrives_in(
        function.blocks[0].instrs,
        index,
        function.blocks[0].instrs.len() as int,
    )
}

/// How many arguments come before the declared ones: the place for an answer
/// that does not fit in a register.
pub open spec fn leading(ret: Option<Ty>) -> u32 {
    match ret {
        Some(ty) => if ty.in_a_register() {
            0
        } else {
            1
        },
        None => 0,
    }
}

/// Whether every parameter arrives in the entry block.
pub open spec fn parameters_arrive(function: FunctionView) -> bool {
    forall|i: int|
        0 <= i < function.params.len() ==> #[trigger] arrived(
            function,
            i + leading(function.ret),
        ) is Some
}

/// Whether the functions, types and literals a function names exist.
pub open spec fn function_known(
    function: FunctionView,
    limits: Limits,
    strings: nat,
    texts: nat,
) -> bool {
    forall|i: int, k: int|
        #![trigger function.blocks[i].instrs[k]]
        0 <= i < function.blocks.len() && 0 <= k < function.blocks[i].instrs.len() ==> instr_known(
            function.blocks[i].instrs[k],
            limits,
            strings,
            texts,
        )
}

/// How many arguments a function takes.
pub open spec fn arity(function: FunctionView) -> nat {
    (function.params.len() + leading(function.ret)) as nat
}

/// How many arguments each of a run of functions takes.
pub open spec fn arities(functions: Seq<FunctionView>) -> Seq<nat> {
    functions.map_values(|function: FunctionView| arity(function))
}

/// Whether a call hands its callee as many arguments as it takes.
pub open spec fn call_matches(instr: InstrView, limits: Limits) -> bool {
    match instr {
        InstrView::Call { callee, args, .. } => args.len() == limits.arities[callee.0 as int],
        _ => true,
    }
}

/// Whether every call of a function hands its callee as many arguments as it takes.
pub open spec fn calls_match(function: FunctionView, limits: Limits) -> bool {
    forall|i: int, k: int|
        #![trigger function.blocks[i].instrs[k]]
        0 <= i < function.blocks.len() && 0 <= k < function.blocks[i].instrs.len() ==> call_matches(
            function.blocks[i].instrs[k],
            limits,
        )
}

/// What a program has.
pub open spec fn program_limits(program: ProgramView) -> Limits {
    Limits { arities: arities(program.functions), table: program.table }
}

/// Whether everything a program's functions name exists.
pub open spec fn program_well_formed(program: ProgramView) -> bool {
    &&& program.functions.len() <= u32::MAX
    &&& forall|i: int|
        0 <= i < program.functions.len() ==> well_formed(#[trigger] program.functions[i])
            && function_known(
            program.functions[i],
            program_limits(program),
            program.strings.len(),
            program.texts.len(),
        )
}

// -- what pruning keeps -----------------------------------------------------

/// The block that ends up at a position.
pub proof fn position_taken(blocks: Seq<BlockView>, n: int, k: int) -> (at: int)
    requires
        0 <= n <= blocks.len(),
        0 <= k < pruned_up_to(blocks, n).len(),
    ensures
        0 <= at < n,
        reached(blocks, at),
        raised_before(reached_flags(blocks), at) == k,
        pruned_up_to(blocks, n)[k] == renumbered(blocks, at),
    decreases n,
{
    if n <= 0 {
        0
    } else {
        pruned_length(blocks, n - 1);
        if reached(blocks, n - 1) && k == pruned_up_to(blocks, n - 1).len() {
            n - 1
        } else {
            position_taken(blocks, n - 1, k)
        }
    }
}

/// A successor of a block that is kept is kept, and ends up where the renumbered
/// edge says.
pub proof fn successor_kept(blocks: Seq<BlockView>, at: int, k: int)
    requires
        is_flow_graph(blocks),
        0 <= at < blocks.len(),
        reached(blocks, at),
        0 <= k < blocks[at].term.targets().len(),
    ensures
        0 <= blocks[at].term.targets()[k].block.0 < blocks.len(),
        reached(blocks, blocks[at].term.targets()[k].block.0 as int),
        raised_before(reached_flags(blocks), blocks[at].term.targets()[k].block.0 as int) < pruned(
            blocks,
        ).len(),
        pruned(blocks).len() <= blocks.len(),
{
    let to = blocks[at].term.targets()[k].block.0 as int;
    let graph = flow(blocks);
    assert(graph[at][k] == to);
    assert(0 <= graph[at][k] < graph.len());
    assert(graph[at].contains(to));
    reaches_further(graph, 0, at, to);
    pruned_position(blocks, blocks.len() as int, to);
    pruned_length(blocks, blocks.len() as int);
    raised_before_grows(reached_flags(blocks), 0, blocks.len() as int);
}

/// Pruning leaves a graph of which control can get to every block.
pub proof fn pruning_leaves_only_what_is_reached(blocks: Seq<BlockView>)
    requires
        is_flow_graph(blocks),
    ensures
        pruned(blocks).len() > 0,
        is_flow_graph(pruned(blocks)),
        all_reached(pruned(blocks)),
{
    let flags = reached_flags(blocks);
    let kept = pruned(blocks);
    let graph = flow(blocks);
    let new = flow(kept);
    let n = blocks.len() as int;
    reaches_itself(graph, 0);
    pruned_position(blocks, n, 0);
    pruned_length(blocks, n);
    raised_before_grows(flags, 0, n);
    assert forall|k: int| 0 <= k < kept.len() implies #[trigger] reached(kept, k) by {
        let at = position_taken(blocks, n, k);
        let path = choose|path: Seq<int>| leads(graph, path, 0, at);
        kept_path(blocks, path, at);
    }
    assert forall|node: int, i: int|
        #![trigger new[node][i]]
        reaches(new, 0, node) && 0 <= i < new[node].len() implies 0 <= new[node][i]
        < new.len() by {
        let path = choose|path: Seq<int>| leads(new, path, 0, node);
        assert(path[path.len() - 1] == node);
        let at = position_taken(blocks, n, node);
        assert(kept[node].term.targets().len() == blocks[at].term.targets().len());
        successor_kept(blocks, at, i);
        assert(kept[node].term.targets()[i] == renumbered_target(
            blocks[at].term.targets()[i],
            flags,
        ));
    }
}

/// The way to a block that is kept, renumbered, is a way to where it ends up.
proof fn kept_path(blocks: Seq<BlockView>, path: Seq<int>, at: int)
    requires
        is_flow_graph(blocks),
        leads(flow(blocks), path, 0, at),
    ensures
        reached(pruned(blocks), raised_before(reached_flags(blocks), at) as int),
    decreases path.len(),
{
    let flags = reached_flags(blocks);
    let kept = pruned(blocks);
    let graph = flow(blocks);
    let new = flow(kept);
    let n = blocks.len() as int;
    assert(0 <= path[path.len() - 1] < graph.len());
    if path.len() == 1 {
        reaches_itself(graph, 0);
        pruned_position(blocks, n, 0);
        reaches_itself(new, 0);
    } else {
        let before = path[path.len() - 2];
        crate::graph::last_step(graph, path, 0, at);
        kept_path(blocks, path.drop_last(), before);
        assert(reached(blocks, before)) by {
            assert(leads(graph, path.drop_last(), 0, before));
        }
        assert(reached(blocks, at));
        assert(0 <= path[path.len() - 2] < graph.len());
        pruned_position(blocks, n, before);
        let k = choose|k: int| 0 <= k < graph[before].len() && graph[before][k] == at;
        successor_kept(blocks, before, k);
        let from = raised_before(flags, before) as int;
        let to = raised_before(flags, at) as int;
        assert(kept[from] == renumbered(blocks, before));
        assert(kept[from].term.targets()[k] == renumbered_target(
            blocks[before].term.targets()[k],
            flags,
        ));
        assert(new[from][k] == to);
        assert(new[from].contains(to));
        reaches_further(new, 0, from, to);
    }
}

/// Pruning keeps a function's blocks within what the function has.
pub proof fn pruning_keeps_well_formed(function: FunctionView)
    requires
        well_formed(function),
    ensures
        is_flow_graph(function.blocks),
        well_formed(FunctionView { blocks: pruned(function.blocks), ..function }),
        hands_nothing(function.blocks) ==> hands_nothing(pruned(function.blocks)),
{
    let blocks = function.blocks;
    let graph = flow(blocks);
    assert forall|node: int, i: int|
        #![trigger graph[node][i]]
        reaches(graph, 0, node) && 0 <= i < graph[node].len() implies 0 <= graph[node][i]
        < graph.len() by {
        let path = choose|path: Seq<int>| leads(graph, path, 0, node);
        assert(path[path.len() - 1] == node);
        assert(block_within(blocks[node], function.names.len(), blocks.len()));
        assert(blocks[node].term.targets()[i].block.0 < blocks.len());
    }
    pruning_leaves_only_what_is_reached(blocks);
    let kept = pruned(blocks);
    let n = blocks.len() as int;
    let flags = reached_flags(blocks);
    pruned_length(blocks, n);
    raised_before_grows(flags, 0, n);
    assert forall|k: int| 0 <= k < kept.len() implies block_within(
        #[trigger] kept[k],
        function.names.len(),
        kept.len(),
    ) && kept[k].index == k by {
        let at = position_taken(blocks, n, k);
        let old_block = blocks[at];
        assert(block_within(old_block, function.names.len(), blocks.len()));
        assert forall|i: int| 0 <= i < kept[k].term.targets().len() implies (
        #[trigger] kept[k].term.targets()[i]).block.0 < kept.len() by {
            successor_kept(blocks, at, i);
            assert(kept[k].term.targets()[i] == renumbered_target(old_block.term.targets()[i], flags));
        }
        assert(kept[k].term.operands() =~= old_block.term.operands());
    }
    if hands_nothing(blocks) {
        assert forall|k: int| 0 <= k < kept.len() implies (#[trigger] kept[k]).params.len() == 0
            && target_args_empty(kept[k]) by {
            let at = position_taken(blocks, n, k);
            assert(blocks[at].params.len() == 0 && target_args_empty(blocks[at]));
            assert forall|i: int| 0 <= i < kept[k].term.targets().len() implies (
            #[trigger] kept[k].term.targets()[i]).args.len() == 0 by {
                assert(kept[k].term.targets()[i] == renumbered_target(
                    blocks[at].term.targets()[i],
                    flags,
                ));
                assert(blocks[at].term.targets()[i].args.len() == 0);
            }
        }
    }
}

/// Pruning adds nothing a function names.
pub proof fn pruning_keeps_known(
    function: FunctionView,
    limits: Limits,
    strings: nat,
    texts: nat,
)
    requires
        function_known(function, limits, strings, texts),
    ensures
        function_known(
            FunctionView { blocks: pruned(function.blocks), ..function },
            limits,
            strings,
            texts,
        ),
{
    let kept = pruned(function.blocks);
    assert forall|i: int, k: int|
        #![trigger kept[i].instrs[k]]
        0 <= i < kept.len() && 0 <= k < kept[i].instrs.len() implies instr_known(
        kept[i].instrs[k],
        limits,
        strings,
        texts,
    ) by {
        let at = position_taken(function.blocks, function.blocks.len() as int, i);
        assert(kept[i].instrs[k] == function.blocks[at].instrs[k]);
    }
}

} // verus!
