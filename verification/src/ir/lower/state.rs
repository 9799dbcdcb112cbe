//! A function while it is being built: its blocks, its registers, and what is
//! in scope where it stands.

use vstd::prelude::*;

use crate::ast::Ty;
use crate::ir::block::{instr_views, BlockKind, TermView, Terminator};
use crate::ir::deeds::is_deed;
use crate::ir::func::{call_matches, instr_known, leading, Limits};
use crate::ir::instr::{instr_within, Instr, InstrView};
use crate::ir::value::{value_within, BlockId, StrId, TextId, VReg, Value};
use crate::sema::Types;
use crate::text::{decimal_nat, text_views};

verus! {

// -- what lowering reads ----------------------------------------------------

/// What lowering one function reads and never changes.
pub struct Context<'a> {
    pub types: &'a Types,
    /// What each of the program's functions is called, in declaration order.
    pub names: &'a Vec<String>,
    /// The string variables of this function nothing else can be holding.
    pub owned: &'a Vec<String>,
}

/// A [`Context`] as what it says.
#[verifier::ext_equal]
pub struct ContextView {
    pub types: Types,
    pub names: Seq<Seq<char>>,
    pub owned: Set<Seq<char>>,
}

impl View for Context<'_> {
    type V = ContextView;

    open spec fn view(&self) -> ContextView {
        ContextView {
            types: *self.types,
            names: text_views(self.names@),
            owned: Set::new(|name: Seq<char>| among(self.owned@, name)),
        }
    }
}

/// Whether a list of names holds one.
pub open spec fn among(names: Seq<String>, name: Seq<char>) -> bool {
    exists|i: int| 0 <= i < names.len() && (#[trigger] names[i])@ == name
}

// -- what lowering builds ---------------------------------------------------

/// A block while it is still being filled in.
///
/// The terminator is an `Option` on purpose: "not decided yet" is a state
/// lowering really is in.
pub struct PendingBlock {
    pub kind: BlockKind,
    pub instrs: Vec<Instr>,
    pub term: Option<Terminator>,
    pub given: Ghost<Set<VReg>>,
}

/// A [`PendingBlock`] as what it says.
#[verifier::ext_equal]
pub struct PendingView {
    pub kind: BlockKind,
    pub instrs: Seq<InstrView>,
    pub term: Option<TermView>,
    /// The registers that hold something on every way into the block. A block that
    /// nothing gets to may be said to be given all of them.
    pub given: Set<VReg>,
}

impl View for PendingBlock {
    type V = PendingView;

    open spec fn view(&self) -> PendingView {
        PendingView {
            kind: self.kind,
            instrs: instr_views(self.instrs@),
            term: match self.term {
                Some(term) => Some(term@),
                None => None,
            },
            given: self.given@,
        }
    }
}

/// One open loop, and the blocks whose exit it still owes an answer.
///
/// A `break` knows where it is going only once the loop's `done` block exists,
/// and a `continue` only once it is settled whether the loop needs a step
/// block, both of which happen *after* the body has been lowered. So each jump
/// finishes its own block later.
pub struct LoopFrame {
    /// Blocks ending in a `break`, waiting for the loop's exit.
    pub breaks: Vec<BlockId>,
    /// Blocks ending in a `continue`, waiting for the loop's back edge.
    pub continues: Vec<BlockId>,
    pub base: Ghost<Set<VReg>>,
}

/// A [`LoopFrame`] as what it says.
#[verifier::ext_equal]
pub struct LoopView {
    pub breaks: Seq<BlockId>,
    pub continues: Seq<BlockId>,
    /// The registers that hold something all through the loop.
    pub base: Set<VReg>,
}

impl View for LoopFrame {
    type V = LoopView;

    open spec fn view(&self) -> LoopView {
        LoopView { breaks: self.breaks@, continues: self.continues@, base: self.base@ }
    }
}

/// A name, and the register and type it stands for.
#[derive(Debug)]
pub struct Binding {
    pub name: String,
    pub reg: VReg,
    pub ty: Ty,
}

/// A [`Binding`] as what it says.
#[verifier::ext_equal]
pub struct BindingView {
    pub name: Seq<char>,
    pub reg: VReg,
    pub ty: Ty,
}

impl View for Binding {
    type V = BindingView;

    open spec fn view(&self) -> BindingView {
        BindingView { name: self.name@, reg: self.reg, ty: self.ty }
    }
}

/// The literals every function shares.
#[derive(Debug)]
pub struct Strings {
    pub chars: Vec<Vec<char>>,
    pub texts: Vec<String>,
}

/// A function being built, as what it says.
#[verifier::ext_equal]
pub struct State {
    pub blocks: Seq<PendingView>,
    pub names: Seq<Seq<char>>,
    /// The block instructions are currently appended to.
    pub current: BlockId,
    /// What is in scope, innermost last.
    pub scopes: Seq<Seq<BindingView>>,
    /// The loops enclosing the statement being lowered, innermost last.
    pub loops: Seq<LoopView>,
    /// How much of the frame is in use here.
    pub frame_bytes: u32,
    /// The most that was ever in use at once.
    pub frame_peak: u32,
    /// Where a `return` copies to, for a function whose answer does not fit in
    /// a register.
    pub out_pointer: Option<VReg>,
    /// The names registers were asked to bear, in order.
    pub borne: Seq<Seq<char>>,
    pub strings: Seq<Seq<char>>,
    pub texts: Seq<Seq<char>>,
    /// What the whole program has.
    pub limits: Limits,
    /// The registers that hold a length and nothing else.
    pub lengths: Set<VReg>,
    /// The registers that have a name and are still to be filled by what it is declared
    /// with.
    pub unset: Set<VReg>,
    /// Whether every arm of a valued `match` that is a block was left before its end,
    /// no step of a loop declared anything, and no variable was read while it was being
    /// declared.
    pub settled: bool,
}

/// The registers that hold something once the first `n` instructions of a block
/// have run.
pub open spec fn held_after(given: Set<VReg>, instrs: Seq<InstrView>, n: int) -> Set<VReg>
    decreases n,
{
    if n <= 0 {
        given
    } else {
        let before = held_after(given, instrs, n - 1);
        match instrs[n - 1].written() {
            Some(reg) => before.insert(reg),
            None => before,
        }
    }
}

/// The registers that hold something at the end of a block.
#[verifier::opaque]
pub open spec fn held_by_end(block: PendingView) -> Set<VReg> {
    held_after(block.given, block.instrs, block.instrs.len() as int)
}

/// The registers that hold something at the end of the block at `at`.
pub open spec fn held_at(st: State, at: BlockId) -> Set<VReg> {
    held_by_end(st.blocks[at.0 as int])
}

/// The registers that hold something where instructions are appended.
pub open spec fn held_here(st: State) -> Set<VReg> {
    held_at(st, st.current)
}

/// The registers that hold something at the end of each of the first `n` of a run of
/// blocks.
pub open spec fn held_by_all(st: State, ids: Seq<BlockId>, n: int) -> Set<VReg>
    decreases n,
{
    if n <= 0 {
        Set::full()
    } else {
        held_by_all(st, ids, n - 1).intersect(held_at(st, ids[n - 1]))
    }
}

/// How many arguments each function is declared to take.
pub open spec fn declared_arities(types: Types, functions: nat) -> Seq<nat> {
    Seq::new(
        functions,
        |i: int| (types.params@[i]@.len() + leading(types.returns@[i])) as nat,
    )
}

/// What the program lowering reads has.
#[verifier::opaque]
pub open spec fn limits(cx: ContextView) -> Limits {
    Limits { arities: declared_arities(cx.types, cx.names.len()), table: cx.types.table }
}

// -- one step at a time -----------------------------------------------------

/// A new block, made current, with what it is given on every way in.
#[verifier::opaque]
pub open spec fn opened(st: State, kind: BlockKind, given: Set<VReg>) -> Option<
    (State, BlockId),
> {
    if st.blocks.len() < u32::MAX {
        let id = BlockId(st.blocks.len() as u32);
        Some(
            (
                State {
                    blocks: st.blocks.push(PendingView { kind, instrs: seq![], term: None, given }),
                    current: id,
                    ..st
                },
                id,
            ),
        )
    } else {
        None
    }
}

/// One more instruction in the current block.
#[verifier::opaque]
pub open spec fn emitted(st: State, instr: InstrView) -> State {
    let at = st.current.0 as int;
    State {
        blocks: st.blocks.update(
            at,
            PendingView { instrs: st.blocks[at].instrs.push(instr), ..st.blocks[at] },
        ),
        ..st
    }
}

/// A block with its ending decided.
#[verifier::opaque]
pub open spec fn ended(st: State, block: BlockId, term: TermView) -> State {
    let at = block.0 as int;
    State {
        blocks: st.blocks.update(at, PendingView { term: Some(term), ..st.blocks[at] }),
        ..st
    }
}

/// Another block made current.
pub open spec fn switched(st: State, block: BlockId) -> State {
    State { current: block, ..st }
}

/// How often a name has been borne.
pub open spec fn times_borne(borne: Seq<Seq<char>>, name: Seq<char>) -> nat
    decreases borne.len(),
{
    if borne.len() == 0 {
        0
    } else {
        times_borne(borne.drop_last(), name) + if borne.last() == name {
            1nat
        } else {
            0nat
        }
    }
}

/// What a register asked to bear a name is called: `i`, then `i.1`.
pub open spec fn label_of(borne: Seq<Seq<char>>, name: Seq<char>) -> Seq<char> {
    let count = times_borne(borne, name);
    if count == 0 {
        name
    } else {
        name + "."@ + decimal_nat(count)
    }
}

/// A register bearing a name.
#[verifier::opaque]
pub open spec fn named(st: State, name: Seq<char>) -> Option<(State, VReg)> {
    if st.names.len() < u32::MAX {
        Some(
            (
                State {
                    names: st.names.push(label_of(st.borne, name)),
                    borne: st.borne.push(name),
                    ..st
                },
                VReg(st.names.len() as u32),
            ),
        )
    } else {
        None
    }
}

/// A register named after its own number.
#[verifier::opaque]
pub open spec fn temp(st: State) -> Option<(State, VReg)> {
    if st.names.len() < u32::MAX {
        Some(
            (
                State { names: st.names.push("t"@ + decimal_nat(st.names.len())), ..st },
                VReg(st.names.len() as u32),
            ),
        )
    } else {
        None
    }
}

/// A register for a length, named after its own number.
#[verifier::opaque]
pub open spec fn measure(st: State) -> Option<(State, VReg)> {
    match temp(st) {
        Some((st, reg)) => Some((State { lengths: st.lengths.insert(reg), ..st }, reg)),
        None => None,
    }
}

/// A scope with one more binding in it.
pub open spec fn bound_in(scopes: Seq<Seq<BindingView>>, binding: BindingView) -> Seq<
    Seq<BindingView>,
> {
    scopes.update(scopes.len() - 1, scopes.last().push(binding))
}

/// A register given a name before it holds anything.
pub open spec fn announced(st: State, name: Seq<char>, reg: VReg, ty: Ty) -> State {
    State { unset: st.unset.insert(reg), ..called(st, name, reg, ty) }
}

/// After a register is read by its name. One that is still to be filled holds nothing.
pub open spec fn met(st: State, reg: VReg) -> State {
    State { settled: st.settled && !st.unset.contains(reg), ..st }
}

/// A register given a name in the innermost scope.
#[verifier::opaque]
pub open spec fn called(st: State, name: Seq<char>, reg: VReg, ty: Ty) -> State {
    State { scopes: bound_in(st.scopes, BindingView { name, reg, ty }), ..st }
}

/// The last binding of a name in one scope.
pub open spec fn bound_here(scope: Seq<BindingView>, name: Seq<char>) -> Option<(VReg, Ty)>
    decreases scope.len(),
{
    if scope.len() == 0 {
        None
    } else if scope.last().name == name {
        Some((scope.last().reg, scope.last().ty))
    } else {
        bound_here(scope.drop_last(), name)
    }
}

/// The innermost binding of a name.
pub open spec fn bound_among(scopes: Seq<Seq<BindingView>>, name: Seq<char>) -> Option<(VReg, Ty)>
    decreases scopes.len(),
{
    if scopes.len() == 0 {
        None
    } else {
        match bound_here(scopes.last(), name) {
            Some(found) => Some(found),
            None => bound_among(scopes.drop_last(), name),
        }
    }
}

/// What a name stands for.
#[verifier::opaque]
pub open spec fn bound(st: State, name: Seq<char>) -> Option<(VReg, Ty)> {
    bound_among(st.scopes, name)
}

/// A scope opened.
pub open spec fn entered(st: State) -> State {
    State { scopes: st.scopes.push(seq![]), ..st }
}

/// The innermost scope closed.
pub open spec fn left(st: State) -> State {
    State { scopes: st.scopes.drop_last(), ..st }
}

/// Room in the frame, its address in a register. Saturating: a total that
/// wrapped would look reasonable.
#[verifier::opaque]
pub open spec fn allocated(st: State, dst: VReg, bytes: u32) -> State {
    let used = if st.frame_bytes + bytes > u32::MAX {
        u32::MAX
    } else {
        (st.frame_bytes + bytes) as u32
    };
    emitted(
        State {
            frame_bytes: used,
            frame_peak: if used > st.frame_peak {
                used
            } else {
                st.frame_peak
            },
            ..st
        },
        InstrView::Frame { dst, offset: st.frame_bytes },
    )
}

/// Where an entry first occurs in a list, counting from `from`.
pub open spec fn first_at(list: Seq<Seq<char>>, entry: Seq<char>, from: nat) -> Option<nat>
    decreases list.len() - from,
{
    if from >= list.len() {
        None
    } else if list[from as int] == entry {
        Some(from)
    } else {
        first_at(list, entry, from + 1)
    }
}

/// A string literal's place among the program's.
#[verifier::opaque]
pub open spec fn interned(st: State, chars: Seq<char>) -> Option<(State, StrId)> {
    match first_at(st.strings, chars, 0) {
        Some(at) => Some((st, StrId(at as u32))),
        None => if st.strings.len() < u32::MAX {
            Some(
                (
                    State { strings: st.strings.push(chars), ..st },
                    StrId(st.strings.len() as u32),
                ),
            )
        } else {
            None
        },
    }
}

/// A run of text's place among the program's.
#[verifier::opaque]
pub open spec fn interned_text(st: State, text: Seq<char>) -> Option<(State, TextId)> {
    match first_at(st.texts, text, 0) {
        Some(at) => Some((st, TextId(at as u32))),
        None => if st.texts.len() < u32::MAX {
            Some((State { texts: st.texts.push(text), ..st }, TextId(st.texts.len() as u32)))
        } else {
            None
        },
    }
}

// -- what every state has in common -----------------------------------------

/// What there is for an instruction to name.
#[verifier::ext_equal]
pub struct Bounds {
    pub registers: nat,
    pub blocks: nat,
    pub strings: nat,
    pub texts: nat,
    pub limits: Limits,
    pub lengths: Set<VReg>,
}

/// What there is in a function being built.
pub open spec fn bounds(st: State) -> Bounds {
    Bounds {
        registers: st.names.len(),
        blocks: st.blocks.len(),
        strings: st.strings.len(),
        texts: st.texts.len(),
        limits: st.limits,
        lengths: st.lengths,
    }
}

/// Whether there is more of everything. A register that holds something else does
/// not come to hold a length.
pub open spec fn within(few: Bounds, many: Bounds) -> bool {
    &&& few.registers <= many.registers
    &&& few.blocks <= many.blocks
    &&& few.strings <= many.strings
    &&& few.texts <= many.texts
    &&& few.limits == many.limits
    &&& forall|reg: VReg| #[trigger]
        many.lengths.contains(reg) && reg.0 < few.registers ==> few.lengths.contains(reg)
    &&& forall|reg: VReg| few.lengths.contains(reg) ==> #[trigger] many.lengths.contains(reg)
}

/// Whether a register may be given a value worked out here.
pub open spec fn writable(st: State, reg: VReg) -> bool {
    reg.0 < st.names.len() && !st.lengths.contains(reg)
}

/// Whether a value is a length: one written down, or one in a register for it.
pub open spec fn is_length(value: Value, lengths: Set<VReg>) -> bool {
    match value {
        Value::Reg(reg) => lengths.contains(reg),
        Value::Const(_) => true,
    }
}

/// Whether an instruction leaves the registers for lengths to what asks for one, and
/// looks at an index against a length.
pub open spec fn minds_lengths(instr: InstrView, lengths: Set<VReg>) -> bool {
    &&& match instr.written() {
        Some(reg) => lengths.contains(reg) ==> is_deed(instr),
        None => true,
    }
    &&& instr matches InstrView::Elem { len, .. } ==> is_length(len, lengths)
}

/// Whether the functions, types and literals an instruction about to be emitted
/// names exist.
pub open spec fn emittable(instr: Instr, st: State) -> bool {
    &&& minds_lengths(instr@, st.lengths)
    &&& match instr {
        Instr::Call { callee, args, .. } => callee.0 < st.limits.arities.len() && args@.len()
            == st.limits.arities[callee.0 as int],
        Instr::VTable { class, .. } => st.limits.table.has_class(class),
        Instr::VariantAddr { id, tag, .. } => st.limits.table.has_enum(id) && tag
            < st.limits.table.enums@[id.0 as int].variants@.len(),
        Instr::StrAddr { id, .. } => id.0 < st.strings.len(),
        Instr::PrintText { id } => id.0 < st.texts.len(),
        Instr::Print { ty, .. } => st.limits.table.knows(ty),
        // What arrives, arrives at the top of the function and nowhere else.
        Instr::Param { .. } => false,
        _ => true,
    }
}

/// Whether an ending names only registers and blocks there are, and hands its
/// successors nothing.
pub open spec fn term_within(term: TermView, registers: nat, blocks: nat) -> bool {
    &&& forall|i: int|
        0 <= i < term.targets().len() ==> (#[trigger] term.targets()[i]).block.0 < blocks
            && term.targets()[i].args.len() == 0
    &&& forall|i: int|
        0 <= i < term.head().len() ==> value_within(#[trigger] term.head()[i], registers)
}

/// Whether a block being filled in names only what there is.
pub open spec fn pending_within(block: PendingView, there: Bounds) -> bool {
    &&& forall|i: int|
        0 <= i < block.instrs.len() ==> instr_within(#[trigger] block.instrs[i], there.registers)
            && instr_known(block.instrs[i], there.limits, there.strings, there.texts)
            && call_matches(block.instrs[i], there.limits) && minds_lengths(
            block.instrs[i],
            there.lengths,
        )
    &&& match block.term {
        Some(term) => term_within(term, there.registers, there.blocks),
        None => true,
    }
}

/// Whether a scope names only registers there are, none of them for a length.
pub open spec fn scope_within(scope: Seq<BindingView>, there: Bounds) -> bool {
    forall|i: int|
        0 <= i < scope.len() ==> (#[trigger] scope[i]).reg.0 < there.registers
            && !there.lengths.contains(scope[i].reg)
}

/// Whether every block of a list is one there is.
pub open spec fn ids_within(ids: Seq<BlockId>, blocks: nat) -> bool {
    forall|i: int| 0 <= i < ids.len() ==> (#[trigger] ids[i]).0 < blocks
}

// -- nothing is read before it is written -----------------------------------

/// Whether every register of a run of values is one of those that hold something.
pub open spec fn all_held(values: Seq<Value>, held: Set<VReg>) -> bool {
    forall|i: int|
        0 <= i < values.len() ==> match #[trigger] values[i] {
            Value::Reg(reg) => held.contains(reg),
            Value::Const(_) => true,
        }
}

/// Whether a block reads only what holds something by then, and what it is followed
/// by is given no more than it leaves.
pub open spec fn block_filled(block: PendingView, blocks: Seq<PendingView>) -> bool {
    &&& forall|i: int|
        0 <= i < block.instrs.len() ==> all_held(
            (#[trigger] block.instrs[i]).operands(),
            held_after(block.given, block.instrs, i),
        )
    &&& match block.term {
        Some(term) => {
            &&& all_held(term.head(), held_by_end(block))
            &&& forall|k: int|
                0 <= k < term.targets().len() ==> (#[trigger] term.targets()[k]).block.0
                    < blocks.len() && blocks[term.targets()[k].block.0 as int].given.subset_of(
                    held_by_end(block),
                )
        },
        None => true,
    }
}

/// Whether every block of a list leaves so much.
pub open spec fn ids_leave(ids: Seq<BlockId>, blocks: Seq<PendingView>, base: Set<VReg>) -> bool {
    forall|i: int|
        0 <= i < ids.len() ==> (#[trigger] ids[i]).0 < blocks.len() && base.subset_of(
            held_by_end(blocks[ids[i].0 as int]),
        )
}

/// Whether what is in scope, what a `return` writes through and what holds all
/// through the loops around is among some registers.
#[verifier::opaque]
pub open spec fn rests_on(
    scopes: Seq<Seq<BindingView>>,
    loops: Seq<LoopView>,
    out_pointer: Option<VReg>,
    unset: Set<VReg>,
    held: Set<VReg>,
) -> bool {
    &&& forall|i: int, k: int|
        #![trigger scopes[i][k]]
        0 <= i < scopes.len() && 0 <= k < scopes[i].len() ==> held.contains(scopes[i][k].reg)
            || unset.contains(scopes[i][k].reg)
    &&& forall|i: int| 0 <= i < loops.len() ==> (#[trigger] loops[i]).base.subset_of(held)
    &&& match out_pointer {
        Some(reg) => held.contains(reg),
        None => true,
    }
}

/// Whether the blocks of a function read only what holds something by then.
#[verifier::opaque]
pub open spec fn blocks_filled(blocks: Seq<PendingView>) -> bool {
    forall|b: int| 0 <= b < blocks.len() ==> block_filled(#[trigger] blocks[b], blocks)
}

/// Whether the blocks that wait for a loop leave what holds all through it.
#[verifier::opaque]
pub open spec fn loops_filled(loops: Seq<LoopView>, blocks: Seq<PendingView>) -> bool {
    forall|i: int|
        0 <= i < loops.len() ==> ids_leave(
            (#[trigger] loops[i]).breaks,
            blocks,
            loops[i].base,
        ) && ids_leave(loops[i].continues, blocks, loops[i].base)
}

/// Whether nothing in a function being built is read before it is written.
pub open spec fn filled(st: State) -> bool {
    &&& blocks_filled(st.blocks)
    &&& loops_filled(st.loops, st.blocks)
    &&& rests_on(st.scopes, st.loops, st.out_pointer, st.unset, held_here(st))
}

/// Whether a register holds something here, in a function that is settled so far.
pub open spec fn is_set(st: State, reg: VReg) -> bool {
    st.settled ==> held_here(st).contains(reg)
}

/// Whether a value can be read here.
pub open spec fn has(st: State, value: Value) -> bool {
    &&& value_within(value, st.names.len())
    &&& match value {
        Value::Reg(reg) => is_set(st, reg),
        Value::Const(_) => true,
    }
}

/// Whether a value can be read at the end of a block.
pub open spec fn has_at(st: State, at: BlockId, value: Value) -> bool {
    &&& value_within(value, st.names.len())
    &&& match value {
        Value::Reg(reg) => st.settled ==> held_at(st, at).contains(reg),
        Value::Const(_) => true,
    }
}

/// What holds of a function at every moment of its building: it has a current
/// block, and everything it names exists.
#[verifier::opaque]
pub open spec fn sound(st: State) -> bool {
    &&& st.current.0 < st.blocks.len() <= u32::MAX
    &&& st.names.len() <= u32::MAX
    &&& st.scopes.len() > 0
    &&& forall|i: int|
        0 <= i < st.blocks.len() ==> pending_within(#[trigger] st.blocks[i], bounds(st))
    &&& st.strings.len() <= u32::MAX
    &&& st.texts.len() <= u32::MAX
    &&& forall|i: int|
        0 <= i < st.scopes.len() ==> scope_within(#[trigger] st.scopes[i], bounds(st))
    &&& forall|reg: VReg| #[trigger] st.lengths.contains(reg) ==> reg.0 < st.names.len()
    &&& forall|i: int|
        0 <= i < st.loops.len() ==> ids_within((#[trigger] st.loops[i]).breaks, st.blocks.len())
            && ids_within(st.loops[i].continues, st.blocks.len())
    &&& match st.out_pointer {
        Some(reg) => reg.0 < st.names.len(),
        None => true,
    }
    &&& st.settled ==> filled(st)
}

/// Whether every block leaves what it did.
pub open spec fn same_ends(before: State, after: State) -> bool {
    forall|i: int|
        0 <= i < before.blocks.len() ==> (#[trigger] after.blocks[i]).given
            == before.blocks[i].given && held_by_end(after.blocks[i]) == held_by_end(
            before.blocks[i],
        )
}

/// What holds from any moment of a function's building to any later one: nothing
/// made goes away.
pub open spec fn kept(before: State, after: State) -> bool {
    &&& sound(after)
    &&& before.names.len() <= after.names.len()
    &&& before.blocks.len() <= after.blocks.len()
    &&& before.scopes.len() == after.scopes.len()
    &&& before.scopes.drop_last() == after.scopes.drop_last()
    &&& after.settled ==> before.settled
    &&& forall|i: int|
        0 <= i < before.blocks.len() ==> (#[trigger] after.blocks[i]).given
            == before.blocks[i].given && held_by_end(before.blocks[i]).subset_of(
            held_by_end(after.blocks[i]),
        )
    &&& forall|i: int|
        0 <= i < before.loops.len() ==> (#[trigger] after.loops[i]).base == before.loops[i].base
    &&& before.loops.len() == after.loops.len()
    &&& before.out_pointer == after.out_pointer
    &&& before.limits == after.limits
    &&& before.strings.len() <= after.strings.len()
    &&& before.texts.len() <= after.texts.len()
    &&& forall|reg: VReg| #[trigger]
        after.lengths.contains(reg) && reg.0 < before.names.len() ==> before.lengths.contains(reg)
    &&& forall|reg: VReg| before.lengths.contains(reg) ==> #[trigger] after.lengths.contains(reg)
}

/// The instructions of a run that take a parameter, in order.
pub open spec fn params_among(instrs: Seq<InstrView>) -> Seq<InstrView>
    decreases instrs.len(),
{
    if instrs.len() == 0 {
        seq![]
    } else {
        let rest = params_among(instrs.drop_last());
        if instrs.last() is Param {
            rest.push(instrs.last())
        } else {
            rest
        }
    }
}

/// The parameters taken in the entry block.
#[verifier::opaque]
pub open spec fn arrivals(blocks: Seq<PendingView>) -> Seq<InstrView> {
    if blocks.len() == 0 {
        seq![]
    } else {
        params_among(blocks[0].instrs)
    }
}

/// Whether the argument at `index` is among the parameters taken.
pub open spec fn arrives_among(taken: Seq<InstrView>, index: int) -> bool {
    exists|k: int| 0 <= k < taken.len() && #[trigger] taken[k]->Param_index == index
}

/// What holds from any moment of a body's building to any later one at the same
/// depth: nothing made goes away, and no parameter is taken.
pub open spec fn stands(before: State, after: State) -> bool {
    &&& kept(before, after)
    &&& arrivals(before.blocks) == arrivals(after.blocks)
    &&& before.unset == after.unset
}

/// The same, where what holds something goes on doing so.
pub open spec fn goes_on(before: State, after: State) -> bool {
    &&& stands(before, after)
    &&& forall|reg: VReg|
        after.settled && held_here(before).contains(reg) ==> #[trigger] held_here(after).contains(
            reg,
        )
}

/// The same, where nothing more is in scope.
pub open spec fn follows(before: State, after: State) -> bool {
    &&& goes_on(before, after)
    &&& before.scopes == after.scopes
}

// -- how it stays so --------------------------------------------------------

/// What is in scope holds something.
pub proof fn here_rests(st: State)
    requires
        sound(st),
    ensures
        st.settled ==> rests_on(st.scopes, st.loops, st.out_pointer, st.unset, held_here(st)),
        st.current.0 < st.blocks.len(),
{
    reveal(sound);
}

/// What goes on in a scope of its own leaves no more in scope once that is closed.
pub proof fn scope_closes(before: State, inside: State)
    requires
        goes_on(entered(before), inside),
        sound(left(inside)),
    ensures
        follows(before, left(inside)),
{
    let after = left(inside);
    assert(entered(before).scopes.drop_last() =~= before.scopes);
    assert(after.scopes == before.scopes);
    assert forall|reg: VReg|
        after.settled && held_here(before).contains(reg) implies #[trigger] held_here(
        after,
    ).contains(reg) by {
        assert(held_here(entered(before)) == held_here(before));
        assert(held_here(inside).contains(reg));
    }
}

/// What was in scope still is.
pub proof fn still_rests(before: State, after: State, held: Set<VReg>)
    requires
        kept(before, after),
        after.settled ==> before.scopes == after.scopes && before.unset == after.unset,
    ensures
        after.settled && rests_on(before.scopes, before.loops, before.out_pointer, before.unset, held)
            ==> rests_on(after.scopes, after.loops, after.out_pointer, after.unset, held),
{
    reveal(rests_on);
    if after.settled && rests_on(before.scopes, before.loops, before.out_pointer, before.unset, held) {
        assert forall|i: int| 0 <= i < after.loops.len() implies (
        #[trigger] after.loops[i]).base.subset_of(held) by {
            assert(before.loops[i].base.subset_of(held));
        }
    }
}

/// What goes on between a name's being announced and what it names being filled.
pub proof fn declaring_goes_on(before: State, named: State, open: State, done: State)
    requires
        goes_on(before, named),
        kept(named, open),
        arrivals(named.blocks) == arrivals(open.blocks),
        held_here(named) == held_here(open),
        goes_on(open, done),
        sound(State { unset: named.unset, ..done }),
    ensures
        goes_on(before, (State { unset: named.unset, ..done })),
{
    let after = State { unset: named.unset, ..done };
    assert forall|reg: VReg|
        after.settled && held_here(before).contains(reg) implies #[trigger] held_here(
        after,
    ).contains(reg) by {
        assert(held_here(named).contains(reg));
        assert(held_here(done).contains(reg));
    }
}

/// Everything is among all there is.
pub proof fn all_rest(st: State)
    ensures
        rests_on(st.scopes, st.loops, st.out_pointer, st.unset, Set::full()),
{
    reveal(rests_on);
}

pub proof fn ids_still_leave(ids: Seq<BlockId>, before: State, after: State, base: Set<VReg>)
    requires
        kept(before, after),
        ids_within(ids, before.blocks.len()),
    ensures
        ids_leave(ids, before.blocks, base) ==> ids_leave(ids, after.blocks, base),
{
    if ids_leave(ids, before.blocks, base) {
        assert forall|i: int| 0 <= i < ids.len() implies base.subset_of(
            held_by_end(after.blocks[(#[trigger] ids[i]).0 as int]),
        ) by {
            let b = ids[i].0 as int;
            assert(after.blocks[b].given == before.blocks[b].given);
        }
    }
}

/// Whether a register holds something at the end of every block of a list.
pub open spec fn ids_contain(ids: Seq<BlockId>, st: State, reg: VReg) -> bool {
    forall|i: int| 0 <= i < ids.len() ==> held_at(st, #[trigger] ids[i]).contains(reg)
}

pub proof fn ids_still_contain(ids: Seq<BlockId>, before: State, after: State, reg: VReg)
    requires
        kept(before, after),
        ids_within(ids, before.blocks.len()),
    ensures
        ids_contain(ids, before, reg) ==> ids_contain(ids, after, reg),
{
    if ids_contain(ids, before, reg) {
        assert forall|i: int| 0 <= i < ids.len() implies held_at(
            after,
            #[trigger] ids[i],
        ).contains(reg) by {
            let b = ids[i].0 as int;
            assert(after.blocks[b].given == before.blocks[b].given);
            assert(held_at(before, ids[i]).contains(reg));
        }
    }
}

pub proof fn all_hold(st: State, ids: Seq<BlockId>, n: int, known: Set<VReg>)
    requires
        0 <= n <= ids.len(),
        ids_leave(ids, st.blocks, known),
    ensures
        known.subset_of(held_by_all(st, ids, n)),
    decreases n,
{
    if n > 0 {
        all_hold(st, ids, n - 1, known);
        assert(known.subset_of(held_by_end(st.blocks[ids[n - 1].0 as int])));
    }
}

pub proof fn all_contain(st: State, ids: Seq<BlockId>, n: int, reg: VReg)
    requires
        0 <= n <= ids.len(),
        ids_contain(ids, st, reg),
    ensures
        held_by_all(st, ids, n).contains(reg),
    decreases n,
{
    if n > 0 {
        all_contain(st, ids, n - 1, reg);
        assert(held_at(st, ids[n - 1]).contains(reg));
    }
}

pub proof fn one_of_all(st: State, ids: Seq<BlockId>, n: int, i: int)
    requires
        0 <= i < n <= ids.len(),
    ensures
        held_by_all(st, ids, n).subset_of(held_at(st, ids[i])),
    decreases n,
{
    if i < n - 1 {
        one_of_all(st, ids, n - 1, i);
    }
}

/// What comes after an instruction does not matter to what holds before it.
pub proof fn held_before_more(given: Set<VReg>, a: Seq<InstrView>, b: Seq<InstrView>, n: int)
    requires
        0 <= n <= a.len(),
        n <= b.len(),
        forall|i: int| 0 <= i < n ==> (#[trigger] a[i]).written() == b[i].written(),
    ensures
        held_after(given, a, n) == held_after(given, b, n),
    decreases n,
{
    if n > 0 {
        held_before_more(given, a, b, n - 1);
        assert(a[n - 1].written() == b[n - 1].written());
    }
}

/// What a block was given it goes on holding.
pub proof fn given_is_held(given: Set<VReg>, instrs: Seq<InstrView>, n: int)
    ensures
        given.subset_of(held_after(given, instrs, n)),
    decreases n,
{
    if n > 0 {
        given_is_held(given, instrs, n - 1);
    }
}

/// A smaller set rests on a larger one.
pub proof fn rests_on_more(
    scopes: Seq<Seq<BindingView>>,
    loops: Seq<LoopView>,
    out_pointer: Option<VReg>,
    unset: Set<VReg>,
    held: Set<VReg>,
    more: Set<VReg>,
)
    requires
        rests_on(scopes, loops, out_pointer, unset, held),
        held.subset_of(more),
    ensures
        rests_on(scopes, loops, out_pointer, unset, more),
{
    reveal(rests_on);
}

/// One more instruction that reads what holds something.
pub proof fn emitting_keeps_filled(st: State, instr: InstrView)
    requires
        st.current.0 < st.blocks.len(),
        st.settled ==> filled(st) && all_held(instr.operands(), held_here(st)),
    ensures
        st.settled ==> filled(emitted(st, instr)),
        held_here(st).subset_of(held_here(emitted(st, instr))),
        forall|i: int|
            0 <= i < st.blocks.len() ==> (#[trigger] emitted(st, instr).blocks[i]).given
                == st.blocks[i].given && held_by_end(st.blocks[i]).subset_of(
                held_by_end(emitted(st, instr).blocks[i]),
            ),
        match instr.written() {
            Some(reg) => held_here(emitted(st, instr)).contains(reg),
            None => true,
        },
{
    reveal(emitted);
    reveal(held_by_end);
    let at = st.current.0 as int;
    let after = emitted(st, instr);
    let block = st.blocks[at];
    let longer = after.blocks[at];
    let n = block.instrs.len() as int;
    held_before_more(block.given, block.instrs, longer.instrs, n);
    assert(longer.instrs[n] == instr);
    assert(held_after(block.given, longer.instrs, n + 1) == match instr.written() {
        Some(reg) => held_after(block.given, longer.instrs, n).insert(reg),
        None => held_after(block.given, longer.instrs, n),
    });
    if st.settled {
        reveal(blocks_filled);
        reveal(loops_filled);
        reveal(rests_on);
        assert(block_filled(st.blocks[at], st.blocks));
        assert forall|b: int| 0 <= b < after.blocks.len() implies block_filled(
            #[trigger] after.blocks[b],
            after.blocks,
        ) by {
            let old_block = st.blocks[b];
            let new_block = after.blocks[b];
            assert(block_filled(st.blocks[b], st.blocks));
            assert forall|i: int| 0 <= i < new_block.instrs.len() implies all_held(
                (#[trigger] new_block.instrs[i]).operands(),
                held_after(new_block.given, new_block.instrs, i),
            ) by {
                if i < old_block.instrs.len() {
                    assert(new_block.instrs[i] == old_block.instrs[i]);
                    held_before_more(old_block.given, old_block.instrs, new_block.instrs, i);
                }
            }
            if let Some(term) = new_block.term {
                assert forall|k: int| 0 <= k < term.targets().len() implies (#[trigger] term.targets()[k]).block.0
                    < after.blocks.len() && after.blocks[term.targets()[k].block.0 as int].given.subset_of(
                    held_by_end(new_block),
                ) by {
                    let to = term.targets()[k].block.0 as int;
                    assert(after.blocks[to].given == st.blocks[to].given);
                }
            }
        }
        assert forall|i: int| 0 <= i < after.loops.len() implies ids_leave(
            (#[trigger] after.loops[i]).breaks,
            after.blocks,
            after.loops[i].base,
        ) && ids_leave(after.loops[i].continues, after.blocks, after.loops[i].base) by {
            assert(ids_leave(st.loops[i].breaks, st.blocks, st.loops[i].base));
            assert(ids_leave(st.loops[i].continues, st.blocks, st.loops[i].base));
        }
    }
}

/// Whether an ending reads what holds something at the end of its block, and leads
/// where no more is given.
pub open spec fn ends_well(st: State, block: BlockId, term: TermView) -> bool {
    &&& all_held(term.head(), held_at(st, block))
    &&& forall|k: int|
        0 <= k < term.targets().len() ==> st.blocks[(
        #[trigger] term.targets()[k]).block.0 as int].given.subset_of(held_at(st, block))
}

/// An ending that reads what holds something and leads where no more is given.
pub proof fn ending_keeps_filled(st: State, block: BlockId, term: TermView)
    requires
        block.0 < st.blocks.len(),
        st.current.0 < st.blocks.len(),
        forall|k: int|
            0 <= k < term.targets().len() ==> (#[trigger] term.targets()[k]).block.0
                < st.blocks.len(),
        st.settled ==> filled(st) && ends_well(st, block, term),
    ensures
        st.settled ==> filled(ended(st, block, term)),
        held_here(ended(st, block, term)) == held_here(st),
        forall|i: int|
            0 <= i < st.blocks.len() ==> (#[trigger] ended(st, block, term).blocks[i]).given
                == st.blocks[i].given && held_by_end(ended(st, block, term).blocks[i])
                == held_by_end(st.blocks[i]),
{
    reveal(ended);
    reveal(held_by_end);
    let after = ended(st, block, term);
    if st.settled {
        reveal(blocks_filled);
        reveal(loops_filled);
        reveal(rests_on);
        assert forall|b: int| 0 <= b < after.blocks.len() implies block_filled(
            #[trigger] after.blocks[b],
            after.blocks,
        ) by {
            assert(block_filled(st.blocks[b], st.blocks));
            let new_block = after.blocks[b];
            if let Some(last) = new_block.term {
                assert forall|k: int| 0 <= k < last.targets().len() implies (#[trigger] last.targets()[k]).block.0
                    < after.blocks.len() && after.blocks[last.targets()[k].block.0 as int].given.subset_of(
                    held_by_end(new_block),
                ) by {
                    let to = last.targets()[k].block.0 as int;
                    assert(after.blocks[to].given == st.blocks[to].given);
                }
            }
        }
        assert forall|i: int| 0 <= i < after.loops.len() implies ids_leave(
            (#[trigger] after.loops[i]).breaks,
            after.blocks,
            after.loops[i].base,
        ) && ids_leave(after.loops[i].continues, after.blocks, after.loops[i].base) by {
            assert(ids_leave(st.loops[i].breaks, st.blocks, st.loops[i].base));
            assert(ids_leave(st.loops[i].continues, st.blocks, st.loops[i].base));
        }
    }
}

/// One instruction in place of another that reads and writes the same.
pub proof fn rewriting_keeps_filled(before: State, after: State, at: int, k: int)
    requires
        0 <= at < before.blocks.len(),
        0 <= k < before.blocks[at].instrs.len(),
        after.current == before.current,
        after.scopes == before.scopes,
        after.loops == before.loops,
        after.out_pointer == before.out_pointer,
        after.unset == before.unset,
        after.blocks.len() == before.blocks.len(),
        forall|i: int|
            0 <= i < before.blocks.len() && i != at ==> #[trigger] after.blocks[i]
                == before.blocks[i],
        after.blocks[at].given == before.blocks[at].given,
        after.blocks[at].term == before.blocks[at].term,
        after.blocks[at].instrs.len() == before.blocks[at].instrs.len(),
        forall|i: int|
            0 <= i < before.blocks[at].instrs.len() && i != k ==> #[trigger] after.blocks[at].instrs[i]
                == before.blocks[at].instrs[i],
        after.blocks[at].instrs[k].written() == before.blocks[at].instrs[k].written(),
        after.blocks[at].instrs[k].operands() == before.blocks[at].instrs[k].operands(),
        before.current.0 < before.blocks.len(),
    ensures
        filled(before) ==> filled(after),
        forall|i: int|
            0 <= i < before.blocks.len() ==> held_by_end(#[trigger] after.blocks[i])
                == held_by_end(before.blocks[i]),
{
    reveal(held_by_end);
    let old_block = before.blocks[at];
    let new_block = after.blocks[at];
    let n = old_block.instrs.len() as int;
    assert forall|i: int| 0 <= i < n implies (#[trigger] old_block.instrs[i]).written()
        == new_block.instrs[i].written() by {
        if i != k {
            assert(new_block.instrs[i] == old_block.instrs[i]);
        }
    }
    held_before_more(old_block.given, old_block.instrs, new_block.instrs, n);
    if filled(before) {
        reveal(blocks_filled);
        reveal(loops_filled);
        assert forall|b: int| 0 <= b < after.blocks.len() implies block_filled(
            #[trigger] after.blocks[b],
            after.blocks,
        ) by {
            assert(block_filled(before.blocks[b], before.blocks));
            if b == at {
                assert forall|i: int| 0 <= i < n implies all_held(
                    (#[trigger] new_block.instrs[i]).operands(),
                    held_after(new_block.given, new_block.instrs, i),
                ) by {
                    held_before_more(old_block.given, old_block.instrs, new_block.instrs, i);
                    assert(all_held(
                        old_block.instrs[i].operands(),
                        held_after(old_block.given, old_block.instrs, i),
                    ));
                }
            }
            let block = after.blocks[b];
            if let Some(term) = block.term {
                assert forall|j: int| 0 <= j < term.targets().len() implies (#[trigger] term.targets()[j]).block.0
                    < after.blocks.len() && after.blocks[term.targets()[j].block.0 as int].given.subset_of(
                    held_by_end(block),
                ) by {
                    let to = term.targets()[j].block.0 as int;
                    assert(after.blocks[to].given == before.blocks[to].given);
                }
            }
        }
        assert forall|i: int| 0 <= i < after.loops.len() implies ids_leave(
            (#[trigger] after.loops[i]).breaks,
            after.blocks,
            after.loops[i].base,
        ) && ids_leave(after.loops[i].continues, after.blocks, after.loops[i].base) by {
            assert(ids_leave(before.loops[i].breaks, before.blocks, before.loops[i].base));
            assert(ids_leave(before.loops[i].continues, before.blocks, before.loops[i].base));
        }
    }
}

/// A new block with enough on every way in.
pub proof fn opening_keeps_filled(st: State, kind: BlockKind, given: Set<VReg>)
    requires
        opened(st, kind, given) is Some,
        forall|i: int|
            0 <= i < st.blocks.len() ==> match (#[trigger] st.blocks[i]).term {
                Some(term) => forall|k: int|
                    0 <= k < term.targets().len() ==> (#[trigger] term.targets()[k]).block.0
                        < st.blocks.len(),
                None => true,
            },
        forall|i: int|
            0 <= i < st.loops.len() ==> ids_within((#[trigger] st.loops[i]).breaks, st.blocks.len())
                && ids_within(st.loops[i].continues, st.blocks.len()),
        st.settled ==> blocks_filled(st.blocks) && loops_filled(st.loops, st.blocks) && rests_on(
            st.scopes,
            st.loops,
            st.out_pointer,
            st.unset,
            given,
        ),
    ensures
        st.settled ==> filled((opened(st, kind, given)->0).0),
        held_here((opened(st, kind, given)->0).0) == given,
{
    reveal(opened);
    reveal(held_by_end);
    let after = (opened(st, kind, given)->0).0;
    if st.settled {
        reveal(blocks_filled);
        reveal(loops_filled);
        assert forall|b: int| 0 <= b < after.blocks.len() implies block_filled(
            #[trigger] after.blocks[b],
            after.blocks,
        ) by {
            if b < st.blocks.len() {
                assert(block_filled(st.blocks[b], st.blocks));
                let block = after.blocks[b];
                if let Some(term) = block.term {
                    assert forall|k: int| 0 <= k < term.targets().len() implies (#[trigger] term.targets()[k]).block.0
                        < after.blocks.len() && after.blocks[term.targets()[k].block.0 as int].given.subset_of(
                        held_by_end(block),
                    ) by {
                        let to = term.targets()[k].block.0 as int;
                        assert(st.blocks[b].term is Some);
                        assert(after.blocks[to] == st.blocks[to]);
                    }
                }
            }
        }
        assert forall|i: int| 0 <= i < after.loops.len() implies ids_leave(
            (#[trigger] after.loops[i]).breaks,
            after.blocks,
            after.loops[i].base,
        ) && ids_leave(after.loops[i].continues, after.blocks, after.loops[i].base) by {
            assert(ids_leave(st.loops[i].breaks, st.blocks, st.loops[i].base));
            assert(ids_leave(st.loops[i].continues, st.blocks, st.loops[i].base));
            assert(ids_within(st.loops[i].breaks, st.blocks.len()));
            assert(ids_within(st.loops[i].continues, st.blocks.len()));
        }
    }
}

/// Changing what is not about parameters leaves what arrives.
pub proof fn arrivals_stay(before: Seq<PendingView>, after: Seq<PendingView>, at: int)
    requires
        0 <= at < before.len(),
        after.len() == before.len(),
        forall|i: int| 0 <= i < before.len() && i != at ==> before[i] == #[trigger] after[i],
        params_among(before[at].instrs) == params_among(after[at].instrs),
    ensures
        arrivals(before) == arrivals(after),
{
    reveal(arrivals);
}

} // verus!
