//! Building a function, one step at a time.

use vstd::prelude::*;

use crate::ast::Ty;
use crate::ir::block::{instr_views, BlockKind, Terminator};
use crate::ir::func::{call_matches, instr_known, literal_views, Limits};
use crate::ir::instr::{instr_within, Instr, InstrView};
use crate::ir::lower::state::{
    all_held, allocated, announced, arrivals, arrivals_stay, blocks_filled, bound, bound_among,
    bound_here, bounds, called, emittable, emitted, emitting_keeps_filled, ended,
    ending_keeps_filled, ends_well, entered, first_at, follows, goes_on, has, held_at, held_by_end,
    held_here, ids_leave, ids_within, interned, interned_text, is_set, kept, left, loops_filled,
    measure, minds_lengths, named, opened, opening_keeps_filled, pending_within, rests_on,
    rewriting_keeps_filled, scope_within, sound, stands, switched, temp, term_within, times_borne,
    within, writable, Binding, BindingView, Bounds, LoopFrame, LoopView, PendingBlock, PendingView,
    State, Strings,
};
use crate::ir::value::{value_within, BlockId, StrId, TextId, VReg, Value};
use crate::text::{push_decimal_u64, text_views};

verus! {

/// A function being built.
pub struct Lowering {
    blocks: Vec<PendingBlock>,
    vreg_names: Vec<String>,
    current: BlockId,
    scopes: Vec<Vec<Binding>>,
    loops: Vec<LoopFrame>,
    frame_bytes: u32,
    frame_peak: u32,
    out_pointer: Option<VReg>,
    borne: Vec<String>,
    strings: Strings,
    limits: Ghost<Limits>,
    lengths: Ghost<Set<VReg>>,
    settled: Ghost<bool>,
    unset: Ghost<Set<VReg>>,
}

/// What each of a run of unfinished blocks says.
pub open spec fn pending_views(blocks: Seq<PendingBlock>) -> Seq<PendingView> {
    blocks.map_values(|block: PendingBlock| block@)
}

/// What each binding of a scope says.
pub open spec fn binding_views(scope: Seq<Binding>) -> Seq<BindingView> {
    scope.map_values(|binding: Binding| binding@)
}

/// What each of a run of scopes says.
pub open spec fn scope_views(scopes: Seq<Vec<Binding>>) -> Seq<Seq<BindingView>> {
    scopes.map_values(|scope: Vec<Binding>| binding_views(scope@))
}

/// What each of a run of open loops says.
pub open spec fn loop_views(loops: Seq<LoopFrame>) -> Seq<LoopView> {
    loops.map_values(|frame: LoopFrame| frame@)
}

impl View for Lowering {
    type V = State;

    closed spec fn view(&self) -> State {
        State {
            blocks: pending_views(self.blocks@),
            names: text_views(self.vreg_names@),
            current: self.current,
            scopes: scope_views(self.scopes@),
            loops: loop_views(self.loops@),
            frame_bytes: self.frame_bytes,
            frame_peak: self.frame_peak,
            out_pointer: self.out_pointer,
            borne: text_views(self.borne@),
            strings: literal_views(self.strings.chars@),
            texts: text_views(self.strings.texts@),
            limits: self.limits@,
            lengths: self.lengths@,
            settled: self.settled@,
            unset: self.unset@,
        }
    }
}

/// A function before anything is in it.
pub open spec fn blank(strings: Seq<Seq<char>>, texts: Seq<Seq<char>>, limits: Limits) -> State {
    State {
        blocks: seq![],
        names: seq![],
        current: BlockId(0),
        scopes: seq![seq![]],
        loops: seq![],
        frame_bytes: 0,
        frame_peak: 0,
        out_pointer: None,
        borne: seq![],
        strings,
        texts,
        limits,
        lengths: Set::empty(),
        settled: true,
        unset: Set::empty(),
    }
}

proof fn pending_grows(block: PendingView, few: Bounds, many: Bounds)
    requires
        pending_within(block, few),
        within(few, many),
    ensures
        pending_within(block, many),
{
    assert forall|i: int| 0 <= i < block.instrs.len() implies instr_within(
        #[trigger] block.instrs[i],
        many.registers,
    ) && instr_known(block.instrs[i], many.limits, many.strings, many.texts) && call_matches(
        block.instrs[i],
        many.limits,
    ) && minds_lengths(block.instrs[i], many.lengths) by {
        let instr = block.instrs[i];
        assert(instr_within(instr, few.registers));
        assert forall|j: int| 0 <= j < instr.operands().len() implies value_within(
            #[trigger] instr.operands()[j],
            many.registers,
        ) by {
            assert(value_within(instr.operands()[j], few.registers));
        }
    }
    if let Some(term) = block.term {
        assert forall|j: int| 0 <= j < term.head().len() implies value_within(
            #[trigger] term.head()[j],
            many.registers,
        ) by {
            assert(value_within(term.head()[j], few.registers));
        }
    }
}

/// Everything a sound state names still exists when there is more.
proof fn sound_grows(st: State, many: Bounds)
    requires
        sound(st) || (st.blocks.len() == 0 && st.loops.len() == 0 && st.names.len() == 0
            && st.scopes == seq![Seq::<BindingView>::empty()] && st.out_pointer is None),
        within(bounds(st), many),
    ensures
        forall|i: int|
            0 <= i < st.blocks.len() ==> pending_within(#[trigger] st.blocks[i], many),
        forall|i: int|
            0 <= i < st.scopes.len() ==> scope_within(#[trigger] st.scopes[i], many),
        forall|i: int|
            0 <= i < st.loops.len() ==> ids_within((#[trigger] st.loops[i]).breaks, many.blocks)
                && ids_within(st.loops[i].continues, many.blocks),
{
    reveal(sound);
    assert forall|i: int| 0 <= i < st.blocks.len() implies pending_within(
        #[trigger] st.blocks[i],
        many,
    ) by {
        pending_grows(st.blocks[i], bounds(st), many);
    }
    assert forall|i: int| 0 <= i < st.scopes.len() implies scope_within(
        #[trigger] st.scopes[i],
        many,
    ) by {
        if st.blocks.len() > 0 {
            assert(scope_within(st.scopes[i], bounds(st)));
        }
    }
    assert forall|i: int| 0 <= i < st.loops.len() implies ids_within(
        (#[trigger] st.loops[i]).breaks,
        many.blocks,
    ) && ids_within(st.loops[i].continues, many.blocks) by {
        assert(ids_within(st.loops[i].breaks, st.blocks.len()));
        assert(ids_within(st.loops[i].continues, st.blocks.len()));
    }
}

proof fn bound_here_within(scope: Seq<BindingView>, name: Seq<char>, there: Bounds)
    requires
        scope_within(scope, there),
    ensures
        match bound_here(scope, name) {
            Some((reg, _)) => reg.0 < there.registers && !there.lengths.contains(reg),
            None => true,
        },
    decreases scope.len(),
{
    if scope.len() > 0 {
        assert(scope[scope.len() - 1].reg.0 < there.registers);
        assert(scope_within(scope.drop_last(), there)) by {
            assert forall|i: int| 0 <= i < scope.drop_last().len() implies (
            #[trigger] scope.drop_last()[i]).reg.0 < there.registers && !there.lengths.contains(
                scope.drop_last()[i].reg,
            ) by {
                assert(scope[i].reg.0 < there.registers);
            }
        }
        bound_here_within(scope.drop_last(), name, there);
    }
}

impl Lowering {
    /// A function with nothing in it yet, given the literals found so far.
    pub fn empty(strings: Strings, limits: Ghost<Limits>) -> (lowering: Lowering)
        ensures
            lowering@ == blank(literal_views(strings.chars@), text_views(strings.texts@), limits@),
    {
        let first: Vec<Binding> = Vec::new();
        let scopes: Vec<Vec<Binding>> = vec![first];
        let lowering = Lowering {
            blocks: Vec::new(),
            vreg_names: Vec::new(),
            current: BlockId(0),
            scopes,
            loops: Vec::new(),
            frame_bytes: 0,
            frame_peak: 0,
            out_pointer: None,
            borne: Vec::new(),
            strings,
            limits,
            lengths: Ghost(Set::empty()),
            settled: Ghost(true),
            unset: Ghost(Set::empty()),
        };
        proof {
            let st = blank(literal_views(strings.chars@), text_views(strings.texts@), limits@);
            assert(binding_views(first@) =~= seq![]);
            assert(lowering@.scopes =~= st.scopes);
            assert(lowering@.blocks =~= st.blocks);
            assert(lowering@.names =~= st.names);
            assert(lowering@.loops =~= st.loops);
            assert(lowering@.borne =~= st.borne);
        }
        lowering
    }

    // -- blocks ------------------------------------------------------------

    /// Append a new block, make it current, and return its id. It has no
    /// terminator until [`Self::terminate`] gives it one.
    pub fn new_block(&mut self, kind: BlockKind, Ghost(given): Ghost<Set<VReg>>) -> (id: BlockId)
        requires
            sound(old(self)@) || (old(self)@ == blank(
                old(self)@.strings,
                old(self)@.texts,
                old(self)@.limits,
            ) && old(self)@.strings.len() <= u32::MAX && old(self)@.texts.len() <= u32::MAX),
            old(self)@.settled ==> rests_on(
                old(self)@.scopes,
                old(self)@.loops,
                old(self)@.out_pointer,
                old(self)@.unset,
                given,
            ),
            opened(old(self)@, kind, given) is Some,
        ensures
            Some((final(self)@, id)) == opened(old(self)@, kind, given),
            stands(old(self)@, final(self)@),
            held_here(final(self)@) == given,
            final(self)@.scopes == old(self)@.scopes,
            final(self)@.loops == old(self)@.loops,
            final(self)@.settled == old(self)@.settled,
            final(self)@.blocks.len() == old(self)@.blocks.len() + 1,
            final(self)@.blocks[id.0 as int].given == given,
            forall|i: int|
                0 <= i < old(self)@.blocks.len() ==> #[trigger] final(self)@.blocks[i]
                    == old(self)@.blocks[i],
            id.0 == old(self)@.blocks.len(),
            final(self)@.current == id,
            final(self)@.names.len() == old(self)@.names.len(),
    {
        proof {
            reveal(opened);
            reveal(sound);
        }
        let ghost before = self@;
        let id = BlockId(self.blocks.len() as u32);
        let block = PendingBlock { kind, instrs: Vec::new(), term: None, given: Ghost(given) };
        self.blocks.push(block);
        self.current = id;
        proof {
            let after = (opened(before, kind, given)->0).0;
            assert(instr_views(block.instrs@) =~= seq![]);
            assert(self@.blocks =~= after.blocks);
            assert(self@ == after);
            reveal(arrivals);
            sound_grows(before, bounds(after));
            assert forall|i: int| 0 <= i < after.blocks.len() implies pending_within(#[trigger] after.blocks[i], bounds(after)) by {
                if i < before.blocks.len() {
                    assert(after.blocks[i] == before.blocks[i]);
                }
            }
            assert forall|i: int| 0 <= i < before.blocks.len() implies match (
            #[trigger] before.blocks[i]).term {
                Some(term) => forall|k: int|
                    0 <= k < term.targets().len() ==> (#[trigger] term.targets()[k]).block.0
                        < before.blocks.len(),
                None => true,
            } by {
                assert(pending_within(before.blocks[i], bounds(before)));
            }
            if before.blocks.len() == 0 {
                reveal(blocks_filled);
                reveal(loops_filled);
            }
            opening_keeps_filled(before, kind, given);
        }
        id
    }

    /// The block instructions are appended to.
    pub fn current(&self) -> (id: BlockId)
        ensures
            id == self@.current,
            sound(self@) ==> id.0 < self@.blocks.len(),
    {
        proof {
            reveal(sound);
        }
        self.current
    }

    pub fn emit(&mut self, instr: Instr)
        requires
            sound(old(self)@),
            instr_within(instr@, old(self)@.names.len()),
            emittable(instr, old(self)@),
            old(self)@.settled ==> all_held(instr@.operands(), held_here(old(self)@)),
        ensures
            final(self)@ == emitted(old(self)@, instr@),
            follows(old(self)@, final(self)@),
            final(self)@.current == old(self)@.current,
            match instr@.written() {
                Some(reg) => held_here(final(self)@).contains(reg),
                None => true,
            },
    {
        proof {
            reveal(sound);
            emitting_keeps_filled(self@, instr@);
            reveal(emitted);
        }
        let ghost before = self@;
        let at: usize = self.current.0 as usize;
        let ghost held = self.blocks@[at as int].instrs@;
        self.blocks[at].instrs.push(instr);
        proof {
            let after = emitted(before, instr@);
            assert(instr_views(self.blocks@[at as int].instrs@) =~= instr_views(held).push(instr@));
            assert(self@.blocks =~= after.blocks);
            assert(self@ == after);
            assert(after.blocks[at as int].instrs.drop_last() =~= before.blocks[at as int].instrs);
            arrivals_stay(before.blocks, after.blocks, at as int);
            assert forall|i: int| 0 <= i < after.blocks.len() implies pending_within(#[trigger] after.blocks[i], bounds(after)) by {
                assert(pending_within(before.blocks[i], bounds(before)));
            }
        }
    }

    /// Take a parameter at the top of the function.
    pub fn arrive(&mut self, dst: VReg, index: u32)
        requires
            sound(old(self)@),
            old(self)@.current.0 == 0,
            writable(old(self)@, dst),
        ensures
            final(self)@ == emitted(old(self)@, InstrView::Param { dst, index }),
            held_here(final(self)@).contains(dst),
            final(self)@.scopes == old(self)@.scopes,
            forall|reg: VReg|
                held_here(old(self)@).contains(reg) ==> #[trigger] held_here(
                    final(self)@,
                ).contains(reg),
            final(self)@.current == old(self)@.current,
            kept(old(self)@, final(self)@),
            arrivals(final(self)@.blocks) == arrivals(old(self)@.blocks).push(
                InstrView::Param { dst, index },
            ),
    {
        proof {
            reveal(sound);
            reveal(arrivals);
            emitting_keeps_filled(self@, InstrView::Param { dst, index });
            reveal(emitted);
        }
        let ghost before = self@;
        let instr = Instr::Param { dst, index };
        let ghost held = self.blocks@[0].instrs@;
        self.blocks[0].instrs.push(instr);
        proof {
            let after = emitted(before, instr@);
            assert(instr_views(self.blocks@[0].instrs@) =~= instr_views(held).push(instr@));
            assert(self@.blocks =~= after.blocks);
            assert(self@ == after);
            assert(after.blocks[0].instrs.drop_last() =~= before.blocks[0].instrs);
            assert forall|i: int| 0 <= i < after.blocks.len() implies pending_within(
                #[trigger] after.blocks[i],
                bounds(after),
            ) by {
                assert(pending_within(before.blocks[i], bounds(before)));
            }
        }
    }

    /// Finish the current block.
    pub fn terminate(&mut self, term: Terminator)
        requires
            sound(old(self)@),
            term_within(term@, old(self)@.names.len(), old(self)@.blocks.len()),
            old(self)@.settled ==> ends_well(old(self)@, old(self)@.current, term@),
        ensures
            final(self)@ == ended(old(self)@, old(self)@.current, term@),
            follows(old(self)@, final(self)@),
            final(self)@.loops == old(self)@.loops,
    {
        proof {
            reveal(ended);
            reveal(sound);
        }
        let at = self.current;
        self.finish(at, term);
    }

    /// Finish a block that is no longer the current one.
    pub fn finish(&mut self, block: BlockId, term: Terminator)
        requires
            sound(old(self)@),
            block.0 < old(self)@.blocks.len(),
            term_within(term@, old(self)@.names.len(), old(self)@.blocks.len()),
            old(self)@.settled ==> ends_well(old(self)@, block, term@),
        ensures
            final(self)@ == ended(old(self)@, block, term@),
            follows(old(self)@, final(self)@),
            held_here(final(self)@) == held_here(old(self)@),
            final(self)@.settled == old(self)@.settled,
            final(self)@.loops == old(self)@.loops,
            final(self)@.current == old(self)@.current,
            forall|i: int|
                0 <= i < old(self)@.blocks.len() ==> (#[trigger] final(self)@.blocks[i]).given
                    == old(self)@.blocks[i].given && held_by_end(final(self)@.blocks[i])
                    == held_by_end(old(self)@.blocks[i]),
            final(self)@.blocks.len() == old(self)@.blocks.len(),
            final(self)@.names.len() == old(self)@.names.len(),
    {
        proof {
            reveal(sound);
            ending_keeps_filled(self@, block, term@);
            reveal(ended);
        }
        let ghost before = self@;
        let at: usize = block.0 as usize;
        self.blocks[at].term = Some(term);
        proof {
            let after = ended(before, block, term@);
            assert(self@.blocks =~= after.blocks);
            assert(self@ == after);
            arrivals_stay(before.blocks, after.blocks, at as int);
            assert forall|i: int| 0 <= i < after.blocks.len() implies pending_within(#[trigger] after.blocks[i], bounds(after)) by {
                assert(pending_within(before.blocks[i], bounds(before)));
            }
        }
    }

    pub fn switch_to(&mut self, block: BlockId)
        requires
            sound(old(self)@),
            block.0 < old(self)@.blocks.len(),
            old(self)@.settled ==> rests_on(
                old(self)@.scopes,
                old(self)@.loops,
                old(self)@.out_pointer,
                old(self)@.unset,
                held_at(old(self)@, block),
            ),
        ensures
            final(self)@ == switched(old(self)@, block),
            stands(old(self)@, final(self)@),
            held_here(final(self)@) == held_at(old(self)@, block),
    {
        proof {
            reveal(sound);
        }
        self.current = block;
    }

    /// Make the write just emitted end its line.
    ///
    /// Only ever called straight after emitting one, which is what makes the
    /// last instruction in the block certain to be it.
    pub fn end_the_line_written_last(&mut self)
        requires
            sound(old(self)@),
            line_ended(old(self)@) is Some,
        ensures
            Some(final(self)@) == line_ended(old(self)@),
            follows(old(self)@, final(self)@),
    {
        proof {
            reveal(sound);
            reveal(line_ended);
        }
        let ghost before = self@;
        let at: usize = self.current.0 as usize;
        let last: usize = self.blocks[at].instrs.len() - 1;
        let ghost held = self.blocks@[at as int].instrs@;
        match self.blocks[at].instrs.pop() {
            Some(Instr::Print { ty, val, .. }) => {
                let write = Instr::Print { ty, val, newline: true };
                self.blocks[at].instrs.push(write);
                proof {
                    let after = line_ended(before)->0;
                    assert(instr_views(self.blocks@[at as int].instrs@) =~= instr_views(
                        held,
                    ).update(held.len() - 1, write@));
                    assert(self@.blocks =~= after.blocks);
                    assert(self@ == after);
                    assert(after.blocks[at as int].instrs.drop_last()
                        =~= before.blocks[at as int].instrs.drop_last());
                    arrivals_stay(before.blocks, after.blocks, at as int);
                    rewriting_keeps_filled(before, after, at as int, held.len() - 1);
                    assert forall|i: int| 0 <= i < after.blocks.len() implies pending_within(#[trigger] after.blocks[i], bounds(after)) by {
                        assert(pending_within(before.blocks[i], bounds(before)));
                        if i == at {
                            let old_last = before.blocks[i].instrs[held.len() - 1];
                            assert(instr_within(old_last, before.names.len()));
                            assert(value_within(old_last.operands()[0], before.names.len()));
                            assert(instr_within(write@, before.names.len()));
                        }
                    }
                }
            },
            _ => {
                assert(false);
            },
        }
    }

    // -- names -------------------------------------------------------------

    /// How often a name has been borne.
    fn count_borne(&self, name: &str) -> (count: usize)
        ensures
            count == times_borne(self@.borne, name@),
            count <= self@.borne.len(),
    {
        let mut count: usize = 0;
        let mut i: usize = 0;
        while i < self.borne.len()
            invariant
                i <= self.borne@.len(),
                count <= i,
                count == times_borne(text_views(self.borne@).subrange(0, i as int), name@),
            decreases self.borne@.len() - i,
        {
            let ghost upto = text_views(self.borne@).subrange(0, i + 1);
            assert(upto.drop_last() =~= text_views(self.borne@).subrange(0, i as int));
            assert(upto.last() == self.borne@[i as int]@);
            if self.borne[i].as_str().eq(name) {
                count = count + 1;
            }
            i = i + 1;
        }
        assert(text_views(self.borne@).subrange(0, i as int) =~= text_views(self.borne@));
        count
    }

    /// A register bearing a name, with a number behind it if the name is taken.
    pub fn fresh(&mut self, name: &str) -> (reg: VReg)
        requires
            sound(old(self)@),
            named(old(self)@, name@) is Some,
        ensures
            Some((final(self)@, reg)) == named(old(self)@, name@),
            follows(old(self)@, final(self)@),
            writable(final(self)@, reg),
    {
        proof {
            reveal(named);
            reveal(sound);
        }
        let ghost before = self@;
        let reg = VReg(self.vreg_names.len() as u32);
        let count: usize = self.count_borne(name);
        let mut label: String = name.to_owned();
        if count > 0 {
            label.append(".");
            push_decimal_u64(&mut label, count as u64);
        }
        self.vreg_names.push(label);
        self.borne.push(name.to_owned());
        proof {
            let after = (named(before, name@)->0).0;
            assert(self@.names =~= after.names);
            assert(self@.borne =~= after.borne);
            assert(self@ == after);
            sound_grows(before, bounds(after));
        }
        reg
    }

    /// Temporaries are named after their own index, so `%t7` is always virtual
    /// register 7.
    pub fn fresh_temp(&mut self) -> (reg: VReg)
        requires
            sound(old(self)@),
            temp(old(self)@) is Some,
        ensures
            Some((final(self)@, reg)) == temp(old(self)@),
            follows(old(self)@, final(self)@),
            final(self)@.strings == old(self)@.strings,
            final(self)@.texts == old(self)@.texts,
            writable(final(self)@, reg),
    {
        proof {
            reveal(temp);
            reveal(sound);
        }
        let ghost before = self@;
        let reg = VReg(self.vreg_names.len() as u32);
        let mut label: String = "t".to_owned();
        push_decimal_u64(&mut label, self.vreg_names.len() as u64);
        self.vreg_names.push(label);
        proof {
            let after = (temp(before)->0).0;
            assert(self@.names =~= after.names);
            assert(self@ == after);
            sound_grows(before, bounds(after));
        }
        reg
    }

    /// A register for a length, which nothing else is ever put in.
    pub fn fresh_length(&mut self) -> (reg: VReg)
        requires
            sound(old(self)@),
            measure(old(self)@) is Some,
        ensures
            Some((final(self)@, reg)) == measure(old(self)@),
            follows(old(self)@, final(self)@),
            reg.0 < final(self)@.names.len(),
            final(self)@.lengths.contains(reg),
    {
        proof {
            reveal(measure);
            reveal(temp);
        }
        let ghost start = self@;
        let reg = self.fresh_temp();
        let ghost before = self@;
        self.lengths = Ghost(self.lengths@.insert(reg));
        proof {
            reveal(sound);
            let after = State { lengths: before.lengths.insert(reg), ..before };
            assert(self@ == after);
            sound_grows(start, bounds(after));
            assert(after.blocks == start.blocks);
            assert(after.scopes == start.scopes);
            assert(after.loops == start.loops);
        }
        reg
    }

    /// Give a register its name before it holds anything, and remember the type it
    /// will hold.
    ///
    /// The type is carried because an array's *length* is part of it, and the
    /// length is what a bounds check and an allocation both need.
    pub fn announce(&mut self, name: &str, reg: VReg, ty: Ty)
        requires
            sound(old(self)@),
            writable(old(self)@, reg),
        ensures
            final(self)@ == announced(old(self)@, name@, reg, ty),
            kept(old(self)@, final(self)@),
            arrivals(final(self)@.blocks) == arrivals(old(self)@.blocks),
            held_here(final(self)@) == held_here(old(self)@),
    {
        proof {
            reveal(called);
            reveal(sound);
        }
        let ghost before = self@;
        let last: usize = self.scopes.len() - 1;
        let ghost scope = self.scopes@[last as int]@;
        let binding = Binding { name: name.to_owned(), reg, ty };
        self.scopes[last].push(binding);
        self.unset = Ghost(self.unset@.insert(reg));
        proof {
            let after = announced(before, name@, reg, ty);
            assert(binding_views(self.scopes@[last as int]@) =~= binding_views(scope).push(
                binding@,
            ));
            assert(self@.scopes =~= after.scopes);
            assert(self@ == after);
            assert(after.scopes.drop_last() =~= before.scopes.drop_last());
            assert forall|i: int| 0 <= i < after.scopes.len() implies scope_within(
                #[trigger] after.scopes[i],
                bounds(after),
            ) by {
                assert(scope_within(before.scopes[i], bounds(before)));
            }
            if before.settled {
                reveal(rests_on);
                assert forall|i: int, k: int|
                    #![trigger after.scopes[i][k]]
                    0 <= i < after.scopes.len() && 0 <= k < after.scopes[i].len()
                        implies held_here(after).contains(after.scopes[i][k].reg)
                    || after.unset.contains(after.scopes[i][k].reg) by {
                    if i < last || k < before.scopes[i].len() {
                        assert(after.scopes[i][k] == before.scopes[i][k]);
                    }
                }
            }
        }
    }

    /// Take note that what was announced holds something.
    pub fn fill(&mut self, Ghost(reg): Ghost<VReg>, Ghost(outer): Ghost<Set<VReg>>)
        requires
            sound(old(self)@),
            is_set(old(self)@, reg),
            old(self)@.unset == outer.insert(reg),
        ensures
            final(self)@ == (State { unset: outer, ..old(self)@ }),
            kept(old(self)@, final(self)@),
    {
        proof {
            reveal(sound);
            reveal(rests_on);
        }
        self.unset = Ghost(outer);
    }

    /// Give a register that holds something its name.
    pub fn declare(&mut self, name: &str, reg: VReg, ty: Ty)
        requires
            sound(old(self)@),
            writable(old(self)@, reg),
            is_set(old(self)@, reg),
        ensures
            final(self)@ == called(old(self)@, name@, reg, ty),
            goes_on(old(self)@, final(self)@),
            final(self)@.current == old(self)@.current,
            final(self)@.blocks == old(self)@.blocks,
            final(self)@.names == old(self)@.names,
    {
        proof {
            reveal(called);
        }
        let ghost outer = self@.unset;
        self.announce(name, reg, ty);
        self.fill(Ghost(reg), Ghost(outer));
    }

    /// The register a name stands for.
    pub fn lookup(&self, name: &String) -> (reg: VReg)
        requires
            sound(self@),
            bound(self@, name@) is Some,
        ensures
            reg == (bound(self@, name@)->0).0,
            writable(self@, reg),
            self@.settled ==> held_here(self@).contains(reg) || self@.unset.contains(reg),
    {
        proof {
            reveal(bound);
            reveal(sound);
        }
        self.binding(name).0
    }

    /// The type of what a name stands for.
    pub fn lookup_type(&self, name: &String) -> (ty: Ty)
        requires
            sound(self@),
            bound(self@, name@) is Some,
        ensures
            ty == (bound(self@, name@)->0).1,
    {
        proof {
            reveal(bound);
            reveal(sound);
        }
        self.binding(name).1
    }

    /// What a name stands for, the innermost scope first.
    pub fn binding(&self, name: &String) -> (found: (VReg, Ty))
        requires
            sound(self@),
            bound(self@, name@) is Some,
        ensures
            Some(found) == bound(self@, name@),
            writable(self@, found.0),
            self@.settled ==> held_here(self@).contains(found.0) || self@.unset.contains(found.0),
    {
        proof {
            reveal(bound);
            reveal(sound);
        }
        let ghost views = scope_views(self.scopes@);
        let mut i: usize = self.scopes.len();
        assert(views.subrange(0, i as int) =~= views);
        while i > 0
            invariant
                i <= self.scopes@.len(),
                views == scope_views(self.scopes@),
                sound(self@),
                views == self@.scopes,
                bound(self@, name@) is Some,
                bound_among(views.subrange(0, i as int), name@) == bound(self@, name@),
            decreases i,
        {
            proof {
                reveal(bound);
                reveal(sound);
            }
            let scope: &Vec<Binding> = &self.scopes[i - 1];
            let ghost held = binding_views(scope@);
            let mut k: usize = scope.len();
            proof {
                assert(views.subrange(0, i as int).last() == held);
                assert(views.subrange(0, i as int).drop_last() =~= views.subrange(0, i - 1));
                assert(held.subrange(0, k as int) =~= held);
                assert(scope_within(self@.scopes[i - 1], bounds(self@)));
                bound_here_within(held, name@, bounds(self@));
            }
            while k > 0
                invariant
                    k <= scope@.len(),
                    held == binding_views(scope@),
                    0 < i <= self@.scopes.len(),
                    self@.scopes[i - 1] == held,
                    sound(self@),
                    bound_here(held.subrange(0, k as int), name@) == bound_here(held, name@),
                    match bound_here(held, name@) {
                        Some(found) => Some(found) == bound(self@, name@) && writable(self@, found.0),
                        None => true,
                    },
                decreases k,
            {
                proof {
                    reveal(bound);
                    reveal(sound);
                }
                assert(held.subrange(0, k as int).last() == scope@[k - 1]@);
                assert(held.subrange(0, k as int).drop_last() =~= held.subrange(0, k - 1));
                if scope[k - 1].name == *name {
                    proof {
                        reveal(rests_on);
                        assert(self@.scopes[i - 1][k - 1].reg == scope@[k - 1].reg);
                    }
                    return (scope[k - 1].reg, scope[k - 1].ty);
                }
                k = k - 1;
            }
            i = i - 1;
        }
        assert(false);
        (VReg(0), Ty::Int)
    }

    /// Open a scope.
    pub fn open_scope(&mut self)
        requires
            sound(old(self)@),
        ensures
            final(self)@ == entered(old(self)@),
            sound(final(self)@),
            final(self)@.scopes.len() > 1,
            final(self)@.scopes.drop_last() == old(self)@.scopes,
    {
        proof {
            reveal(sound);
        }
        let ghost before = self@;
        let scope: Vec<Binding> = Vec::new();
        self.scopes.push(scope);
        proof {
            let after = entered(before);
            assert(after.scopes.drop_last() =~= before.scopes);
            if before.settled {
                reveal(rests_on);
                assert forall|i: int, k: int|
                    #![trigger after.scopes[i][k]]
                    0 <= i < after.scopes.len() && 0 <= k < after.scopes[i].len()
                        implies held_here(after).contains(after.scopes[i][k].reg)
                    || after.unset.contains(after.scopes[i][k].reg) by {
                    assert(after.scopes[i][k] == before.scopes[i][k]);
                }
            }
            assert(binding_views(scope@) =~= seq![]);
            assert(self@.scopes =~= after.scopes);
            assert(self@ == after);
            assert forall|i: int| 0 <= i < after.scopes.len() implies scope_within(
                #[trigger] after.scopes[i],
                bounds(after),
            ) by {
                if i < before.scopes.len() {
                    assert(scope_within(before.scopes[i], bounds(before)));
                }
            }
        }
    }

    /// Close the innermost scope.
    pub fn close_scope(&mut self)
        requires
            sound(old(self)@),
            old(self)@.scopes.len() > 1,
        ensures
            final(self)@ == left(old(self)@),
            sound(final(self)@),
    {
        proof {
            reveal(sound);
        }
        let ghost before = self@;
        self.scopes.pop();
        proof {
            let after = left(before);
            if before.settled {
                reveal(rests_on);
                assert forall|i: int, k: int|
                    #![trigger after.scopes[i][k]]
                    0 <= i < after.scopes.len() && 0 <= k < after.scopes[i].len()
                        implies held_here(after).contains(after.scopes[i][k].reg)
                    || after.unset.contains(after.scopes[i][k].reg) by {
                    assert(after.scopes[i][k] == before.scopes[i][k]);
                }
            }
            assert(self@.scopes =~= after.scopes);
            assert(self@ == after);
            assert forall|i: int| 0 <= i < after.scopes.len() implies scope_within(
                #[trigger] after.scopes[i],
                bounds(after),
            ) by {
                assert(scope_within(before.scopes[i], bounds(before)));
            }
        }
    }

    // -- loops -------------------------------------------------------------

    /// Open a loop.
    pub fn open_loop(&mut self, Ghost(base): Ghost<Set<VReg>>)
        requires
            sound(old(self)@),
            old(self)@.settled ==> base.subset_of(held_here(old(self)@)),
        ensures
            final(self)@ == looped(old(self)@, base),
            sound(final(self)@),
    {
        proof {
            reveal(sound);
        }
        let ghost before = self@;
        let frame = LoopFrame { breaks: Vec::new(), continues: Vec::new(), base: Ghost(base) };
        self.loops.push(frame);
        proof {
            let after = looped(before, base);
            assert(frame@ == LoopView { breaks: seq![], continues: seq![], base });
            assert(self@.loops =~= after.loops);
            if before.settled {
                reveal(rests_on);
                reveal(loops_filled);
                assert forall|i: int| 0 <= i < after.loops.len() implies (
                #[trigger] after.loops[i]).base.subset_of(held_here(after)) && ids_leave(
                    after.loops[i].breaks,
                    after.blocks,
                    after.loops[i].base,
                ) && ids_leave(after.loops[i].continues, after.blocks, after.loops[i].base) by {
                    if i < before.loops.len() {
                        assert(after.loops[i] == before.loops[i]);
                    }
                }
            }
            assert(self@ == after);
            assert forall|i: int| 0 <= i < after.loops.len() implies ids_within(
                (#[trigger] after.loops[i]).breaks,
                after.blocks.len(),
            ) && ids_within(after.loops[i].continues, after.blocks.len()) by {
                if i < before.loops.len() {
                    assert(ids_within(before.loops[i].breaks, before.blocks.len()));
                    assert(ids_within(before.loops[i].continues, before.blocks.len()));
                }
            }
        }
    }

    /// Close the innermost loop and hand back what it still owes an answer.
    pub fn close_loop(&mut self) -> (frame: LoopFrame)
        requires
            sound(old(self)@),
            old(self)@.loops.len() > 0,
        ensures
            final(self)@ == unlooped(old(self)@),
            frame@ == old(self)@.loops.last(),
            ids_within(frame@.breaks, final(self)@.blocks.len()),
            ids_within(frame@.continues, final(self)@.blocks.len()),
            sound(final(self)@),
            final(self)@.settled ==> {
                &&& ids_leave(frame@.breaks, final(self)@.blocks, frame@.base)
                &&& ids_leave(frame@.continues, final(self)@.blocks, frame@.base)
                &&& frame@.base.subset_of(held_here(final(self)@))
            },
    {
        proof {
            reveal(sound);
        }
        let ghost before = self@;
        assert(ids_within(
            before.loops[before.loops.len() - 1].breaks,
            before.blocks.len(),
        ));
        match self.loops.pop() {
            Some(frame) => {
                proof {
                    let after = unlooped(before);
                    assert(self@.loops =~= after.loops);
                    if before.settled {
                        reveal(rests_on);
                        reveal(loops_filled);
                        assert(before.loops[before.loops.len() - 1].base.subset_of(
                            held_here(before),
                        ));
                        assert forall|i: int| 0 <= i < after.loops.len() implies (
                        #[trigger] after.loops[i]).base.subset_of(held_here(after)) && ids_leave(
                            after.loops[i].breaks,
                            after.blocks,
                            after.loops[i].base,
                        ) && ids_leave(
                            after.loops[i].continues,
                            after.blocks,
                            after.loops[i].base,
                        ) by {
                            assert(after.loops[i] == before.loops[i]);
                        }
                    }
                    assert(self@ == after);
                    assert(frame@ == before.loops.last());
                    assert forall|i: int| 0 <= i < after.loops.len() implies ids_within(
                        (#[trigger] after.loops[i]).breaks,
                        after.blocks.len(),
                    ) && ids_within(after.loops[i].continues, after.blocks.len()) by {
                        assert(ids_within(before.loops[i].breaks, before.blocks.len()));
                        assert(ids_within(before.loops[i].continues, before.blocks.len()));
                    }
                }
                frame
            },
            None => {
                assert(false);
                LoopFrame {
                    breaks: Vec::new(),
                    continues: Vec::new(),
                    base: Ghost(Set::empty()),
                }
            },
        }
    }

    /// Hand the current block to the innermost loop, which will terminate it
    /// once it knows where the jump goes.
    pub fn owe(&mut self, breaks: bool)
        requires
            sound(old(self)@),
            old(self)@.loops.len() > 0,
        ensures
            final(self)@ == owed(old(self)@, breaks),
            follows(old(self)@, final(self)@),
            final(self)@.blocks == old(self)@.blocks,
    {
        proof {
            reveal(sound);
        }
        let ghost before = self@;
        let last: usize = self.loops.len() - 1;
        let leaving: BlockId = self.current;
        assert(ids_within(before.loops[last as int].breaks, before.blocks.len()));
        if breaks {
            self.loops[last].breaks.push(leaving);
        } else {
            self.loops[last].continues.push(leaving);
        }
        proof {
            let after = owed(before, breaks);
            assert(self@.loops =~= after.loops);
            assert(self@ == after);
            if before.settled {
                reveal(rests_on);
                reveal(loops_filled);
                assert forall|i: int| 0 <= i < after.loops.len() implies (
                #[trigger] after.loops[i]).base.subset_of(held_here(after)) && ids_leave(
                    after.loops[i].breaks,
                    after.blocks,
                    after.loops[i].base,
                ) && ids_leave(after.loops[i].continues, after.blocks, after.loops[i].base) by {
                    assert(before.loops[i].base.subset_of(held_here(before)));
                    assert(ids_leave(before.loops[i].breaks, before.blocks, before.loops[i].base));
                    assert(ids_leave(
                        before.loops[i].continues,
                        before.blocks,
                        before.loops[i].base,
                    ));
                }
            }
            assert forall|i: int| 0 <= i < after.loops.len() implies ids_within(
                (#[trigger] after.loops[i]).breaks,
                after.blocks.len(),
            ) && ids_within(after.loops[i].continues, after.blocks.len()) by {
                assert(ids_within(before.loops[i].breaks, before.blocks.len()));
                assert(ids_within(before.loops[i].continues, before.blocks.len()));
            }
        }
    }

    /// Take note of whether something holds that keeps what is read written.
    pub fn note_settled(&mut self, Ghost(left): Ghost<bool>)
        requires
            sound(old(self)@),
        ensures
            final(self)@ == (State { settled: old(self)@.settled && left, ..old(self)@ }),
            follows(old(self)@, final(self)@),
    {
        proof {
            reveal(sound);
        }
        let ghost noted = self.settled@ && left;
        self.settled = Ghost(noted);
    }

    // -- room --------------------------------------------------------------

    /// How much of the frame is in use.
    pub fn room(&self) -> (bytes: u32)
        ensures
            bytes == self@.frame_bytes,
    {
        self.frame_bytes
    }

    /// Give the frame back down to what was in use before.
    pub fn give_back(&mut self, bytes: u32)
        requires
            sound(old(self)@),
        ensures
            final(self)@ == (State { frame_bytes: bytes, ..old(self)@ }),
            follows(old(self)@, final(self)@),
    {
        proof {
            reveal(sound);
        }
        self.frame_bytes = bytes;
    }

    /// Reserve `bytes` of frame and put their address in `dst`.
    ///
    /// Saturating, like the object layout it is the sum of: a function with
    /// four gigabytes of locals is refused, not given a total that wrapped and
    /// looked reasonable.
    pub fn allocate(&mut self, dst: VReg, bytes: u32)
        requires
            sound(old(self)@),
            writable(old(self)@, dst),
        ensures
            final(self)@ == allocated(old(self)@, dst, bytes),
            follows(old(self)@, final(self)@),
            held_here(final(self)@).contains(dst),
    {
        proof {
            reveal(allocated);
            reveal(sound);
        }
        let offset: u32 = self.frame_bytes;
        self.frame_bytes = self.frame_bytes.saturating_add(bytes);
        if self.frame_bytes > self.frame_peak {
            self.frame_peak = self.frame_bytes;
        }
        self.emit(Instr::Frame { dst, offset });
    }

    /// Where a `return` copies to.
    pub fn out_pointer(&self) -> (reg: Option<VReg>)
        ensures
            reg == self@.out_pointer,
            match reg {
                Some(reg) => sound(self@) ==> has(self@, Value::Reg(reg)),
                None => true,
            },
    {
        proof {
            reveal(sound);
            reveal(rests_on);
        }
        self.out_pointer
    }

    pub fn set_out_pointer(&mut self, reg: VReg)
        requires
            sound(old(self)@),
            has(old(self)@, Value::Reg(reg)),
        ensures
            final(self)@ == (State { out_pointer: Some(reg), ..old(self)@ }),
            sound(final(self)@),
    {
        proof {
            reveal(sound);
            reveal(rests_on);
        }
        self.out_pointer = Some(reg);
    }

    // -- literals ----------------------------------------------------------

    /// A string literal's place among the program's.
    pub fn intern(&mut self, chars: &Vec<char>) -> (id: StrId)
        requires
            sound(old(self)@),
            interned(old(self)@, chars@) is Some,
        ensures
            Some((final(self)@, id)) == interned(old(self)@, chars@),
            follows(old(self)@, final(self)@),
            id.0 < final(self)@.strings.len(),
    {
        proof {
            reveal(interned);
            reveal(sound);
        }
        let ghost before = self@;
        let mut i: usize = 0;
        while i < self.strings.chars.len()
            invariant
                self@ == before,
                sound(before),
                before.strings == literal_views(self.strings.chars@),
                i <= self.strings.chars@.len(),
                first_at(before.strings, chars@, 0) == first_at(before.strings, chars@, i as nat),
            decreases self.strings.chars@.len() - i,
        {
            proof {
                reveal(interned);
                reveal(sound);
            }
            if same_chars(&self.strings.chars[i], chars) {
                return StrId(i as u32);
            }
            i = i + 1;
        }
        let id = StrId(self.strings.chars.len() as u32);
        let copy: Vec<char> = copied(chars);
        self.strings.chars.push(copy);
        proof {
            let after = (interned(before, chars@)->0).0;
            assert(self@.strings =~= after.strings);
            assert(self@ == after);
            sound_grows(before, bounds(after));
        }
        id
    }

    /// The same for a run of literal text, kept in its own table because it is
    /// laid out differently: a string literal is characters four bytes each
    /// with a count in front, and this is the text that will be written as it
    /// stands.
    pub fn intern_text(&mut self, text: String) -> (id: TextId)
        requires
            sound(old(self)@),
            interned_text(old(self)@, text@) is Some,
        ensures
            Some((final(self)@, id)) == interned_text(old(self)@, text@),
            follows(old(self)@, final(self)@),
            id.0 < final(self)@.texts.len(),
    {
        proof {
            reveal(interned_text);
            reveal(sound);
        }
        let ghost before = self@;
        let mut i: usize = 0;
        while i < self.strings.texts.len()
            invariant
                self@ == before,
                sound(before),
                before.texts == text_views(self.strings.texts@),
                i <= self.strings.texts@.len(),
                first_at(before.texts, text@, 0) == first_at(before.texts, text@, i as nat),
            decreases self.strings.texts@.len() - i,
        {
            proof {
                reveal(interned_text);
                reveal(sound);
            }
            if self.strings.texts[i] == text {
                return TextId(i as u32);
            }
            i = i + 1;
        }
        let id = TextId(self.strings.texts.len() as u32);
        self.strings.texts.push(text);
        proof {
            let after = (interned_text(before, text@)->0).0;
            assert(self@.texts =~= after.texts);
            assert(self@ == after);
            sound_grows(before, bounds(after));
        }
        id
    }

    /// What was built, taken apart.
    pub fn into_parts(self) -> (parts: (Vec<PendingBlock>, Vec<String>, u32, Strings))
        ensures
            pending_views(parts.0@) == self@.blocks,
            text_views(parts.1@) == self@.names,
            parts.2 == self@.frame_peak,
            literal_views(parts.3.chars@) == self@.strings,
            text_views(parts.3.texts@) == self@.texts,
    {
        (self.blocks, self.vreg_names, self.frame_peak, self.strings)
    }
}

/// A write that was just emitted, made to end its line.
#[verifier::opaque]
pub open spec fn line_ended(st: State) -> Option<State> {
    let at = st.current.0 as int;
    let instrs = st.blocks[at].instrs;
    if instrs.len() > 0 {
        match instrs.last() {
            InstrView::Print { ty, val, .. } => Some(
                State {
                    blocks: st.blocks.update(
                        at,
                        PendingView {
                            instrs: instrs.update(
                                instrs.len() - 1,
                                InstrView::Print { ty, val, newline: true },
                            ),
                            ..st.blocks[at]
                        },
                    ),
                    ..st
                },
            ),
            _ => None,
        }
    } else {
        None
    }
}

/// A loop opened.
pub open spec fn looped(st: State, base: Set<VReg>) -> State {
    State { loops: st.loops.push(LoopView { breaks: seq![], continues: seq![], base }), ..st }
}

/// The innermost loop closed.
pub open spec fn unlooped(st: State) -> State {
    State { loops: st.loops.drop_last(), ..st }
}

/// The current block handed to the innermost loop.
pub open spec fn owed(st: State, breaks: bool) -> State {
    let frame = st.loops.last();
    let more = if breaks {
        LoopView { breaks: frame.breaks.push(st.current), ..frame }
    } else {
        LoopView { continues: frame.continues.push(st.current), ..frame }
    };
    State { loops: st.loops.update(st.loops.len() - 1, more), ..st }
}

/// Whether two runs of characters are the same.
fn same_chars(a: &Vec<char>, b: &Vec<char>) -> (same: bool)
    ensures
        same == (a@ == b@),
{
    if a.len() != b.len() {
        return false;
    }
    let mut i: usize = 0;
    while i < a.len()
        invariant
            i <= a@.len() == b@.len(),
            forall|j: int| 0 <= j < i ==> a@[j] == b@[j],
        decreases a@.len() - i,
    {
        if a[i] != b[i] {
            return false;
        }
        i = i + 1;
    }
    assert(a@ =~= b@);
    true
}

/// A run of characters again.
pub fn copied(chars: &Vec<char>) -> (copy: Vec<char>)
    ensures
        copy@ == chars@,
{
    let mut copy: Vec<char> = Vec::new();
    let mut i: usize = 0;
    while i < chars.len()
        invariant
            i <= chars@.len(),
            copy@ == chars@.subrange(0, i as int),
        decreases chars@.len() - i,
    {
        copy.push(chars[i]);
        i = i + 1;
        assert(chars@.subrange(0, i as int) =~= chars@.subrange(0, i - 1).push(chars@[i - 1]));
    }
    assert(chars@.subrange(0, i as int) =~= chars@);
    copy
}

} // verus!
