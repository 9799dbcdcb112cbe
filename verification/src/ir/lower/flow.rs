//! Lowering control flow: `if`, loops, and jumps out of them.

use vstd::prelude::*;

use crate::ast::Stmt;
use crate::ir::block::{BlockKind, Terminator};
use crate::ir::lower::builder::Lowering;
use crate::ir::lower::meaning::{all_sent, if_of, jumped, loop_closed, loop_of};
use crate::ir::lower::state::{
    all_rest, follows, goes_on, has, has_at, held_at, held_here, here_rests, ids_leave,
    ids_still_leave, ids_within, kept, limits, rests_on, rests_on_more, same_ends, sound, stands,
    still_rests, Context, LoopFrame, State,
};
use crate::ir::value::{BlockId, VReg, Value};

verus! {

impl Lowering {

    /// Lower a `break` or a `continue`: hand the block it ends to the innermost
    /// loop, which will terminate it once it knows where the jump goes.
    pub fn loop_jump(&mut self, breaks: bool)
        requires
            sound(old(self)@),
            jumped(old(self)@, breaks) is Some,
        ensures
            Some(final(self)@) == jumped(old(self)@, breaks),
            follows(old(self)@, final(self)@),
    {
        self.owe(breaks);
        // As after a `return`: whatever was written next still has to be
        // lowered somewhere, and nothing reaches it.
        proof {
            all_rest(self@);
        }
        self.new_block(BlockKind::Unreachable, Ghost(Set::full()));
    }

    /// Lower an `if`.
    pub fn if_stmt(&mut self, cx: &Context<'_>, s: &Stmt)
        requires
            sound(old(self)@),
            old(self)@.limits == limits(cx@),
            if_of(cx@, old(self)@, *s) is Some,
        ensures
            Some(final(self)@) == if_of(cx@, old(self)@, *s),
            follows(old(self)@, final(self)@),
        decreases *s, 10int, 0int,
    {
        if let Stmt::If { cond, then_block, else_block } = s {
            let cond = self.expr(cx, cond);
            // The branch belongs to whichever block the condition was computed
            // in.
            let entry = self.current();
            let ghost known = held_here(self@);
            let ghost decided = self@;
            proof {
                here_rests(self@);
            }
            let then_id = self.new_block(BlockKind::Then, Ghost(known));
            self.block_stmts(cx, then_block);
            let then_exit = self.current();
            let ghost built = self@;
            proof {
                still_rests(decided, self@, known);
            }
            match else_block {
                Some(block) => {
                    let else_id = self.new_block(BlockKind::Else, Ghost(known));
                    self.block_stmts(cx, block);
                    let else_exit = self.current();
                    proof {
                        still_rests(decided, self@, known);
                        both_hold(built, self@, then_exit, else_exit, known);
                    }
                    self.join(entry, cond, then_id, else_id, then_exit, else_exit);
                },
                // With no `else`, there is no block to name and no exit to send
                // to the join: the branch goes straight there.
                None => {
                    let join = self.new_block(BlockKind::Join, Ghost(known));
                    let ghost joined = self@;
                    proof {
                        block_stays(built, self@, then_exit);
                    }
                    self.finish(entry, Terminator::branch(cond, then_id, join));
                    proof {
                        block_stays(built, self@, then_exit);
                        block_stays(joined, self@, join);
                        assert(self@.settled ==> known.subset_of(held_here(built)));
                        assert(self@.settled ==> known.subset_of(held_at(self@, then_exit)));
                        assert(self@.blocks[join.0 as int].given == known);
                    }
                    self.finish(then_exit, Terminator::jump(join));
                    self.switch_to(join);
                },
            }
        }
    }

    /// Lower a `while`.
    pub fn while_stmt(&mut self, cx: &Context<'_>, s: &Stmt)
        requires
            sound(old(self)@),
            old(self)@.limits == limits(cx@),
            loop_of(cx@, old(self)@, *s) is Some,
        ensures
            Some(final(self)@) == loop_of(cx@, old(self)@, *s),
            goes_on(old(self)@, final(self)@),
        decreases *s, 20int, 0int,
    {
        self.loop_with_step(cx, s);
    }

    /// The shape shared by `while` and `for`: a header that re-tests the
    /// condition on every iteration, a body, and an optional step run at the
    /// end of the body.
    pub fn loop_with_step(&mut self, cx: &Context<'_>, s: &Stmt)
        requires
            sound(old(self)@),
            old(self)@.limits == limits(cx@),
            loop_of(cx@, old(self)@, *s) is Some,
        ensures
            Some(final(self)@) == loop_of(cx@, old(self)@, *s),
            goes_on(old(self)@, final(self)@),
        decreases *s, 10int, 0int,
    {
        match s {
            Stmt::While { cond, body } => {
                let before = self.current();
                let ghost base = held_here(self@);
                let ghost begun = self@;
                proof {
                    here_rests(self@);
                }
                // The condition must be re-evaluated each time round, so it gets
                // a block of its own that the body jumps back to.
                let header = self.new_block(BlockKind::Loop, Ghost(base));
                let ghost headed = self@;
                let cond = self.expr(cx, cond);
                let header_exit = self.current();
                let ghost asked = self@;
                proof {
                    here_rests(self@);
                }
                let body_id = self.new_block(BlockKind::Body, Ghost(held_here(self@)));
                let ghost bodied = self@;
                self.open_loop(Ghost(base));
                let ghost inside = self@;
                self.block_stmts(cx, body);
                proof {
                    innermost_stays(inside, self@);
                }
                let frame = self.close_loop();
                proof {
                    still_rests(begun, self@, base);
                    still_asked(asked, self@, header_exit, cond, base);
                    block_stays(begun, self@, before);
                    block_stays(headed, self@, header);
                    block_stays(bodied, self@, body_id);
                }
                self.close_the_loop(before, header, cond, header_exit, body_id, header, frame);
            },
            Stmt::For { cond, step, body, .. } => {
                let before = self.current();
                let ghost base = held_here(self@);
                let ghost begun = self@;
                proof {
                    here_rests(self@);
                }
                let header = self.new_block(BlockKind::Loop, Ghost(base));
                let ghost headed = self@;
                let cond = self.expr(cx, cond);
                let header_exit = self.current();
                let ghost asked = self@;
                proof {
                    here_rests(self@);
                }
                let body_id = self.new_block(BlockKind::Body, Ghost(held_here(self@)));
                let ghost bodied = self@;
                self.open_loop(Ghost(base));
                let ghost inside = self@;
                self.block_stmts(cx, body);
                proof {
                    innermost_stays(inside, self@);
                }
                let frame = self.close_loop();
                let body_exit = self.current();
                let ghost left_at = self@;
                proof {
                    still_rests(begun, self@, base);
                }
                // A `for` has to run its step at the end of *every* iteration,
                // the ones a `continue` cuts short included, so when one exists
                // the step needs a block of its own to jump to. When none does
                // the step simply ends the body.
                if frame.continues.len() > 0 {
                    let latch = self.new_block(BlockKind::Step, Ghost(base));
                    let ghost latched = self@;
                    self.stmt(cx, step);
                    self.note_settled(Ghost(self@.scopes == latched.scopes));
                    proof {
                        block_stays(left_at, self@, body_exit);
                        block_stays(latched, self@, latch);
                    }
                    self.finish(body_exit, Terminator::jump(latch));
                    proof {
                        ids_still_leave(frame@.breaks, left_at, self@, base);
                        ids_still_leave(frame@.continues, left_at, self@, base);
                        still_asked(asked, self@, header_exit, cond, base);
                        still_rests(left_at, self@, base);
                        block_stays(begun, self@, before);
                        block_stays(headed, self@, header);
                        block_stays(bodied, self@, body_id);
                        block_stays(latched, self@, latch);
                        ids_still_within(frame@.breaks, left_at, self@);
                        ids_still_within(frame@.continues, left_at, self@);
                    }
                    self.close_the_loop(before, header, cond, header_exit, body_id, latch, frame);
                } else {
                    self.stmt(cx, step);
                    self.note_settled(Ghost(self@.scopes == left_at.scopes));
                    proof {
                        ids_still_leave(frame@.breaks, left_at, self@, base);
                        ids_still_leave(frame@.continues, left_at, self@, base);
                        still_asked(asked, self@, header_exit, cond, base);
                        still_rests(left_at, self@, base);
                        block_stays(begun, self@, before);
                        block_stays(headed, self@, header);
                        block_stays(bodied, self@, body_id);
                        ids_still_within(frame@.breaks, left_at, self@);
                        ids_still_within(frame@.continues, left_at, self@);
                    }
                    self.close_the_loop(before, header, cond, header_exit, body_id, header, frame);
                }
            },
            _ => {
                assert(false);
            },
        }
    }

    /// Send every block of a loop where it goes, once its body and step are
    /// there.
    fn close_the_loop(
        &mut self,
        before: BlockId,
        header: BlockId,
        cond: Value,
        header_exit: BlockId,
        body: BlockId,
        latch: BlockId,
        frame: LoopFrame,
    )
        requires
            sound(old(self)@),
            before.0 < old(self)@.blocks.len(),
            header.0 < old(self)@.blocks.len(),
            has_at(old(self)@, header_exit, cond),
            old(self)@.settled ==> {
                &&& old(self)@.blocks[header.0 as int].given.subset_of(frame@.base)
                &&& old(self)@.blocks[latch.0 as int].given.subset_of(frame@.base)
                &&& old(self)@.blocks[body.0 as int].given.subset_of(
                    held_at(old(self)@, header_exit),
                )
                &&& frame@.base.subset_of(held_at(old(self)@, before))
                &&& frame@.base.subset_of(held_at(old(self)@, header_exit))
                &&& frame@.base.subset_of(held_here(old(self)@))
                &&& ids_leave(frame@.breaks, old(self)@.blocks, frame@.base)
                &&& ids_leave(frame@.continues, old(self)@.blocks, frame@.base)
                &&& rests_on(
                    old(self)@.scopes,
                    old(self)@.loops,
                    old(self)@.out_pointer,
                    old(self)@.unset,
                    frame@.base,
                )
            },
            header_exit.0 < old(self)@.blocks.len(),
            body.0 < old(self)@.blocks.len(),
            latch.0 < old(self)@.blocks.len(),
            ids_within(frame@.breaks, old(self)@.blocks.len()),
            ids_within(frame@.continues, old(self)@.blocks.len()),
            loop_closed(
                old(self)@,
                before,
                header,
                cond,
                header_exit,
                body,
                latch,
                frame@,
            ) is Some,
        ensures
            Some(final(self)@) == loop_closed(
                old(self)@,
                before,
                header,
                cond,
                header_exit,
                body,
                latch,
                frame@,
            ),
            stands(old(self)@, final(self)@),
            final(self)@.scopes == old(self)@.scopes,
            held_here(final(self)@) == frame@.base,
    {
        let ghost given = self@;
        // The step may itself open blocks, so where it ended is not where it
        // began.
        let latch_exit = self.current();
        let after = self.new_block(BlockKind::Done, Ghost(frame@.base));
        self.finish(before, Terminator::jump(header));
        self.finish(header_exit, Terminator::branch(cond, body, after));
        // The back edge: this is what makes liveness need a fixpoint.
        self.finish(latch_exit, Terminator::jump(header));
        proof {
            ids_still_within(frame@.breaks, given, self@);
            ids_still_within(frame@.continues, given, self@);
            ids_still_leave(frame@.breaks, given, self@, frame@.base);
            ids_still_leave(frame@.continues, given, self@, frame@.base);
        }
        self.send_all(&frame.continues, latch);
        proof {
            ids_still_leave(frame@.breaks, given, self@, frame@.base);
        }
        self.send_all(&frame.breaks, after);
        self.switch_to(after);
    }

    /// Send every block of a list to one place.
    pub fn send_all(&mut self, from: &Vec<BlockId>, to: BlockId)
        requires
            sound(old(self)@),
            ids_within(from@, old(self)@.blocks.len()),
            to.0 < old(self)@.blocks.len(),
            old(self)@.settled ==> forall|i: int|
                0 <= i < from@.len() ==> old(self)@.blocks[to.0 as int].given.subset_of(
                    held_at(old(self)@, #[trigger] from@[i]),
                ),
        ensures
            final(self)@ == all_sent(old(self)@, from@, to, 0),
            follows(old(self)@, final(self)@),
            held_here(final(self)@) == held_here(old(self)@),
            final(self)@.settled == old(self)@.settled,
            final(self)@.loops == old(self)@.loops,
            final(self)@.current == old(self)@.current,
            same_ends(old(self)@, final(self)@),
            final(self)@.blocks.len() == old(self)@.blocks.len(),
            final(self)@.names.len() == old(self)@.names.len(),
    {
        let ghost start = self@;
        let mut i: usize = 0;
        while i < from.len()
            invariant
                i <= from@.len(),
                sound(self@),
                follows(start, self@),
                held_here(self@) == held_here(start),
                self@.settled == start.settled,
                self@.loops == start.loops,
                self@.current == start.current,
                same_ends(start, self@),
                start.settled ==> forall|j: int|
                    0 <= j < from@.len() ==> start.blocks[to.0 as int].given.subset_of(
                        held_at(start, #[trigger] from@[j]),
                    ),
                self@.blocks.len() == start.blocks.len(),
                self@.names.len() == start.names.len(),
                ids_within(from@, start.blocks.len()),
                to.0 < start.blocks.len(),
                all_sent(self@, from@, to, i as int) == all_sent(start, from@, to, 0),
            decreases from@.len() - i,
        {
            assert(from@[i as int].0 < start.blocks.len());
            proof {
                if start.settled {
                    assert(start.blocks[to.0 as int].given.subset_of(
                        held_at(start, from@[i as int]),
                    ));
                }
            }
            self.finish(from[i], Terminator::jump(to));
            i = i + 1;
        }
    }
}

/// What was asked where a block ended is still there, and what held there holds
/// there.
proof fn still_asked(
    before: State,
    after: State,
    at: BlockId,
    cond: Value,
    base: Set<VReg>,
)
    requires
        at == before.current,
        at.0 < before.blocks.len(),
        has(before, cond),
        kept(before, after),
        before.settled ==> base.subset_of(held_here(before)),
    ensures
        has_at(after, at, cond),
        after.settled ==> base.subset_of(held_at(after, at)),
        after.settled ==> held_here(before).subset_of(held_at(after, at)),
{
    assert(after.blocks[at.0 as int].given == before.blocks[at.0 as int].given);
}

/// A block is given what it was, and leaves no less.
proof fn block_stays(before: State, after: State, at: BlockId)
    requires
        kept(before, after),
        at.0 < before.blocks.len(),
    ensures
        after.blocks[at.0 as int].given == before.blocks[at.0 as int].given,
        held_at(before, at).subset_of(held_at(after, at)),
{
}

/// What holds all through the innermost loop stays what it was.
proof fn innermost_stays(before: State, after: State)
    requires
        kept(before, after),
        before.loops.len() > 0,
    ensures
        after.loops.last().base == before.loops.last().base,
{
    assert(after.loops[after.loops.len() - 1].base == before.loops[before.loops.len() - 1].base);
}

/// What held before two ways parted holds where both end.
pub proof fn both_hold(
    built: State,
    after: State,
    one: BlockId,
    other: BlockId,
    known: Set<VReg>,
)
    requires
        kept(built, after),
        one == built.current,
        other == after.current,
        one.0 < built.blocks.len(),
        after.settled ==> known.subset_of(held_here(built)) && known.subset_of(held_here(after)),
        after.settled ==> rests_on(after.scopes, after.loops, after.out_pointer, after.unset, known),
    ensures
        after.settled ==> known.subset_of(held_at(after, one).intersect(held_at(after, other))),
        after.settled ==> rests_on(
            after.scopes,
            after.loops,
            after.out_pointer,
            after.unset,
            held_at(after, one).intersect(held_at(after, other)),
        ),
{
    assert(after.blocks[one.0 as int].given == built.blocks[one.0 as int].given);
    if after.settled {
        rests_on_more(
            after.scopes,
            after.loops,
            after.out_pointer,
            after.unset,
            known,
            held_at(after, one).intersect(held_at(after, other)),
        );
    }
}

pub proof fn ids_still_within(ids: Seq<BlockId>, before: State, after: State)
    requires
        before.blocks.len() <= after.blocks.len(),
    ensures
        ids_within(ids, before.blocks.len()) ==> ids_within(ids, after.blocks.len()),
{
}

} // verus!
