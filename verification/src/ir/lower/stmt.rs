//! Lowering statements: declarations, assignments and the rest.

use vstd::prelude::*;

use crate::ast::{Block as AstBlock, Expr, ExprKind, Place, Stmt, Ty};
use crate::ir::block::{BlockKind, Terminator};
use crate::ir::instr::{Instr, InstrView, Runtime};
use crate::ir::lower::builder::Lowering;
use crate::ir::lower::expr::called_builtin;
use crate::ir::lower::meaning::{
    assignment_of, block_body, block_of, call_stmt_of, declaration_of, push_back, push_of,
    pushed_to_of, return_of, return_through_of, return_value_of, returned, stmt_body, stmt_of,
    stmts_from, Room,
};
use crate::ir::lower::owned::builds_its_own;
use crate::ir::lower::place::{append_chain, element_of, flag_of};
use crate::ir::lower::state::{
    all_rest, declaring_goes_on, emitted, follows, goes_on, has, is_set, limits, scope_closes,
    sound, writable, Context,
};
use crate::ir::value::{VReg, Value};

verus! {

impl Lowering {

    /// Lower a block's statements in a scope of their own.
    ///
    /// The frame is given back with the scope, so two blocks that cannot be
    /// running at the same time share their room. That is sound because no
    /// address ever travels outward: when a block's names go out of scope, so
    /// does every way of reaching what they named.
    pub fn block_stmts(&mut self, cx: &Context<'_>, block: &AstBlock)
        requires
            sound(old(self)@),
            old(self)@.limits == limits(cx@),
            block_of(cx@, old(self)@, *block) is Some,
        ensures
            Some(final(self)@) == block_of(cx@, old(self)@, *block),
            follows(old(self)@, final(self)@),
        decreases *block, 15int, 0int,
    {
        assert(block_of(cx@, self@, *block) == block_body(cx@, self@, *block));
        let outer: u32 = self.room();
        let ghost before = self@;
        self.open_scope();
        self.stmts(cx, &block.stmts);
        let ghost inside = self@;
        self.close_scope();
        proof {
            scope_closes(before, inside);
        }
        self.give_back(outer);
    }

    /// Lower statements in the scope that is open.
    pub fn stmts(&mut self, cx: &Context<'_>, stmts: &Vec<Stmt>)
        requires
            sound(old(self)@),
            old(self)@.limits == limits(cx@),
            stmts_from(cx@, old(self)@, *stmts, 0) is Some,
        ensures
            Some(final(self)@) == stmts_from(cx@, old(self)@, *stmts, 0),
            goes_on(old(self)@, final(self)@),
        decreases *stmts, 10int, stmts@.len(),
    {
        let ghost start = self@;
        let mut i: usize = 0;
        while i < stmts.len()
            invariant
                i <= stmts@.len(),
                sound(self@),
                self@.limits == limits(cx@),
                goes_on(start, self@),
                stmts_from(cx@, start, *stmts, 0) is Some,
                stmts_from(cx@, self@, *stmts, i as int) == stmts_from(cx@, start, *stmts, 0),
            decreases stmts@.len() - i,
        {
            self.stmt(cx, &stmts[i]);
            i = i + 1;
        }
    }

    /// Lower one statement.
    pub fn stmt(&mut self, cx: &Context<'_>, s: &Stmt)
        requires
            sound(old(self)@),
            old(self)@.limits == limits(cx@),
            stmt_of(cx@, old(self)@, *s) is Some,
        ensures
            Some(final(self)@) == stmt_of(cx@, old(self)@, *s),
            goes_on(old(self)@, final(self)@),
        decreases *s, 35int, 0int,
    {
        assert(stmt_of(cx@, self@, *s) == stmt_body(cx@, self@, *s));
        match s {
            Stmt::Decl { .. } => self.declaration(cx, s),
            Stmt::Assign { .. } => self.assignment(cx, s),
            Stmt::Push { .. } => self.push_stmt(cx, s),
            Stmt::Print { newline, parts } => self.print_stmt(cx, *newline, parts),
            Stmt::If { .. } => self.if_stmt(cx, s),
            Stmt::While { .. } => self.while_stmt(cx, s),
            // `for (init; cond; step) body` is exactly `init; while (cond) {
            // body; step; }` with the initialiser's variable scoped to the loop.
            Stmt::For { init, .. } => {
                let outer: u32 = self.room();
                let ghost before = self@;
                self.open_scope();
                self.stmt(cx, init);
                self.loop_with_step(cx, s);
                let ghost inside = self@;
                self.close_scope();
                proof {
                    scope_closes(before, inside);
                }
                // The initialiser's variable is scoped to the loop, so its room
                // goes back with it.
                self.give_back(outer);
            },
            Stmt::Return { .. } => self.return_stmt(cx, s),
            Stmt::Match(e) => self.match_lowering(cx, None, e),
            Stmt::Break => self.loop_jump(true),
            Stmt::Continue => self.loop_jump(false),
            Stmt::Call(e) => self.call_stmt(cx, e),
        }
    }

    /// Lower a declaration: the declared type, not the initialiser's.
    fn declaration(&mut self, cx: &Context<'_>, s: &Stmt)
        requires
            sound(old(self)@),
            old(self)@.limits == limits(cx@),
            declaration_of(cx@, old(self)@, *s) is Some,
        ensures
            Some(final(self)@) == declaration_of(cx@, old(self)@, *s),
            goes_on(old(self)@, final(self)@),
        decreases *s, 10int, 0int,
    {
        if let Stmt::Decl { id, name, init } = s {
            let ghost before = self@;
            let ty = cx.types.of(*id);
            let dst = self.fresh(name.as_str());
            let ghost named = self@;
            self.announce(name.as_str(), dst, ty);
            let ghost opened = self@;
            if ty.fits_in_a_register() {
                self.keep_into(cx, dst, init);
            } else if builds_its_own(init) {
                // An aggregate variable owns its room. An expression that
                // reserved some already moves in.
                self.expr_into(cx, dst, init);
            } else {
                // Anything else names room that belongs to something else, and
                // is copied out of it.
                self.allocate_for(cx, dst, ty);
                self.write_through(cx, Value::Reg(dst), init, Room::Fresh);
            }
            let ghost done = self@;
            self.fill(Ghost(dst), Ghost(named.unset));
            proof {
                declaring_goes_on(before, named, opened, done);
            }
        }
    }

    /// Lower an assignment.
    fn assignment(&mut self, cx: &Context<'_>, s: &Stmt)
        requires
            sound(old(self)@),
            old(self)@.limits == limits(cx@),
            assignment_of(cx@, old(self)@, *s) is Some,
        ensures
            Some(final(self)@) == assignment_of(cx@, old(self)@, *s),
            follows(old(self)@, final(self)@),
        decreases *s, 10int, 0int,
    {
        if let Stmt::Assign { target, value } = s {
            match target {
                Place::Var { name } => {
                    let (dst, ty) = self.binding(name);
                    if !ty.fits_in_a_register() {
                        // An aggregate variable keeps its *room*, so the value
                        // is copied into it rather than the address swapped:
                        // anything else would make assignment aliasing.
                        self.note_settled(Ghost(!self@.unset.contains(dst)));
                        self.write_through(cx, Value::Reg(dst), value, Room::Named);
                    } else if append_chain(cx, name, value) {
                        // `s = s + a + b`, where nothing else can be holding
                        // `s`: added to where `s` already is.
                        self.note_settled(Ghost(!self@.unset.contains(dst)));
                        self.append_pieces(cx, dst, value);
                    } else {
                        self.keep_into(cx, dst, value);
                    }
                },
                // Everything else names memory rather than a register, so the
                // write goes through an address.
                _ => {
                    let addr = self.place_address(cx, target);
                    self.write_through(cx, Value::Reg(addr), value, Room::Named);
                },
            }
        }
    }

    /// Lower a push. The routine answers where the list *now* is, and that
    /// answer has to land back where the list is named.
    fn push_stmt(&mut self, cx: &Context<'_>, s: &Stmt)
        requires
            sound(old(self)@),
            old(self)@.limits == limits(cx@),
            push_of(cx@, old(self)@, *s) is Some,
        ensures
            Some(final(self)@) == push_of(cx@, old(self)@, *s),
            follows(old(self)@, final(self)@),
        decreases *s, 10int, 0int,
    {
        if let Stmt::Push { target, value } = s {
            let list = self.place_type(cx, target);
            let (elem, bytes) = element_of(cx, list);
            let value = self.expr(cx, value);
            // An element too big for a register arrives as its address, and
            // what the routine does with it is a copy, which owns nothing yet.
            let (callee, rest): (Runtime, Vec<Value>) = if elem.fits_in_a_register() {
                let rest: Vec<Value> = vec![value];
                assert(rest@ =~= seq![value]);
                (Runtime::ListPush, rest)
            } else {
                let deep: i64 = flag_of(cx.types.table().holds_a_list(elem));
                let rest: Vec<Value> = vec![
                    value,
                    Value::Const(bytes as i64),
                    Value::Const(deep),
                ];
                assert(rest@ =~= seq![value, Value::Const(bytes as i64), Value::Const(deep)]);
                (Runtime::ListPushBig, rest)
            };
            self.push_to(cx, callee, rest, target);
        }
    }

    /// The push itself, once its value is evaluated.
    fn push_to(&mut self, cx: &Context<'_>, callee: Runtime, rest: Vec<Value>, target: &Place)
        requires
            sound(old(self)@),
            old(self)@.limits == limits(cx@),
            forall|i: int|
                0 <= i < rest@.len() ==> has(old(self)@, #[trigger] rest@[i]),
            pushed_to_of(cx@, old(self)@, callee, rest@, *target) is Some,
        ensures
            Some(final(self)@) == pushed_to_of(cx@, old(self)@, callee, rest@, *target),
            follows(old(self)@, final(self)@),
        decreases *target, 30int, 0int,
    {
        match target {
            Place::Var { name } => {
                let ghost had = self@;
                let (dst, _) = self.binding(name);
                self.note_settled(Ghost(!self@.unset.contains(dst)));
                assert forall|i: int| 0 <= i < rest@.len() implies has(
                    self@,
                    #[trigger] rest@[i],
                ) by {
                    assert(has(had, rest@[i]));
                }
                self.call_with(dst, dst, callee, rest);
            },
            _ => {
                let ghost had = self@;
                let addr = self.place_address(cx, target);
                assert forall|i: int| 0 <= i < rest@.len() implies has(self@, #[trigger] rest@[i]) by {
                    assert(has(had, rest@[i]));
                }
                self.push_through(addr, callee, rest);
            },
        }
    }

    /// Call a routine on what a register holds and some more arguments.
    fn call_with(&mut self, dst: VReg, first: VReg, callee: Runtime, rest: Vec<Value>)
        requires
            sound(old(self)@),
            writable(old(self)@, dst),
            has(old(self)@, Value::Reg(first)),
            forall|i: int|
                0 <= i < rest@.len() ==> has(old(self)@, #[trigger] rest@[i]),
        ensures
            final(self)@ == emitted(
                old(self)@,
                InstrView::RtCall {
                    dst: Some(dst),
                    callee,
                    args: seq![Value::Reg(first)] + rest@,
                },
            ),
            follows(old(self)@, final(self)@),
            is_set(final(self)@, dst),
    {
        let ghost tail = rest@;
        let mut args: Vec<Value> = rest;
        args.insert(0, Value::Reg(first));
        assert(args@ =~= seq![Value::Reg(first)] + tail);
        assert forall|i: int| 0 <= i < args@.len() implies has(self@, #[trigger] args@[i]) by {
            if i > 0 {
                assert(args@[i] == tail[i - 1]);
            }
        }
        self.emit(Instr::RtCall { dst: Some(dst), callee, args });
    }

    /// Push to a list that lives in memory: read it, grow it, and write back
    /// where it now is.
    fn push_through(&mut self, addr: VReg, callee: Runtime, rest: Vec<Value>)
        requires
            sound(old(self)@),
            has(old(self)@, Value::Reg(addr)),
            forall|i: int|
                0 <= i < rest@.len() ==> has(old(self)@, #[trigger] rest@[i]),
            push_back(old(self)@, addr, callee, rest@) is Some,
        ensures
            Some(final(self)@) == push_back(old(self)@, addr, callee, rest@),
            follows(old(self)@, final(self)@),
    {
        let ghost had = self@;
        let held = self.fresh_temp();
        self.emit(Instr::Load { dst: held, addr: Value::Reg(addr) });
        let grown = self.fresh_temp();
        assert forall|i: int| 0 <= i < rest@.len() implies has(self@, #[trigger] rest@[i]) by {
            assert(has(had, rest@[i]));
        }
        self.call_with(grown, held, callee, rest);
        self.emit(Instr::Store { addr: Value::Reg(addr), value: Value::Reg(grown) });
    }

    /// Finish the current block with a return. Anything written after it still
    /// needs somewhere to go: a block with no predecessor.
    fn leave(&mut self, value: Option<Value>)
        requires
            sound(old(self)@),
            match value {
                Some(value) => has(old(self)@, value),
                None => true,
            },
            returned(old(self)@, value) is Some,
        ensures
            Some(final(self)@) == returned(old(self)@, value),
            follows(old(self)@, final(self)@),
    {
        self.terminate(Terminator::Return(value));
        proof {
            all_rest(self@);
        }
        self.new_block(BlockKind::Unreachable, Ghost(Set::full()));
    }

    /// Lower a `return`.
    fn return_stmt(&mut self, cx: &Context<'_>, s: &Stmt)
        requires
            sound(old(self)@),
            old(self)@.limits == limits(cx@),
            return_of(cx@, old(self)@, *s) is Some,
        ensures
            Some(final(self)@) == return_of(cx@, old(self)@, *s),
            follows(old(self)@, final(self)@),
        decreases *s, 10int, 0int,
    {
        if let Stmt::Return { value } = s {
            match value {
                None => self.leave(None),
                Some(e) => match self.out_pointer() {
                    Some(out) => self.return_through(cx, out, e),
                    None => self.return_value(cx, e),
                },
            }
        }
    }

    /// An aggregate answer is copied into the room the caller reserved, and the
    /// function then leaves with nothing.
    fn return_through(&mut self, cx: &Context<'_>, out: VReg, e: &Expr)
        requires
            sound(old(self)@),
            old(self)@.limits == limits(cx@),
            has(old(self)@, Value::Reg(out)),
            return_through_of(cx@, old(self)@, out, *e) is Some,
        ensures
            Some(final(self)@) == return_through_of(cx@, old(self)@, out, *e),
            follows(old(self)@, final(self)@),
        decreases *e, 90int, 0int,
    {
        self.write_through(cx, Value::Reg(out), e, Room::Fresh);
        self.leave(None);
    }

    /// Handed *outward*, so a list somebody else owns is copied here rather
    /// than at the call site. Nothing else needs a register of its own: `return
    /// 0` stays an immediate.
    fn return_value(&mut self, cx: &Context<'_>, e: &Expr)
        requires
            sound(old(self)@),
            old(self)@.limits == limits(cx@),
            return_value_of(cx@, old(self)@, *e) is Some,
        ensures
            Some(final(self)@) == return_value_of(cx@, old(self)@, *e),
            follows(old(self)@, final(self)@),
        decreases *e, 80int, 0int,
    {
        match cx.types.of(e.id) {
            Ty::List(_) => {
                let dst = self.fresh_temp();
                self.keep_into(cx, dst, e);
                self.leave(Some(Value::Reg(dst)));
            },
            _ => {
                let value = self.expr(cx, e);
                self.leave(Some(value));
            },
        }
    }

    /// Lower a call whose answer is thrown away. One that does not fit in a
    /// register still needs room to go in.
    fn call_stmt(&mut self, cx: &Context<'_>, e: &Expr)
        requires
            sound(old(self)@),
            old(self)@.limits == limits(cx@),
            call_stmt_of(cx@, old(self)@, *e) is Some,
        ensures
            Some(final(self)@) == call_stmt_of(cx@, old(self)@, *e),
            follows(old(self)@, final(self)@),
        decreases *e, 20int, 0int,
    {
        proof {
            reveal(limits);
        }
        if let ExprKind::MethodCall { .. } = &e.kind {
            self.method_call(cx, None, e);
            return;
        }
        if let Some(builtin) = called_builtin(e) {
            self.call_builtin(cx, None, builtin, e);
            return;
        }
        let (callee, args) = self.call_parts(cx, e);
        let ret: Option<Ty> = cx.types.ret_of(callee.0 as usize);
        let (dst, args) = self.hand_room(cx, None, ret, args);
        self.emit(Instr::Call { dst, callee, args });
    }
}

} // verus!
