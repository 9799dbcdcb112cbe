//! Lowering enums and `match`.

use vstd::prelude::*;

use crate::ast::{ArmBody, CmpOp, EnumId, Expr, ExprKind, MatchArm, Pattern, Ty};
use crate::ir::block::{BlockKind, Terminator};
use crate::ir::instr::{Instr, Runtime};
use crate::ir::lower::builder::Lowering;
use crate::ir::lower::flow::ids_still_within;
use crate::ir::lower::meaning::{
    arm_body_of, arm_opened, arm_tested, arms_from, bindings_from, boxed_enum, match_of, matched,
    payload_bound, payload_from, payload_offset, payload_types, tag_of_variant, tag_read,
    tests_ended, variant_into_of, variant_number, ArmTest, Matching, Room,
};
use crate::ir::lower::place::{element_of, flag_of};
use crate::ir::lower::state::{
    all_contain, all_hold, follows, goes_on, has, held_at, held_by_all, held_by_end, held_here,
    here_rests, ids_contain, ids_leave, ids_still_contain, ids_still_leave, ids_within, is_set,
    kept, limits, one_of_all, rests_on, rests_on_more, same_ends, scope_closes, sound, stands,
    still_rests, writable, Context, State,
};
use crate::ir::value::{value_within, BlockId, Num, VReg, Value};

verus! {

/// Where a payload slot of a boxed enum sits: behind the tag, a word each.
pub fn payload_at(cx: &Context<'_>, index: u32) -> (offset: u32)
    requires
        payload_offset(cx@, index) is Some,
    ensures
        Some(offset) == payload_offset(cx@, index),
{
    let word: u32 = cx.types.table().layout.word;
    assert(index * word <= u32::MAX);
    cx.types.table().layout.tag() + index * word
}

/// The number a variant is known by.
fn number_of_variant(cx: &Context<'_>, id: EnumId, variant: &String) -> (tag: i64)
    requires
        cx.types.table.has_enum(id),
        variant_number(cx@, id, variant@) is Some,
    ensures
        Some(tag) == variant_number(cx@, id, variant@),
        cx@.types.table.enums@[id.0 as int].variants@.len() <= u32::MAX ==> 0 <= tag
            < cx@.types.table.enums@[id.0 as int].variants@.len(),
{
    match cx.types.table().enum_info(id).tag(variant) {
        Some(tag) => tag,
        None => {
            assert(false);
            0
        },
    }
}

/// What a variant carries, copied out.
fn payload_of(cx: &Context<'_>, id: EnumId, variant: &String) -> (payload: Vec<Ty>)
    requires
        cx.types.table.has_enum(id),
    ensures
        payload@ == payload_types(cx@, id, variant@),
{
    let mut payload: Vec<Ty> = Vec::new();
    match cx.types.table().enum_info(id).variant(variant) {
        Some(info) => {
            let mut i: usize = 0;
            while i < info.payload.len()
                invariant
                    i <= info.payload@.len(),
                    payload@ == info.payload@.subrange(0, i as int),
                decreases info.payload@.len() - i,
            {
                payload.push(info.payload[i]);
                i = i + 1;
                assert(info.payload@.subrange(0, i as int) =~= info.payload@.subrange(
                    0,
                    i - 1,
                ).push(info.payload@[i - 1]));
            }
            assert(info.payload@.subrange(0, i as int) =~= info.payload@);
        },
        None => {},
    }
    payload
}

impl Lowering {

    /// Lower a `match` into a chain of equality tests, optionally leaving what
    /// its arms produced in `dst`.
    ///
    /// A variant is its tag, so this is the same shape as `if / else if`, with
    /// one saving that only exhaustiveness makes safe: **the last arm is not
    /// tested at all.**
    pub fn match_lowering(&mut self, cx: &Context<'_>, dst: Option<VReg>, e: &Expr)
        requires
            sound(old(self)@),
            old(self)@.limits == limits(cx@),
            match dst {
                Some(reg) => writable(old(self)@, reg),
                None => true,
            },
            match_of(cx@, old(self)@, dst, *e) is Some,
        ensures
            Some(final(self)@) == match_of(cx@, old(self)@, dst, *e),
            follows(old(self)@, final(self)@),
            match dst {
                Some(reg) => is_set(final(self)@, reg),
                None => true,
            },
        decreases *e, 10int, 0int,
    {
        match &e.kind {
            ExprKind::Match { scrutinee, arms } => {
                let ty = cx.types.of(scrutinee.id);
                let value = self.expr(cx, scrutinee);
                // A boxed enum is a pointer, and every test below is about the
                // tag it points at, so that is read once here rather than once
                // per arm.
                let tested = self.tag_of(cx, ty, value);
                let before = self.current();
                let ghost known = held_here(self@);
                let ghost begun = self@;
                let mut entries: Vec<BlockId> = Vec::new();
                let mut tests: Vec<ArmTest> = Vec::new();
                let mut exits: Vec<BlockId> = Vec::new();
                self.lower_arms(
                    cx,
                    dst,
                    ty,
                    value,
                    tested,
                    arms,
                    &mut entries,
                    &mut tests,
                    &mut exits,
                );
                proof {
                    here_rests(begun);
                    still_rests(begun, self@, known);
                    if self@.settled {
                        all_hold(self@, exits@, exits@.len() as int, known);
                        if let Some(reg) = dst {
                            all_contain(self@, exits@, exits@.len() as int, reg);
                        }
                    }
                }
                self.join_arms(before, entries, tests, exits, Ghost(known));
            },
            _ => {
                assert(false);
            },
        }
    }

    /// Lower the arms of a `match`: where each arm's decision begins, so a
    /// failing test knows where to send control; the tests themselves, which
    /// cannot be finished until the arm *after* them exists; and where each arm
    /// ended.
    fn lower_arms(
        &mut self,
        cx: &Context<'_>,
        dst: Option<VReg>,
        ty: Ty,
        value: Value,
        tested: Value,
        arms: &Vec<MatchArm>,
        entries: &mut Vec<BlockId>,
        tests: &mut Vec<ArmTest>,
        exits: &mut Vec<BlockId>,
    )
        requires
            sound(old(self)@),
            old(self)@.limits == limits(cx@),
            cx.types.table.knows(ty),
            match dst {
                Some(reg) => writable(old(self)@, reg),
                None => true,
            },
            has(old(self)@, value),
            has(old(self)@, tested),
            old(entries)@ == Seq::<BlockId>::empty(),
            old(tests)@ == Seq::<ArmTest>::empty(),
            old(exits)@ == Seq::<BlockId>::empty(),
            arms_from(
                cx@,
                Matching {
                    st: old(self)@,
                    entries: seq![],
                    tests: seq![],
                    exits: seq![],
                    known: held_here(old(self)@),
                },
                dst,
                ty,
                value,
                tested,
                *arms,
                0,
            ) is Some,
        ensures
            Some(
                (Matching {
                    st: final(self)@,
                    entries: final(entries)@,
                    tests: final(tests)@,
                    exits: final(exits)@,
                    known: held_here(old(self)@),
                }),
            ) == arms_from(
                cx@,
                Matching {
                    st: old(self)@,
                    entries: seq![],
                    tests: seq![],
                    exits: seq![],
                    known: held_here(old(self)@),
                },
                dst,
                ty,
                value,
                tested,
                *arms,
                0,
            ),
            stands(old(self)@, final(self)@),
            final(self)@.scopes == old(self)@.scopes,
            final(self)@.settled ==> {
                &&& ids_leave(final(exits)@, final(self)@.blocks, held_here(old(self)@))
                &&& arms_given(
                    final(entries)@,
                    final(tests)@,
                    final(self)@,
                    held_here(old(self)@),
                    old(self)@.current,
                )
            },
            match dst {
                Some(reg) => final(self)@.settled ==> ids_contain(
                    final(exits)@,
                    final(self)@,
                    reg,
                ),
                None => true,
            },
            ids_within(final(entries)@, final(self)@.blocks.len()),
            ids_within(final(exits)@, final(self)@.blocks.len()),
            tests_within(final(tests)@, final(self)@),
            final(entries)@.len() > 0 ==> final(tests)@.len() + 1 == final(entries)@.len(),
        decreases *arms, 10int, arms@.len(),
    {
        let ghost known = held_here(self@);
        let ghost start = Matching {
            st: self@,
            entries: seq![],
            tests: seq![],
            exits: seq![],
            known,
        };
        let ghost entry = self@;
        let ghost before_arms = self@.current;
        proof {
            here_rests(self@);
        }
        let mut i: usize = 0;
        while i < arms.len()
            invariant
                i <= arms@.len(),
                sound(self@),
                self@.limits == limits(cx@),
                stands(entry, self@),
                self@.scopes == entry.scopes,
                known == held_here(entry),
                before_arms == entry.current,
                before_arms.0 < entry.blocks.len(),
                entry.settled ==> rests_on(entry.scopes, entry.loops, entry.out_pointer, entry.unset, known),
                i == 0 ==> self@ == entry,
                cx.types.table.knows(ty),
                match dst {
                    Some(reg) => writable(entry, reg) && (self@.settled ==> ids_contain(
                        exits@,
                        self@,
                        reg,
                    )),
                    None => true,
                },
                has(entry, value),
                has(entry, tested),
                entries@.len() == i,
                exits@.len() == i,
                self@.settled ==> ids_leave(exits@, self@.blocks, known) && arms_given(
                    entries@,
                    tests@,
                    self@,
                    known,
                    before_arms,
                ),
                ids_within(entries@, self@.blocks.len()),
                ids_within(exits@, self@.blocks.len()),
                tests@.len() == if i == arms@.len() && i > 0 {
                    i - 1
                } else {
                    i as int
                },
                tests_within(tests@, self@),
                arms_from(cx@, start, dst, ty, value, tested, *arms, 0) is Some,
                arms_from(
                    cx@,
                    (Matching {
                        st: self@,
                        entries: entries@,
                        tests: tests@,
                        exits: exits@,
                        known,
                    }),
                    dst,
                    ty,
                    value,
                    tested,
                    *arms,
                    i as int,
                ) == arms_from(cx@, start, dst, ty, value, tested, *arms, 0),
            decreases arms@.len() - i,
        {
            let ghost held = self@;
            let ghost before = Matching {
                st: self@,
                entries: entries@,
                tests: tests@,
                exits: exits@,
                known,
            };
            proof {
                still_rests(entry, self@, known);
            }
            self.open_arm(
                cx,
                ty,
                tested,
                &arms[i],
                i,
                i + 1 == arms.len(),
                entries,
                tests,
                Ghost(known),
                Ghost(before_arms),
            );
            proof {
                ids_still_within(exits@, held, self@);
                ids_still_leave(exits@, held, self@, known);
            }
            let ghost opened_at = self@;
            self.arm_body(cx, dst, ty, value, &arms[i]);
            let exit = self.current();
            proof {
                ids_still_leave(exits@, opened_at, self@, known);
                arms_still_given(entries@, tests@, opened_at, self@, known, before_arms);
                if let Some(reg) = dst {
                    ids_still_contain(exits@, held, self@, reg);
                }
                tests_still_within(tests@, opened_at, self@);
                ids_still_within(exits@, opened_at, self@);
                ids_still_within(entries@, opened_at, self@);
            }
            let ghost ended_at = exits@;
            exits.push(exit);
            proof {
                here_rests(self@);
                if self@.settled {
                    assert(known.subset_of(held_here(self@)));
                    assert forall|j: int| 0 <= j < exits@.len() implies (
                    #[trigger] exits@[j]).0 < self@.blocks.len() && known.subset_of(
                        held_by_end(self@.blocks[exits@[j].0 as int]),
                    ) by {
                        if j < ended_at.len() {
                            assert(exits@[j] == ended_at[j]);
                        }
                    }
                }
            }
            i = i + 1;
        }
    }

    /// Open an arm's block, behind its test.
    fn open_arm(
        &mut self,
        cx: &Context<'_>,
        ty: Ty,
        tested: Value,
        arm: &MatchArm,
        i: usize,
        last: bool,
        entries: &mut Vec<BlockId>,
        tests: &mut Vec<ArmTest>,
        Ghost(known): Ghost<Set<VReg>>,
        Ghost(first): Ghost<BlockId>,
    )
        requires
            sound(old(self)@),
            old(self)@.limits == limits(cx@),
            cx.types.table.knows(ty),
            value_within(tested, old(self)@.names.len()),
            old(self)@.settled ==> {
                &&& rests_on(
                    old(self)@.scopes,
                    old(self)@.loops,
                    old(self)@.out_pointer,
                    old(self)@.unset,
                    known,
                )
                &&& tested matches Value::Reg(reg) ==> known.contains(reg)
                &&& arms_given(old(entries)@, old(tests)@, old(self)@, known, first)
            },
            i == 0 ==> first == old(self)@.current && known == held_here(old(self)@),
            first.0 < old(self)@.blocks.len(),
            old(entries)@.len() == i,
            ids_within(old(entries)@, old(self)@.blocks.len()),
            tests_within(old(tests)@, old(self)@),
            forall|exits: Seq<BlockId>|
                #[trigger] arm_opened(
                    cx@,
                    (Matching {
                        st: old(self)@,
                        entries: old(entries)@,
                        tests: old(tests)@,
                        exits,
                        known,
                    }),
                    ty,
                    tested,
                    arm.pattern,
                    i as int,
                    last,
                ) is Some,
        ensures
            forall|exits: Seq<BlockId>|
                Some(
                    (Matching {
                        st: final(self)@,
                        entries: final(entries)@,
                        tests: final(tests)@,
                        exits,
                        known,
                    }),
                ) == #[trigger] arm_opened(
                    cx@,
                    (Matching {
                        st: old(self)@,
                        entries: old(entries)@,
                        tests: old(tests)@,
                        exits,
                        known,
                    }),
                    ty,
                    tested,
                    arm.pattern,
                    i as int,
                    last,
                ),
            stands(old(self)@, final(self)@),
            final(self)@.scopes == old(self)@.scopes,
            held_here(final(self)@) == known,
            final(self)@.settled ==> arms_given(
                final(entries)@,
                final(tests)@,
                final(self)@,
                known,
                first,
            ),
            ids_within(final(entries)@, final(self)@.blocks.len()),
            tests_within(final(tests)@, final(self)@),
            final(entries)@.len() == old(entries)@.len() + 1,
            final(tests)@.len() == old(tests)@.len() + if last {
                0int
            } else {
                1int
            },
    {
        let ghost held = self@;
        let ghost given = entries@;
        let ghost decided = tests@;
        assert(arm_opened(
            cx@,
            Matching { st: self@, entries: entries@, tests: tests@, exits: seq![], known },
            ty,
            tested,
            arm.pattern,
            i as int,
            last,
        ) is Some);
        if last {
            // The last arm is never tested: control simply runs in.
            let id = self.new_block(BlockKind::Arm, Ghost(known));
            entries.push(id);
        } else {
            // The first test belongs to the block the scrutinee was computed
            // in; each later one gets a block of its own for the previous test
            // to fail into.
            if i > 0 {
                self.new_block(BlockKind::Case, Ghost(known));
            }
            let ghost asked = self@;
            let deciding = self.current();
            entries.push(deciding);
            let cond = self.arm_test(cx, ty, tested, arm);
            let test = self.current();
            proof {
                still_rests(held, self@, known);
            }
            let ghost tested_at = self@;
            let arm_block = self.new_block(BlockKind::Arm, Ghost(known));
            tests.push(ArmTest { block: test, cond, arm: arm_block });
            proof {
                if self@.settled {
                    assert forall|reg: VReg| known.contains(reg) implies held_at(
                        self@,
                        test,
                    ).contains(reg) by {
                        assert(held_here(asked).contains(reg));
                        assert(held_here(tested_at).contains(reg));
                    }
                }
            }
        }
        proof {
            tests_still_within(decided, held, self@);
            ids_still_within(given, held, self@);
            arms_still_given(given, decided, held, self@, known, first);
        }
    }

    /// An arm's body, in a scope of its own: what the pattern named is in scope
    /// for exactly this arm.
    fn arm_body(
        &mut self,
        cx: &Context<'_>,
        dst: Option<VReg>,
        ty: Ty,
        value: Value,
        arm: &MatchArm,
    )
        requires
            sound(old(self)@),
            old(self)@.limits == limits(cx@),
            match dst {
                Some(reg) => writable(old(self)@, reg),
                None => true,
            },
            cx.types.table.knows(ty),
            has(old(self)@, value),
            arm_body_of(cx@, old(self)@, dst, ty, value, *arm) is Some,
        ensures
            Some(final(self)@) == arm_body_of(cx@, old(self)@, dst, ty, value, *arm),
            follows(old(self)@, final(self)@),
            match dst {
                Some(reg) => is_set(final(self)@, reg),
                None => true,
            },
        decreases *arm, 10int, 0int,
    {
        let ghost before = self@;
        self.open_scope();
        self.bind_arm_payload(cx, ty, value, arm);
        match &arm.body {
            // A value arm leaves its answer where the join will read it.
            ArmBody::Value(answer) => match dst {
                Some(dst) => self.expr_into(cx, dst, answer),
                None => {
                    assert(false);
                },
            },
            ArmBody::Block(block) => {
                self.block_stmts(cx, block);
                let ghost left = dst is Some ==> held_here(self@) == Set::<VReg>::full();
                self.note_settled(Ghost(left));
            },
        }
        let ghost inside = self@;
        self.close_scope();
        proof {
            scope_closes(before, inside);
        }
    }

    /// Join the arms of a `match` and finish every block along the way.
    fn join_arms(
        &mut self,
        before: BlockId,
        entries: Vec<BlockId>,
        tests: Vec<ArmTest>,
        exits: Vec<BlockId>,
        Ghost(known): Ghost<Set<VReg>>,
    )
        requires
            sound(old(self)@),
            old(self)@.settled ==> {
                &&& ids_leave(exits@, old(self)@.blocks, known)
                &&& arms_given(entries@, tests@, old(self)@, known, before)
                &&& known.subset_of(held_at(old(self)@, before))
                &&& rests_on(
                    old(self)@.scopes,
                    old(self)@.loops,
                    old(self)@.out_pointer,
                    old(self)@.unset,
                    known,
                )
            },
            before.0 < old(self)@.blocks.len(),
            ids_within(entries@, old(self)@.blocks.len()),
            ids_within(exits@, old(self)@.blocks.len()),
            tests_within(tests@, old(self)@),
            entries@.len() > 0 ==> tests@.len() + 1 == entries@.len(),
            matched(
                Matching {
                    st: old(self)@,
                    entries: entries@,
                    tests: tests@,
                    exits: exits@,
                    known,
                },
                before,
            ) is Some,
        ensures
            Some(final(self)@) == matched(
                Matching {
                    st: old(self)@,
                    entries: entries@,
                    tests: tests@,
                    exits: exits@,
                    known,
                },
                before,
            ),
            stands(old(self)@, final(self)@),
            final(self)@.scopes == old(self)@.scopes,
            held_here(final(self)@) == held_by_all(old(self)@, exits@, exits@.len() as int),
    {
        let ghost given = self@;
        let ghost common = held_by_all(self@, exits@, exits@.len() as int);
        proof {
            if self@.settled {
                all_hold(self@, exits@, exits@.len() as int, known);
                rests_on_more(self@.scopes, self@.loops, self@.out_pointer, self@.unset, known, common);
            }
        }
        let join = self.new_block(BlockKind::Join, Ghost(common));
        proof {
            arms_still_given(entries@, tests@, given, self@, known, before);
            tests_still_within(tests@, given, self@);
            ids_still_within(exits@, given, self@);
            ids_still_within(entries@, given, self@);
        }
        // A single arm has nothing to test, so control simply runs into it.
        if tests.len() == 0 {
            assert(entries@[0].0 < self@.blocks.len());
            self.finish(before, Terminator::jump(entries[0]));
        }
        let ghost start = self@;
        let mut i: usize = 0;
        while i < tests.len()
            invariant
                i <= tests@.len(),
                tests@.len() + 1 == entries@.len(),
                sound(self@),
                stands(start, self@),
                self@.scopes == start.scopes,
                self@.settled == start.settled,
                self@.loops == start.loops,
                held_here(self@) == held_here(start),
                same_ends(start, self@),
                self@.settled ==> arms_given(entries@, tests@, start, known, before),
                self@.blocks.len() == start.blocks.len(),
                self@.names.len() == start.names.len(),
                tests_within(tests@, start),
                ids_within(entries@, start.blocks.len()),
                tests_ended(self@, tests@, entries@, i as int) == tests_ended(
                    start,
                    tests@,
                    entries@,
                    0,
                ),
            decreases tests@.len() - i,
        {
            let test: ArmTest = tests[i];
            assert(test_within(tests@[i as int], start));
            assert(entries@[i + 1].0 < start.blocks.len());
            proof {
                if self@.settled {
                    assert(test_given(tests@[i as int], start, known));
                    assert(start.blocks[entries@[i + 1].0 as int].given.subset_of(known));
                }
            }
            self.finish(test.block, Terminator::branch(test.cond, test.arm, entries[i + 1]));
            i = i + 1;
        }
        proof {
            assert forall|k: int| 0 <= k < exits@.len() implies common.subset_of(
                held_at(self@, #[trigger] exits@[k]),
            ) by {
                one_of_all(given, exits@, exits@.len() as int, k);
                let b = exits@[k].0 as int;
                assert(self@.blocks[b].given == start.blocks[b].given);
            }
        }
        self.send_all(&exits, join);
        self.switch_to(join);
    }

    /// Build `Enum::Variant(...)` into `dst`.
    ///
    /// An enum whose variants all carry nothing *is* its tag. One that carries
    /// something is a **pointer** to its tag and payload in the arena.
    pub fn variant_into(&mut self, cx: &Context<'_>, dst: VReg, e: &Expr)
        requires
            sound(old(self)@),
            old(self)@.limits == limits(cx@),
            writable(old(self)@, dst),
            variant_into_of(cx@, old(self)@, dst, *e) is Some,
        ensures
            Some(final(self)@) == variant_into_of(cx@, old(self)@, dst, *e),
            follows(old(self)@, final(self)@),
            is_set(final(self)@, dst),
        decreases *e, 10int, 0int,
    {
        proof {
            reveal(limits);
        }
        match &e.kind {
            ExprKind::Variant { variant, args } => match cx.types.of(e.id) {
                Ty::Enum(id) => {
                    let tag: i64 = number_of_variant(cx, id, variant);
                    if !cx.types.table().enum_info(id).carries_data() {
                        self.emit(Instr::Const { dst, val: tag });
                        return;
                    }
                    // A variant of a boxed enum that carries nothing is the same
                    // value every time it is written, so it is written down
                    // once.
                    if args.len() == 0 {
                        self.emit(Instr::VariantAddr { dst, id, tag: tag as u32 });
                        return;
                    }
                    let slots: u32 = cx.types.table().enum_info(id).slots() as u32;
                    let bytes: u32 = payload_at(cx, slots);
                    let room: Vec<Value> = vec![Value::Const(bytes as i64)];
                    assert(room@ =~= seq![Value::Const(bytes as i64)]);
                    self.emit(
                        Instr::RtCall { dst: Some(dst), callee: Runtime::Alloc, args: room },
                    );
                    self.emit(Instr::Store { addr: Value::Reg(dst), value: Value::Const(tag) });
                    self.fill_payload(cx, dst, args);
                },
                _ => {
                    assert(false);
                },
            },
            _ => {
                assert(false);
            },
        }
    }

    /// Put what a variant carries behind its tag.
    fn fill_payload(&mut self, cx: &Context<'_>, dst: VReg, args: &Vec<Expr>)
        requires
            sound(old(self)@),
            old(self)@.limits == limits(cx@),
            writable(old(self)@, dst),
            is_set(old(self)@, dst),
            payload_from(cx@, old(self)@, dst, *args, 0) is Some,
        ensures
            Some(final(self)@) == payload_from(cx@, old(self)@, dst, *args, 0),
            follows(old(self)@, final(self)@),
        decreases *args, 10int, args@.len(),
    {
        let ghost start = self@;
        let mut i: usize = 0;
        while i < args.len()
            invariant
                i <= args@.len(),
                sound(self@),
                self@.limits == limits(cx@),
                follows(start, self@),
                writable(start, dst),
                is_set(start, dst),
                payload_from(cx@, start, dst, *args, 0) is Some,
                payload_from(cx@, self@, dst, *args, i as int) == payload_from(
                    cx@,
                    start,
                    dst,
                    *args,
                    0,
                ),
            decreases args@.len() - i,
        {
            let at = self.fresh_temp();
            let offset: u32 = payload_at(cx, i as u32);
            self.emit(Instr::Field { dst: at, base: Value::Reg(dst), offset });
            // What goes into a variant is the variant's from then on, so a list
            // is copied in rather than shared.
            self.write_through(cx, Value::Reg(at), &args[i], Room::Fresh);
            i = i + 1;
        }
    }

    /// Whether a value of this type is a pointer to a tag rather than the tag.
    pub fn is_boxed_enum(&self, cx: &Context<'_>, ty: Ty) -> (boxed: bool)
        requires
            cx.types.table.knows(ty),
        ensures
            boxed == boxed_enum(cx@, ty),
    {
        match ty {
            Ty::Enum(id) => cx.types.table().enum_info(id).carries_data(),
            _ => false,
        }
    }

    /// The tag of an enum value, whichever of the two shapes it has.
    pub fn tag_of(&mut self, cx: &Context<'_>, ty: Ty, value: Value) -> (tag: Value)
        requires
            sound(old(self)@),
            old(self)@.limits == limits(cx@),
            cx.types.table.knows(ty),
            has(old(self)@, value),
            tag_read(cx@, old(self)@, ty, value) is Some,
        ensures
            Some((final(self)@, tag)) == tag_read(cx@, old(self)@, ty, value),
            follows(old(self)@, final(self)@),
            has(final(self)@, tag),
    {
        if !self.is_boxed_enum(cx, ty) {
            return value;
        }
        let dst = self.fresh_temp();
        self.emit(Instr::Load { dst, addr: value });
        Value::Reg(dst)
    }

    /// Name what the matched variant carries, at the top of its arm.
    ///
    /// A list comes out as a copy, exactly as it went in.
    pub fn bind_arm_payload(&mut self, cx: &Context<'_>, ty: Ty, value: Value, arm: &MatchArm)
        requires
            sound(old(self)@),
            old(self)@.limits == limits(cx@),
            cx.types.table.knows(ty),
            has(old(self)@, value),
            payload_bound(cx@, old(self)@, ty, value, arm.pattern) is Some,
        ensures
            Some(final(self)@) == payload_bound(cx@, old(self)@, ty, value, arm.pattern),
            goes_on(old(self)@, final(self)@),
    {
        let id: EnumId = match ty {
            Ty::Enum(id) => id,
            _ => {
                return;
            },
        };
        if let Pattern::Variant { variant, bindings } = &arm.pattern {
            let payload: Vec<Ty> = payload_of(cx, id, variant);
            let ghost start = self@;
            let mut i: usize = 0;
            while i < bindings.len() && i < payload.len()
                invariant
                    i <= bindings@.len(),
                    i <= payload@.len(),
                    sound(self@),
                    self@.limits == limits(cx@),
                    goes_on(start, self@),
                    has(start, value),
                    bindings_from(cx@, start, value, payload@, bindings@, 0) is Some,
                    bindings_from(cx@, self@, value, payload@, bindings@, i as int)
                        == bindings_from(cx@, start, value, payload@, bindings@, 0),
                decreases bindings@.len() - i,
            {
                let ty: Ty = payload[i];
                let dst = self.fresh(bindings[i].as_str());
                let at = self.fresh_temp();
                let offset: u32 = payload_at(cx, i as u32);
                self.emit(Instr::Field { dst: at, base: value, offset });
                self.emit(Instr::Load { dst, addr: Value::Reg(at) });
                if let Ty::List(_) = ty {
                    let (elem, bytes) = element_of(cx, ty);
                    let deep: i64 = flag_of(cx.types.table().holds_a_list(elem));
                    let args: Vec<Value> = vec![
                        Value::Reg(dst),
                        Value::Const(bytes as i64),
                        Value::Const(deep),
                    ];
                    assert(args@ =~= seq![
                        Value::Reg(dst),
                        Value::Const(bytes as i64),
                        Value::Const(deep),
                    ]);
                    self.emit(
                        Instr::RtCall { dst: Some(dst), callee: Runtime::ListClone, args },
                    );
                }
                self.declare(bindings[i].as_str(), dst, ty);
                i = i + 1;
            }
        }
    }

    /// The tag of a variant that carries nothing, for the enums that are still
    /// a bare tag.
    pub fn variant_tag(&self, cx: &Context<'_>, e: &Expr) -> (tag: i64)
        requires
            tag_of_variant(cx@, *e) is Some,
        ensures
            Some(tag) == tag_of_variant(cx@, *e),
    {
        match &e.kind {
            ExprKind::Variant { variant, .. } => match cx.types.of(e.id) {
                Ty::Enum(id) => number_of_variant(cx, id, variant),
                _ => {
                    assert(false);
                    0
                },
            },
            _ => {
                assert(false);
                0
            },
        }
    }

    /// Whether the scrutinee is what this arm's pattern selects, as a `bool`.
    ///
    /// One comparison for everything a register holds, because in every one of
    /// those cases the pattern is a value settled while the program was
    /// compiled. A string is the exception, so it costs a call.
    pub fn arm_test(&mut self, cx: &Context<'_>, ty: Ty, value: Value, arm: &MatchArm) -> (cond:
        Value)
        requires
            sound(old(self)@),
            old(self)@.limits == limits(cx@),
            cx.types.table.knows(ty),
            has(old(self)@, value),
            arm_tested(cx@, old(self)@, ty, value, arm.pattern) is Some,
        ensures
            Some((final(self)@, cond)) == arm_tested(cx@, old(self)@, ty, value, arm.pattern),
            follows(old(self)@, final(self)@),
            has(final(self)@, cond),
    {
        let wanted: i64 = match &arm.pattern {
            Pattern::Str(chars) => {
                let id = self.intern(chars);
                let literal = self.fresh_temp();
                self.emit(Instr::StrAddr { dst: literal, id });
                let dst = self.fresh_temp();
                let args: Vec<Value> = vec![value, Value::Reg(literal)];
                assert(args@ =~= seq![value, Value::Reg(literal)]);
                self.emit(Instr::RtCall { dst: Some(dst), callee: Runtime::StrEq, args });
                return Value::Reg(dst);
            },
            Pattern::Variant { variant, .. } => match ty {
                Ty::Enum(id) => number_of_variant(cx, id, variant),
                _ => {
                    assert(false);
                    0
                },
            },
            Pattern::Int(v) => *v,
            Pattern::Char(c) => *c as i64,
            Pattern::Bool(v) => flag_of(*v),
            // Equality on a float is not equality on a machine word, and a
            // catch-all is the last arm, which is never tested.
            _ => {
                assert(false);
                0
            },
        };
        let dst = self.fresh_temp();
        self.emit(
            Instr::Cmp {
                num: Num::Int,
                op: CmpOp::Eq,
                dst,
                lhs: value,
                rhs: Value::Const(wanted),
            },
        );
        Value::Reg(dst)
    }
}

/// Whether a test leaves what was known before it, and what it asks is known by
/// then.
pub open spec fn test_given(test: ArmTest, st: State, known: Set<VReg>) -> bool {
    &&& known.subset_of(held_at(st, test.block))
    &&& test.cond matches Value::Reg(reg) ==> held_at(st, test.block).contains(reg)
    &&& st.blocks[test.arm.0 as int].given.subset_of(known)
}

/// Whether the tests leave what was known before the first, and what they lead to is
/// given no more.
pub open spec fn arms_given(
    entries: Seq<BlockId>,
    tests: Seq<ArmTest>,
    st: State,
    known: Set<VReg>,
    first: BlockId,
) -> bool {
    &&& forall|i: int| 0 <= i < tests.len() ==> test_given(#[trigger] tests[i], st, known)
    &&& forall|i: int|
        0 <= i < entries.len() && (i > 0 || tests.len() == 0) ==> st.blocks[(
        #[trigger] entries[i]).0 as int].given.subset_of(known)
    &&& known.subset_of(held_at(st, first))
}

proof fn arms_still_given(
    entries: Seq<BlockId>,
    tests: Seq<ArmTest>,
    before: State,
    after: State,
    known: Set<VReg>,
    first: BlockId,
)
    requires
        kept(before, after),
        ids_within(entries, before.blocks.len()),
        tests_within(tests, before),
        first.0 < before.blocks.len(),
    ensures
        arms_given(entries, tests, before, known, first) ==> arms_given(
            entries,
            tests,
            after,
            known,
            first,
        ),
{
    if arms_given(entries, tests, before, known, first) {
        assert(after.blocks[first.0 as int].given == before.blocks[first.0 as int].given);
        assert forall|i: int| 0 <= i < tests.len() implies test_given(
            #[trigger] tests[i],
            after,
            known,
        ) by {
            let test = tests[i];
            assert(test_given(tests[i], before, known));
            assert(test_within(tests[i], before));
            assert(after.blocks[test.block.0 as int].given
                == before.blocks[test.block.0 as int].given);
            assert(after.blocks[test.arm.0 as int].given
                == before.blocks[test.arm.0 as int].given);
        }
        assert forall|i: int|
            0 <= i < entries.len() && (i > 0 || tests.len() == 0) implies after.blocks[(
        #[trigger] entries[i]).0 as int].given.subset_of(known) by {
            assert(entries[i].0 < before.blocks.len());
            assert(after.blocks[entries[i].0 as int].given
                == before.blocks[entries[i].0 as int].given);
        }
    }
}

/// Whether a test names only what a function has.
pub open spec fn test_within(test: ArmTest, st: State) -> bool {
    &&& test.block.0 < st.blocks.len()
    &&& test.arm.0 < st.blocks.len()
    &&& value_within(test.cond, st.names.len())
}

/// Whether every test of a list names only what a function has.
pub open spec fn tests_within(tests: Seq<ArmTest>, st: State) -> bool {
    forall|i: int| 0 <= i < tests.len() ==> test_within(#[trigger] tests[i], st)
}

proof fn tests_still_within(tests: Seq<ArmTest>, before: State, after: State)
    requires
        before.names.len() <= after.names.len(),
        before.blocks.len() <= after.blocks.len(),
    ensures
        tests_within(tests, before) ==> tests_within(tests, after),
{
    if tests_within(tests, before) {
        assert forall|i: int| 0 <= i < tests.len() implies test_within(
            #[trigger] tests[i],
            after,
        ) by {
            assert(test_within(tests[i], before));
        }
    }
}

} // verus!
