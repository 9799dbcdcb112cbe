//! That a `match` takes the first arm that is for what is matched.

use vstd::prelude::*;

use super::branches::{aside, entering_names_nothing, landing_is_aside, same_names, way};
use super::machine::{
    code, expressions_are_worth_what_they_say, holds_vars, one_into_a_new_register, operand_right,
    plain, runs, runs_one, same_below, scopes_exist, went_on, worth_of, Machine,
};
use super::meaning::{
    all_sent, arm_body_of, arm_opened, arm_tested, arms_from, boxed_enum, expr_into_of, expr_of,
    match_of, matched, payload_bound, tests_ended, type_of, ArmTest, Matching,
};
use super::state::{bound, emitted, ended, entered, held_here, opened, temp, ContextView, State};
use super::stores::{expressions_land_where_wanted, landed};
use crate::ast::{CmpOp, Expr, ExprKind, MatchArm, Pattern, Ty};
use crate::ir::block::{BlockKind, TermView};
use crate::ir::instr::InstrView;
use crate::ir::value::{BlockId, Num, VReg, Value};

verus! {

/// The word a literal pattern is for.
pub open spec fn meant(pattern: Pattern) -> Option<i64> {
    match pattern {
        Pattern::Int(v) => Some(v),
        Pattern::Char(c) => Some(c as i64),
        Pattern::Bool(b) => Some(
            if b {
                1
            } else {
                0
            },
        ),
        _ => None,
    }
}

/// Whether arms are literals but for the last, and give plain values.
pub open spec fn plain_arms(cx: ContextView, arms: Seq<MatchArm>) -> bool {
    forall|j: int|
        #![trigger arms[j]]
        0 <= j < arms.len() ==> {
            &&& arms[j].body is Value
            &&& plain(cx, arms[j].body->Value_0)
            &&& j + 1 < arms.len() ==> meant(arms[j].pattern) is Some
            &&& !(arms[j].pattern is Variant)
        }
}

/// The block arm `j` is in, where `base` is the first block there was not.
pub open spec fn arm_at(base: int, last: int, j: int) -> int {
    if j < last || last == 0 {
        base + 2 * j
    } else {
        base + 2 * j - 1
    }
}

/// The block in which it is asked whether arm `j` is the one; the last is not asked about.
pub open spec fn asked_at(here: int, base: int, j: int) -> int {
    if j == 0 {
        here
    } else {
        base + 2 * j - 1
    }
}

/// How many blocks there are once `i` arms are built.
spec fn blocks_by(base: int, last: int, i: int) -> int {
    if i == 0 {
        base
    } else if i <= last {
        base + 2 * i - 1
    } else {
        arm_at(base, last, last) + 1
    }
}

/// Whether instructions find out if an operand is a word.
pub open spec fn asks(
    instrs: Seq<InstrView>,
    tested: Value,
    wanted: i64,
    cond: Value,
    names: nat,
) -> bool {
    forall|m: Machine, n: Machine|
        #![trigger runs(instrs, m, n)]
        runs(instrs, m, n) ==> same_below(m, n, names) && n.worth(cond) == (if m.worth(tested)
            == wanted {
            1int
        } else {
            0
        })
}

/// Whether instructions put the worth of an expression in a register.
pub open spec fn gives(
    cx: ContextView,
    st: State,
    instrs: Seq<InstrView>,
    dst: VReg,
    e: Expr,
) -> bool {
    forall|m: Machine, n: Machine, vars: Map<Seq<char>, i64>|
        #![trigger runs(instrs, m, n), holds_vars(st, m, vars)]
        runs(instrs, m, n) && holds_vars(st, m, vars) ==> {
            &&& n.cells == m.cells
            &&& forall|reg: VReg|
                reg.0 < st.names.len() && reg != dst ==> #[trigger] n.regs[reg] == m.regs[reg]
            &&& worth_of(cx, vars, e) is Some ==> worth_of(cx, vars, e) == Some(n.regs[dst])
        }
}

/// The instructions of the question about arm `j`.
pub open spec fn question(before: State, after: State, j: int) -> Seq<InstrView> {
    let at = asked_at(before.current.0 as int, before.blocks.len() as int, j);
    if j == 0 {
        after.blocks[at].instrs.skip(before.blocks[at].instrs.len() as int)
    } else {
        after.blocks[at].instrs
    }
}

/// What holds of a `match` once `i` of its arms are built.
spec fn arms_built(
    cx: ContextView,
    st: State,
    m: Matching,
    dst: VReg,
    tested: Value,
    arms: Seq<MatchArm>,
    i: int,
) -> bool {
    let base = st.blocks.len() as int;
    let here = st.current.0 as int;
    let last = arms.len() - 1;
    &&& m.st.scopes == st.scopes
    &&& st.names.len() <= m.st.names.len() <= u32::MAX
    &&& m.st.blocks.len() == blocks_by(base, last, i)
    &&& m.st.current.0 == (if i == 0 {
        here
    } else {
        arm_at(base, last, i - 1)
    })
    &&& m.entries.len() == i
    &&& m.exits.len() == i
    &&& m.tests.len() == (if i <= last {
        i
    } else {
        last
    })
    &&& st.blocks[here].instrs.len() <= m.st.blocks[here].instrs.len()
    &&& i == 0 ==> m.st.blocks == st.blocks
    &&& forall|j: int|
        #![trigger m.entries[j]]
        0 <= j < i ==> m.entries[j].0 == (if last == 0 {
            base
        } else {
            asked_at(here, base, j)
        })
    &&& forall|j: int|
        #![trigger m.exits[j]]
        0 <= j < i ==> m.exits[j].0 == arm_at(base, last, j) && gives(
            cx,
            st,
            m.st.blocks[arm_at(base, last, j)].instrs,
            dst,
            arms[j].body->Value_0,
        )
    &&& forall|j: int|
        #![trigger m.tests[j]]
        0 <= j < m.tests.len() ==> {
            &&& m.tests[j].block.0 == asked_at(here, base, j)
            &&& m.tests[j].arm.0 == arm_at(base, last, j)
            &&& asks(
                question(st, m.st, j),
                tested,
                meant(arms[j].pattern)->0,
                m.tests[j].cond,
                st.names.len(),
            )
        }
}

/// One question, in the block building stands in.
proof fn a_question_is_asked(
    cx: ContextView,
    st: State,
    ty: Ty,
    tested: Value,
    pattern: Pattern,
    names: nat,
)
    requires
        meant(pattern) is Some,
        st.current.0 < st.blocks.len(),
        names <= st.names.len() <= u32::MAX,
        arm_tested(cx, st, ty, tested, pattern) is Some,
    ensures
        ({
            let (after, cond) = arm_tested(cx, st, ty, tested, pattern)->0;
            &&& aside(st, after)
            &&& went_on(st, after)
            &&& asks(code(st, after), tested, meant(pattern)->0, cond, names)
        }),
{
    let (after, cond) = arm_tested(cx, st, ty, tested, pattern)->0;
    let (made, dst) = temp(st)->0;
    let instr = InstrView::Cmp {
        num: Num::Int,
        op: CmpOp::Eq,
        dst,
        lhs: tested,
        rhs: Value::Const(meant(pattern)->0),
    };
    one_into_a_new_register(st, instr);
    assert(after == emitted(made, instr));
    assert(aside(st, after)) by {
        reveal(temp);
        reveal(emitted);
    }
    assert forall|m: Machine, n: Machine|
        #![trigger runs(code(st, after), m, n)]
        runs(code(st, after), m, n) implies same_below(m, n, names) && n.worth(cond) == (if m.worth(
        tested,
    ) == meant(pattern)->0 {
        1int
    } else {
        0
    }) by {
        runs_one(instr, m, n);
    }
}

/// One arm's body, in a block of its own.
proof fn an_arm_gives(
    cx: ContextView,
    st: State,
    start: State,
    dst: VReg,
    ty: Ty,
    value: Value,
    arm: MatchArm,
)
    requires
        arm.body is Value,
        plain(cx, arm.body->Value_0),
        !(arm.pattern is Variant),
        scopes_exist(start),
        start.scopes == st.scopes,
        st.names.len() <= start.names.len() <= u32::MAX,
        dst.0 < st.names.len(),
        start.current.0 < start.blocks.len(),
        start.blocks[start.current.0 as int].instrs.len() == 0,
        arm_body_of(cx, start, Some(dst), ty, value, arm) is Some,
    ensures
        ({
            let after = arm_body_of(cx, start, Some(dst), ty, value, arm)->0;
            let at = start.current.0 as int;
            &&& after.scopes == start.scopes
            &&& start.names.len() <= after.names.len() <= u32::MAX
            &&& after.current == start.current
            &&& after.blocks.len() == start.blocks.len()
            &&& forall|i: int|
                0 <= i < start.blocks.len() && i != at ==> #[trigger] after.blocks[i]
                    == start.blocks[i]
            &&& gives(cx, st, after.blocks[at].instrs, dst, arm.body->Value_0)
        }),
{
    let after = arm_body_of(cx, start, Some(dst), ty, value, arm)->0;
    let e = arm.body->Value_0;
    let inner = entered(start);
    let at = start.current.0 as int;
    assert(payload_bound(cx, inner, ty, value, arm.pattern) == Some(inner));
    let done = expr_into_of(cx, inner, dst, e)->0;
    entering_names_nothing(start);
    expressions_land_where_wanted(cx, inner, dst, e);
    landing_is_aside(cx, inner, dst, e);
    assert(inner.scopes.drop_last() =~= start.scopes);
    assert(code(inner, done) =~= after.blocks[at].instrs);
    assert(landed(cx, inner, done, dst, e));
    same_names(st, start);
    assert forall|m: Machine, n: Machine, vars: Map<Seq<char>, i64>|
        #![trigger runs(after.blocks[at].instrs, m, n), holds_vars(st, m, vars)]
        runs(after.blocks[at].instrs, m, n) && holds_vars(st, m, vars) implies {
        &&& n.cells == m.cells
        &&& forall|reg: VReg|
            reg.0 < st.names.len() && reg != dst ==> #[trigger] n.regs[reg] == m.regs[reg]
        &&& worth_of(cx, vars, e) is Some ==> worth_of(cx, vars, e) == Some(n.regs[dst])
    } by {
        assert(holds_vars(inner, m, vars)) by {
            assert forall|name: Seq<char>| #[trigger] bound(inner, name) is Some implies m.regs[(
            bound(inner, name)->0).0] == vars[name] by {
                assert(bound(st, name) is Some);
            }
        }
    }
}

/// One more arm: its question, if it is not the last, and its body.
proof fn one_more_arm(
    cx: ContextView,
    st: State,
    m: Matching,
    dst: VReg,
    ty: Ty,
    value: Value,
    tested: Value,
    arms: Vec<MatchArm>,
    i: int,
) -> (next: Matching)
    requires
        plain_arms(cx, arms@),
        0 <= i < arms@.len(),
        scopes_exist(st),
        st.names.len() <= u32::MAX,
        st.current.0 < st.blocks.len(),
        dst.0 < st.names.len(),
        arms_built(cx, st, m, dst, tested, arms@, i),
        arms_from(cx, m, Some(dst), ty, value, tested, arms, i) is Some,
    ensures
        arms_built(cx, st, next, dst, tested, arms@, i + 1),
        arms_from(cx, m, Some(dst), ty, value, tested, arms, i) == arms_from(
            cx,
            next,
            Some(dst),
            ty,
            value,
            tested,
            arms,
            i + 1,
        ),
{
    let base = st.blocks.len() as int;
    let here = st.current.0 as int;
    let last = arms@.len() - 1;
    let arm = arms@[i];
    let open = arm_opened(cx, m, ty, tested, arm.pattern, i, i + 1 == arms@.len())->0;
    let done = arm_body_of(cx, open.st, Some(dst), ty, value, arm)->0;
    let next = Matching { st: done, exits: open.exits.push(done.current), ..open };
    reveal(opened);
    if i == last {
        let (opened_st, id) = opened(m.st, BlockKind::Arm, m.known)->0;
        assert(open.st == opened_st);
        assert(scopes_exist(open.st)) by {
            exists_still(st, open.st);
        }
        an_arm_gives(cx, st, open.st, dst, ty, value, arm);
        assert(id.0 == arm_at(base, last, i));
        assert forall|j: int| #![trigger next.tests[j]] 0 <= j < next.tests.len() implies asks(
            question(st, next.st, j),
            tested,
            meant(arms@[j].pattern)->0,
            next.tests[j].cond,
            st.names.len(),
        ) by {
            assert(next.tests[j] == m.tests[j]);
            let q = asked_at(here, base, j);
            assert(next.st.blocks[q] == m.st.blocks[q]);
        }
        assert forall|j: int| #![trigger next.exits[j]] 0 <= j < i + 1 implies next.exits[j].0
            == arm_at(base, last, j) && gives(
            cx,
            st,
            next.st.blocks[arm_at(base, last, j)].instrs,
            dst,
            arms@[j].body->Value_0,
        ) by {
            if j < i {
                assert(next.exits[j] == m.exits[j]);
                let a = arm_at(base, last, j);
                assert(next.st.blocks[a] == m.st.blocks[a]);
            }
        }
        assert forall|j: int| #![trigger next.entries[j]] 0 <= j < i + 1 implies next.entries[j].0
            == (if last == 0 {
            base
        } else {
            asked_at(here, base, j)
        }) by {
            if j < i {
                assert(next.entries[j] == m.entries[j]);
            }
        }
        assert(next.st.blocks[here] == m.st.blocks[here]);
    } else {
        assert(arms@[i].pattern == arm.pattern);
        let (begun, entry) = if i > 0 {
            opened(m.st, BlockKind::Case, m.known)->0
        } else {
            (m.st, m.st.current)
        };
        a_question_is_asked(cx, begun, ty, tested, arm.pattern, st.names.len());
        let (told, cond) = arm_tested(cx, begun, ty, tested, arm.pattern)->0;
        let (opened_st, id) = opened(told, BlockKind::Arm, m.known)->0;
        assert(open.st == opened_st);
        assert(told.current.0 == asked_at(here, base, i));
        assert(id.0 == arm_at(base, last, i));
        assert(scopes_exist(open.st)) by {
            exists_still(st, open.st);
        }
        an_arm_gives(cx, st, open.st, dst, ty, value, arm);
        let q = asked_at(here, base, i);
        assert(next.st.blocks[q] == told.blocks[q]);
        assert(question(st, next.st, i) =~= code(begun, told));
        assert forall|j: int| #![trigger next.tests[j]] 0 <= j < next.tests.len() implies {
            &&& next.tests[j].block.0 == asked_at(here, base, j)
            &&& next.tests[j].arm.0 == arm_at(base, last, j)
            &&& asks(
                question(st, next.st, j),
                tested,
                meant(arms@[j].pattern)->0,
                next.tests[j].cond,
                st.names.len(),
            )
        } by {
            if j < i {
                assert(next.tests[j] == m.tests[j]);
                let q = asked_at(here, base, j);
                assert(begun.blocks[q] == m.st.blocks[q]);
                assert(told.blocks[q] == begun.blocks[q]);
                assert(next.st.blocks[q] == m.st.blocks[q]);
            }
        }
        assert forall|j: int| #![trigger next.exits[j]] 0 <= j < i + 1 implies next.exits[j].0
            == arm_at(base, last, j) && gives(
            cx,
            st,
            next.st.blocks[arm_at(base, last, j)].instrs,
            dst,
            arms@[j].body->Value_0,
        ) by {
            if j < i {
                assert(next.exits[j] == m.exits[j]);
                let a = arm_at(base, last, j);
                assert(begun.blocks[a] == m.st.blocks[a]);
                assert(told.blocks[a] == begun.blocks[a]);
                assert(next.st.blocks[a] == m.st.blocks[a]);
            }
        }
        assert forall|j: int| #![trigger next.entries[j]] 0 <= j < i + 1 implies next.entries[j].0
            == (if last == 0 {
            base
        } else {
            asked_at(here, base, j)
        }) by {
            if j < i {
                assert(next.entries[j] == m.entries[j]);
            }
        }
        if i > 0 {
            assert(begun.blocks[here] == m.st.blocks[here]);
            assert(told.blocks[here] == begun.blocks[here]);
        }
        assert(next.st.blocks[here] == told.blocks[here]);
    }
    next
}

proof fn exists_still(a: State, b: State)
    requires
        scopes_exist(a),
        b.scopes == a.scopes,
        a.names.len() <= b.names.len(),
    ensures
        scopes_exist(b),
{
    assert forall|i: int, k: int|
        #![trigger b.scopes[i][k]]
        0 <= i < b.scopes.len() && 0 <= k < b.scopes[i].len() implies b.scopes[i][k].reg.0
        < b.names.len() by {
        assert(a.scopes[i][k].reg.0 < a.names.len());
    }
}

proof fn all_arms_are_built(
    cx: ContextView,
    st: State,
    m: Matching,
    dst: VReg,
    ty: Ty,
    value: Value,
    tested: Value,
    arms: Vec<MatchArm>,
    i: int,
)
    requires
        plain_arms(cx, arms@),
        0 <= i <= arms@.len(),
        scopes_exist(st),
        st.names.len() <= u32::MAX,
        st.current.0 < st.blocks.len(),
        dst.0 < st.names.len(),
        arms_built(cx, st, m, dst, tested, arms@, i),
        arms_from(cx, m, Some(dst), ty, value, tested, arms, i) is Some,
    ensures
        arms_built(
            cx,
            st,
            arms_from(cx, m, Some(dst), ty, value, tested, arms, i)->0,
            dst,
            tested,
            arms@,
            arms@.len() as int,
        ),
    decreases arms@.len() - i,
{
    if i < arms@.len() {
        let next = one_more_arm(cx, st, m, dst, ty, value, tested, arms, i);
        all_arms_are_built(cx, st, next, dst, ty, value, tested, arms, i + 1);
    }
}

/// Every question gets its own two ways out.
proof fn questions_end(st: State, tests: Seq<ArmTest>, entries: Seq<BlockId>, i: int)
    requires
        0 <= i <= tests.len(),
        forall|j: int| 0 <= j < tests.len() ==> (#[trigger] tests[j]).block.0 < st.blocks.len(),
        forall|j: int, k: int|
            #![trigger tests[j], tests[k]]
            0 <= j < k < tests.len() ==> tests[j].block.0 != tests[k].block.0,
    ensures
        ({
            let after = tests_ended(st, tests, entries, i);
            &&& after.blocks.len() == st.blocks.len()
            &&& after.current == st.current
            &&& forall|b: int|
                0 <= b < st.blocks.len() ==> (#[trigger] after.blocks[b]).instrs
                    == st.blocks[b].instrs
            &&& forall|j: int|
                #![trigger tests[j]]
                i <= j < tests.len() ==> after.blocks[tests[j].block.0 as int].term == Some(
                    TermView::branch(tests[j].cond, tests[j].arm, entries[j + 1]),
                )
            &&& forall|b: int|
                0 <= b < st.blocks.len() && (forall|j: int|
                    i <= j < tests.len() ==> (#[trigger] tests[j]).block.0 != b) ==> (
                #[trigger] after.blocks[b]).term == st.blocks[b].term
        }),
    decreases tests.len() - i,
{
    if i < tests.len() {
        reveal(ended);
        let next = ended(
            st,
            tests[i].block,
            TermView::branch(tests[i].cond, tests[i].arm, entries[i + 1]),
        );
        questions_end(next, tests, entries, i + 1);
        let after = tests_ended(st, tests, entries, i);
        assert forall|j: int| #![trigger tests[j]] i <= j < tests.len() implies after.blocks[tests[j].block.0 as int].term
            == Some(TermView::branch(tests[j].cond, tests[j].arm, entries[j + 1])) by {
            if j == i {
                assert forall|k: int| i + 1 <= k < tests.len() implies (#[trigger] tests[k]).block.0
                    != tests[i].block.0 by {}
                assert(after.blocks[tests[i].block.0 as int].term
                    == next.blocks[tests[i].block.0 as int].term);
            }
        }
        assert forall|b: int|
            0 <= b < st.blocks.len() && (forall|j: int|
                i <= j < tests.len() ==> (#[trigger] tests[j]).block.0 != b) implies (
        #[trigger] after.blocks[b]).term == st.blocks[b].term by {
            assert(tests[i].block.0 != b);
        }
    }
}

/// **A `match` asks about its arms in order and takes the first that fits.** Where the
/// block that asks about an arm is run, it is found out whether what is matched is what
/// the arm is for; a run then goes to that arm, or on to the next question, or to the last
/// arm, which is not asked about. An arm's block leaves what the arm gives in the register
/// it is wanted in, and goes to where building goes on.
pub proof fn a_match_takes_the_first_that_fits(
    cx: ContextView,
    st: State,
    dst: VReg,
    ty: Ty,
    value: Value,
    tested: Value,
    arms: Vec<MatchArm>,
    known: Set<VReg>,
    j: int,
)
    requires
        plain_arms(cx, arms@),
        0 <= j < arms@.len(),
        scopes_exist(st),
        st.names.len() <= u32::MAX,
        st.current.0 < st.blocks.len(),
        dst.0 < st.names.len(),
        arms_taken(cx, st, dst, ty, value, tested, arms, known) is Some,
    ensures
        ({
            let after = arms_taken(cx, st, dst, ty, value, tested, arms, known)->0;
            let base = st.blocks.len() as int;
            let here = st.current.0 as int;
            let last = arms@.len() - 1;
            let asked = asked_at(here, base, j);
            let arm = arm_at(base, last, j);
            &&& after.current.0 == after.blocks.len() - 1
            &&& after.blocks[after.current.0 as int].instrs.len() == 0
            &&& gives(cx, st, after.blocks[arm].instrs, dst, arms@[j].body->Value_0)
            &&& forall|m: Machine| #[trigger]
                way(after.blocks[arm].term, m) == Some(after.current)
            &&& j < last ==> forall|m: Machine, n: Machine|
                #![trigger runs(question(st, after, j), m, n)]
                runs(question(st, after, j), m, n) ==> {
                    &&& same_below(m, n, st.names.len())
                    &&& way(after.blocks[asked].term, n) matches Some(to) && to.0 == (if Some(
                        m.worth(tested),
                    ) == meant(arms@[j].pattern) {
                        arm
                    } else if j + 1 < last {
                        asked_at(here, base, j + 1)
                    } else {
                        arm_at(base, last, last)
                    })
                }
            &&& last == 0 ==> forall|m: Machine|
                (#[trigger] way(after.blocks[here].term, m)) matches Some(to) && to.0 == arm
        }),
{
    let begun = Matching { st, entries: seq![], tests: seq![], exits: seq![], known };
    let base = st.blocks.len() as int;
    let here = st.current.0 as int;
    let last = arms@.len() - 1;
    all_arms_are_built(cx, st, begun, dst, ty, value, tested, arms, 0);
    let m = arms_from(cx, begun, Some(dst), ty, value, tested, arms, 0)->0;
    let after = arms_taken(cx, st, dst, ty, value, tested, arms, known)->0;
    reveal(opened);
    reveal(ended);
    let held = super::state::held_by_all(m.st, m.exits, m.exits.len() as int);
    let (one, join) = opened(m.st, BlockKind::Join, held)->0;
    let two = if m.tests.len() == 0 {
        ended(one, st.current, TermView::jump(m.entries[0]))
    } else {
        one
    };
    assert forall|a: int| 0 <= a < m.tests.len() implies (#[trigger] m.tests[a]).block.0
        < two.blocks.len() by {}
    questions_end(two, m.tests, m.entries, 0);
    let three = tests_ended(two, m.tests, m.entries, 0);
    assert forall|a: int| 0 <= a < m.exits.len() implies (#[trigger] m.exits[a]).0
        < three.blocks.len() by {}
    super::branches::sent_are(three, m.exits, join, 0);
    let four = all_sent(three, m.exits, join, 0);
    assert(after.blocks == four.blocks);
    assert(m.exits[j].0 == arm_at(base, last, j));
    let arm = arm_at(base, last, j);
    assert(four.blocks[m.exits[j].0 as int].term == Some(TermView::jump(join)));
    assert(after.blocks[arm].instrs == m.st.blocks[arm].instrs);
    if j < last {
        let asked = asked_at(here, base, j);
        assert(m.tests[j].block.0 == asked);
        assert(after.blocks[asked].instrs == m.st.blocks[asked].instrs);
        assert(question(st, after, j) == question(st, m.st, j));
        assert forall|a: int| 0 <= a < m.exits.len() implies (#[trigger] m.exits[a]).0 != asked by {}
        assert(four.blocks[asked].term == three.blocks[asked].term);
        assert(m.entries[j + 1].0 == asked_at(here, base, j + 1));
    }
    if last == 0 {
        assert(m.entries[0].0 == base);
        assert forall|a: int| 0 <= a < m.exits.len() implies (#[trigger] m.exits[a]).0 != here by {}
        assert(four.blocks[here].term == three.blocks[here].term);
        assert(three.blocks[here].term == two.blocks[here].term);
    }
}

/// Arms taken up one after the other, and joined.
pub open spec fn arms_taken(
    cx: ContextView,
    st: State,
    dst: VReg,
    ty: Ty,
    value: Value,
    tested: Value,
    arms: Vec<MatchArm>,
    known: Set<VReg>,
) -> Option<State> {
    let begun = Matching { st, entries: seq![], tests: seq![], exits: seq![], known };
    match arms_from(cx, begun, Some(dst), ty, value, tested, arms, 0) {
        Some(m) => matched(m, st.current),
        None => None,
    }
}

/// **What a `match` asks about is what it matches.** Its scrutinee is worked out first, in
/// the block it stands in, and the questions are about what that is worth.
pub proof fn a_match_is_about_its_scrutinee(
    cx: ContextView,
    st: State,
    dst: VReg,
    e: Expr,
    m: Machine,
    n: Machine,
    vars: Map<Seq<char>, i64>,
)
    requires
        e.kind matches ExprKind::Match { scrutinee, arms } && plain(cx, *scrutinee) && type_of(
            cx,
            scrutinee.id,
        ) is Some && !boxed_enum(cx, type_of(cx, scrutinee.id)->0) && worth_of(
            cx,
            vars,
            *scrutinee,
        ) is Some,
        scopes_exist(st),
        st.names.len() <= u32::MAX,
        st.current.0 < st.blocks.len(),
        match_of(cx, st, Some(dst), e) is Some,
        holds_vars(st, m, vars),
        runs(code(st, (expr_of(cx, st, *e.kind->scrutinee)->0).0), m, n),
    ensures
        ({
            let (asked, tested) = expr_of(cx, st, *e.kind->scrutinee)->0;
            let ty = type_of(cx, (*e.kind->scrutinee).id)->0;
            &&& went_on(st, asked)
            &&& n.worth(tested) == worth_of(cx, vars, *e.kind->scrutinee)->0
            &&& match_of(cx, st, Some(dst), e) == arms_taken(
                cx,
                asked,
                dst,
                ty,
                tested,
                tested,
                e.kind->arms,
                held_here(asked),
            )
        }),
{
    expressions_are_worth_what_they_say(cx, st, *e.kind->scrutinee);
    let (asked, tested) = expr_of(cx, st, *e.kind->scrutinee)->0;
    assert(operand_right(cx, st, *e.kind->scrutinee, asked, tested));
}

} // verus!
