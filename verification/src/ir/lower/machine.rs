//! Running what lowering builds, on a machine with memory.
//!
//! Lowering is stated as the instructions it appends. Here those are run: on registers
//! that hold a word each and on cells of memory that hold one each. Only what works
//! straight on is looked at; what a routine, a call or a copy of bytes does is not said.

use vstd::prelude::*;

use super::meaning::{
    bin_value, comparison_value, expr_body, expr_of, negated_of, negation_value, operands_of,
    turned_round, type_of,
};
use super::state::{bound, bound_among, bound_here, emitted, temp, ContextView, State};
use crate::ast::{BinOp, CmpOp, Expr, ExprKind, Ty};
use crate::float::is_nan;
use crate::ir::exact::negating_is_taking_from_zero;
use crate::ir::fold::{bits, folded_bin, folded_comparison, negation, word};
use crate::ir::instr::{InstrView, Runtime};
use crate::ir::value::{Num, VReg, Value};

verus! {

/// What registers and memory hold.
#[verifier::ext_equal]
pub struct Machine {
    pub regs: Map<VReg, i64>,
    pub cells: Map<int, i64>,
}

impl Machine {
    /// What an operand is worth.
    pub open spec fn worth(self, value: Value) -> i64 {
        match value {
            Value::Const(c) => c,
            Value::Reg(reg) => self.regs[reg],
        }
    }

    /// With another word in a register.
    pub open spec fn with(self, reg: VReg, word: i64) -> Machine {
        Machine { regs: self.regs.insert(reg, word), ..self }
    }
}

/// Whether an instruction takes the machine from one state to another. Where room is
/// reserved, it is anywhere, and a count is any number.
pub open spec fn does(instr: InstrView, a: Machine, b: Machine) -> bool {
    match instr {
        InstrView::Const { dst, val } => b == a.with(dst, val),
        InstrView::Copy { dst, src } => b == a.with(dst, a.worth(src)),
        InstrView::Bin { num, op, dst, lhs, rhs } => {
            let answer = folded_bin(
                num,
                op,
                Value::Const(a.worth(lhs)),
                Value::Const(a.worth(rhs)),
            );
            answer is Some && b == a.with(dst, answer->0)
        },
        InstrView::Cmp { num, op, dst, lhs, rhs } => {
            let answer = folded_comparison(
                num,
                op,
                Value::Const(a.worth(lhs)),
                Value::Const(a.worth(rhs)),
            );
            answer is Some && b == a.with(dst, answer->0)
        },
        InstrView::Field { dst, base, offset } => {
            b == a.with(dst, b.regs[dst]) && b.regs[dst] == a.worth(base) + offset
        },
        InstrView::Elem { dst, base, index, len, scale } => {
            &&& 0 <= a.worth(index) < a.worth(len)
            &&& b == a.with(dst, b.regs[dst])
            &&& b.regs[dst] == a.worth(base) + a.worth(index) * scale
        },
        InstrView::Load { dst, addr } => b == a.with(dst, a.cells[a.worth(addr) as int]),
        InstrView::Store { addr, value } => {
            b.regs == a.regs && b.cells == a.cells.insert(a.worth(addr) as int, a.worth(value))
        },
        InstrView::VariantAddr { dst, tag, .. } => {
            b == a.with(dst, b.regs[dst]) && a.cells[b.regs[dst] as int] == tag
        },
        InstrView::Frame { dst, .. } => b == a.with(dst, b.regs[dst]),
        InstrView::VTable { dst, .. } => b == a.with(dst, b.regs[dst]),
        InstrView::Count { dst, .. } => b == a.with(dst, b.regs[dst]),
        InstrView::RtCall { dst: Some(dst), callee: Runtime::Alloc, .. } => b == a.with(
            dst,
            b.regs[dst],
        ),
        InstrView::RtCall { dst: Some(dst), callee: Runtime::ListNew, .. } => b == a.with(
            dst,
            b.regs[dst],
        ),
        _ => false,
    }
}

/// Whether a run of instructions takes the machine from one state to another.
pub open spec fn runs(instrs: Seq<InstrView>, a: Machine, b: Machine) -> bool
    decreases instrs.len(),
{
    if instrs.len() == 0 {
        a == b
    } else {
        exists|mid: Machine| #[trigger]
            does(instrs[0], a, mid) && runs(instrs.drop_first(), mid, b)
    }
}

pub proof fn runs_nothing(a: Machine, b: Machine)
    requires
        runs(seq![], a, b),
    ensures
        a == b,
{
}

pub proof fn runs_one(instr: InstrView, a: Machine, b: Machine)
    requires
        runs(seq![instr], a, b),
    ensures
        does(instr, a, b),
{
    let mid = choose|mid: Machine| #[trigger]
        does(instr, a, mid) && runs(seq![instr].drop_first(), mid, b);
    assert(seq![instr].drop_first() =~= Seq::<InstrView>::empty());
    assert(seq![instr][0] == instr);
}

/// A run of two pieces of code runs the one and then the other.
pub proof fn runs_both(x: Seq<InstrView>, y: Seq<InstrView>, a: Machine, b: Machine) -> (mid:
    Machine)
    requires
        runs(x + y, a, b),
    ensures
        runs(x, a, mid),
        runs(y, mid, b),
    decreases x.len(),
{
    if x.len() == 0 {
        assert(x + y =~= y);
        a
    } else {
        let next = choose|next: Machine| #[trigger]
            does((x + y)[0], a, next) && runs((x + y).drop_first(), next, b);
        assert((x + y).drop_first() =~= x.drop_first() + y);
        let mid = runs_both(x.drop_first(), y, next, b);
        assert(does(x[0], a, next) && runs(x.drop_first(), next, mid));
        mid
    }
}

// -- what was appended ------------------------------------------------------

/// Whether building only appended to the block it was in.
pub open spec fn straight(a: State, b: State) -> bool {
    let at = a.current.0 as int;
    &&& b.current == a.current
    &&& 0 <= at < a.blocks.len()
    &&& at < b.blocks.len()
    &&& a.blocks[at].instrs.len() <= b.blocks[at].instrs.len()
    &&& b.blocks[at].instrs.take(a.blocks[at].instrs.len() as int) == a.blocks[at].instrs
}

/// What was appended.
pub open spec fn code(a: State, b: State) -> Seq<InstrView> {
    b.blocks[b.current.0 as int].instrs.skip(a.blocks[a.current.0 as int].instrs.len() as int)
}

pub proof fn nothing_appended(a: State, b: State)
    requires
        a.blocks == b.blocks,
        a.current == b.current,
        a.current.0 < a.blocks.len(),
    ensures
        straight(a, b),
        code(a, b) == Seq::<InstrView>::empty(),
{
    let at = a.current.0 as int;
    let n = a.blocks[at].instrs.len() as int;
    assert(a.blocks[at].instrs.take(n) =~= a.blocks[at].instrs);
    assert(a.blocks[at].instrs.skip(n) =~= Seq::<InstrView>::empty());
}

pub proof fn one_appended(st: State, instr: InstrView)
    requires
        st.current.0 < st.blocks.len(),
    ensures
        straight(st, emitted(st, instr)),
        code(st, emitted(st, instr)) == seq![instr],
        emitted(st, instr).names == st.names,
        emitted(st, instr).scopes == st.scopes,
        emitted(st, instr).current == st.current,
        emitted(st, instr).blocks.len() == st.blocks.len(),
{
    reveal(emitted);
    let at = st.current.0 as int;
    let n = st.blocks[at].instrs.len() as int;
    let after = emitted(st, instr);
    assert(after.blocks[at].instrs.take(n) =~= st.blocks[at].instrs);
    assert(after.blocks[at].instrs.skip(n) =~= seq![instr]);
}

pub proof fn both_appended(a: State, b: State, c: State)
    requires
        straight(a, b),
        straight(b, c),
    ensures
        straight(a, c),
        code(a, c) == code(a, b) + code(b, c),
{
    let at = a.current.0 as int;
    let x = a.blocks[at].instrs;
    let y = b.blocks[at].instrs;
    let z = c.blocks[at].instrs;
    assert(z.take(x.len() as int) =~= z.take(y.len() as int).take(x.len() as int));
    assert(z.skip(x.len() as int) =~= y.skip(x.len() as int) + z.skip(y.len() as int)) by {
        assert forall|i: int| 0 <= i < z.len() - x.len() implies z.skip(x.len() as int)[i] == (
        y.skip(x.len() as int) + z.skip(y.len() as int))[i] by {
            if i < y.len() - x.len() {
                assert(z[i + x.len()] == z.take(y.len() as int)[i + x.len()]);
            }
        }
    }
}

/// A new register is one there was not.
pub proof fn temp_is_new(st: State)
    requires
        temp(st) is Some,
    ensures
        ({
            let (after, reg) = temp(st)->0;
            &&& reg.0 == st.names.len()
            &&& after.names.len() == st.names.len() + 1
            &&& after.blocks == st.blocks
            &&& after.current == st.current
            &&& after.scopes == st.scopes
        }),
{
    reveal(temp);
}

/// Whether what is in scope is in registers there are.
pub open spec fn scopes_exist(st: State) -> bool {
    forall|i: int, k: int|
        #![trigger st.scopes[i][k]]
        0 <= i < st.scopes.len() && 0 <= k < st.scopes[i].len() ==> st.scopes[i][k].reg.0
            < st.names.len()
}

pub proof fn bound_exists(st: State, name: Seq<char>)
    requires
        scopes_exist(st),
    ensures
        bound(st, name) matches Some((reg, _)) ==> reg.0 < st.names.len(),
{
    reveal(bound);
    bound_among_exists(st, name, st.scopes.len() as int);
    assert(st.scopes.take(st.scopes.len() as int) =~= st.scopes);
}

proof fn bound_among_exists(st: State, name: Seq<char>, n: int)
    requires
        scopes_exist(st),
        0 <= n <= st.scopes.len(),
    ensures
        bound_among(st.scopes.take(n), name) matches Some((reg, _)) ==> reg.0 < st.names.len(),
    decreases n,
{
    if n > 0 {
        let some = st.scopes.take(n);
        assert(some.last() == st.scopes[n - 1]);
        assert(some.drop_last() =~= st.scopes.take(n - 1));
        bound_among_exists(st, name, n - 1);
        bound_here_exists(st, name, n - 1, st.scopes[n - 1].len() as int);
        assert(st.scopes[n - 1].take(st.scopes[n - 1].len() as int) =~= st.scopes[n - 1]);
    }
}

proof fn bound_here_exists(st: State, name: Seq<char>, i: int, n: int)
    requires
        scopes_exist(st),
        0 <= i < st.scopes.len(),
        0 <= n <= st.scopes[i].len(),
    ensures
        bound_here(st.scopes[i].take(n), name) matches Some((reg, _)) ==> reg.0
            < st.names.len(),
    decreases n,
{
    if n > 0 {
        let some = st.scopes[i].take(n);
        assert(some.last() == st.scopes[i][n - 1]);
        assert(some.drop_last() =~= st.scopes[i].take(n - 1));
        bound_here_exists(st, name, i, n - 1);
    }
}

// -- what an expression is worth --------------------------------------------

/// Whether an expression is worked out from constants and variables by operators on
/// numbers, truth values and characters alone.
pub open spec fn plain(cx: ContextView, e: Expr) -> bool
    decreases e,
{
    match e.kind {
        ExprKind::Int(_) => true,
        ExprKind::Float(_) => true,
        ExprKind::Bool(_) => true,
        ExprKind::Char(_) => true,
        ExprKind::Var(_) => true,
        ExprKind::Neg(x) => plain(cx, *x),
        ExprKind::Not(x) => plain(cx, *x),
        ExprKind::Bin { op, lhs, rhs } => plain(cx, *lhs) && plain(cx, *rhs) && type_of(
            cx,
            lhs.id,
        ) != Some(Ty::Str),
        ExprKind::Cmp { op, lhs, rhs } => plain(cx, *lhs) && plain(cx, *rhs) && type_of(
            cx,
            lhs.id,
        ) != Some(Ty::Str),
        _ => false,
    }
}

/// How the value of a node is read.
pub open spec fn read_as(cx: ContextView, id: crate::ast::NodeId) -> Num {
    if cx.types.ty(id) == Ty::Float {
        Num::Float
    } else {
        Num::Int
    }
}

/// What an expression is worth where variables are worth what `vars` says, and whether it
/// is worth anything.
pub open spec fn worth_of(cx: ContextView, vars: Map<Seq<char>, i64>, e: Expr) -> Option<i64>
    decreases e,
{
    match e.kind {
        ExprKind::Int(v) => Some(v),
        ExprKind::Float(b) => Some(word(b)),
        ExprKind::Bool(v) => Some(
            if v {
                1
            } else {
                0
            },
        ),
        ExprKind::Char(c) => Some(c as i64),
        ExprKind::Var(name) => Some(vars[name@]),
        ExprKind::Neg(x) => match worth_of(cx, vars, *x) {
            Some(v) => if read_as(cx, e.id) is Float {
                if is_nan(bits(v)) {
                    None
                } else {
                    Some(negation(Num::Float, v))
                }
            } else if v == i64::MIN {
                None
            } else {
                Some((-v) as i64)
            },
            None => None,
        },
        ExprKind::Not(x) => match worth_of(cx, vars, *x) {
            Some(v) => Some(
                if v == 0 {
                    1
                } else {
                    0
                },
            ),
            None => None,
        },
        ExprKind::Bin { op, lhs, rhs } => match (
            worth_of(cx, vars, *lhs),
            worth_of(cx, vars, *rhs),
        ) {
            (Some(a), Some(b)) => folded_bin(
                read_as(cx, e.id),
                op,
                Value::Const(a),
                Value::Const(b),
            ),
            _ => None,
        },
        ExprKind::Cmp { op, lhs, rhs } => match (
            worth_of(cx, vars, *lhs),
            worth_of(cx, vars, *rhs),
        ) {
            (Some(a), Some(b)) => folded_comparison(
                read_as(cx, lhs.id),
                op,
                Value::Const(a),
                Value::Const(b),
            ),
            _ => None,
        },
        _ => None,
    }
}

/// Whether the variables in scope are worth what `vars` says.
pub open spec fn holds_vars(st: State, m: Machine, vars: Map<Seq<char>, i64>) -> bool {
    forall|name: Seq<char>| #[trigger]
        bound(st, name) matches Some((reg, _)) ==> m.regs[reg] == vars[name]
}

/// Whether one machine is another but for registers from `from` on.
pub open spec fn same_below(a: Machine, b: Machine, from: nat) -> bool {
    &&& b.cells == a.cells
    &&& forall|reg: VReg| reg.0 < from ==> #[trigger] b.regs[reg] == a.regs[reg]
}

/// Whether building went on straight, in the same scopes.
pub open spec fn went_on(a: State, b: State) -> bool {
    &&& straight(a, b)
    &&& b.scopes == a.scopes
    &&& a.names.len() <= b.names.len()
    &&& a.names.len() <= u32::MAX ==> b.names.len() <= u32::MAX
    &&& b.current == a.current
    &&& b.blocks.len() == a.blocks.len()
}

pub proof fn went_on_twice(a: State, b: State, c: State)
    requires
        went_on(a, b),
        went_on(b, c),
    ensures
        went_on(a, c),
        code(a, c) == code(a, b) + code(b, c),
{
    both_appended(a, b, c);
}

pub proof fn still_holds(a: State, b: State, m: Machine, n: Machine, vars: Map<Seq<char>, i64>)
    requires
        scopes_exist(a),
        b.scopes == a.scopes,
        holds_vars(a, m, vars),
        same_below(m, n, a.names.len()),
    ensures
        holds_vars(b, n, vars),
{
    reveal(bound);
    assert forall|name: Seq<char>| #[trigger] bound(b, name) is Some implies n.regs[(bound(
        b,
        name,
    )->0).0] == vars[name] by {
        bound_exists(a, name);
        assert(bound(a, name) == bound(b, name));
    }
}

/// An expression built as an operand, as far as the run of it goes.
pub open spec fn operand_right(
    cx: ContextView,
    st: State,
    e: Expr,
    after: State,
    value: Value,
) -> bool {
    forall|m: Machine, n: Machine, vars: Map<Seq<char>, i64>|
        #![trigger runs(code(st, after), m, n), holds_vars(st, m, vars)]
        runs(code(st, after), m, n) && holds_vars(st, m, vars) ==> {
            &&& same_below(m, n, st.names.len())
            &&& worth_of(cx, vars, e) matches Some(w) ==> n.worth(value) == w
        }
}

/// **An expression is worth what the tree says.** Where the instructions an operand is
/// built with are run, what comes out is what the expression is worth to the variables in
/// scope, its operators applied to its operands from left to right, and no register there
/// was and no cell is touched.
pub proof fn expressions_are_worth_what_they_say(cx: ContextView, st: State, e: Expr)
    requires
        plain(cx, e),
        scopes_exist(st),
        st.names.len() <= u32::MAX,
        st.current.0 < st.blocks.len(),
        expr_of(cx, st, e) is Some,
    ensures
        ({
            let (after, value) = expr_of(cx, st, e)->0;
            &&& went_on(st, after)
            &&& crate::ir::value::value_within(value, after.names.len())
            &&& operand_right(cx, st, e, after, value)
        }),
    decreases e, 1int,
{
    let (after, value) = expr_of(cx, st, e)->0;
    assert(expr_of(cx, st, e) == expr_body(cx, st, e));
    match e.kind {
        ExprKind::Var(name) => {
            nothing_appended(st, after);
            bound_exists(st, name@);
            assert forall|m: Machine, n: Machine, vars: Map<Seq<char>, i64>|
                #![trigger runs(code(st, after), m, n), holds_vars(st, m, vars)]
                runs(code(st, after), m, n) && holds_vars(st, m, vars) implies same_below(
                m,
                n,
                st.names.len(),
            ) && (worth_of(cx, vars, e) matches Some(w) ==> n.worth(value) == w) by {
                runs_nothing(m, n);
                assert(bound(st, name@) is Some);
            }
        },
        ExprKind::Neg(x) => {
            negation_is_right(cx, st, e, *x);
        },
        ExprKind::Not(x) => {
            not_is_right(cx, st, e, *x);
        },
        ExprKind::Bin { op, lhs, rhs } => {
            operands_are_right(cx, st, e, *lhs, *rhs);
            let (mid, a, b) = operands_of(cx, st, e)->0;
            let num = read_as(cx, e.id);
            assert(bin_value(mid, num, op, a, b) == Some((after, value)));
            answer_is_right(mid, num, op, a, b);
            assert forall|m: Machine, n: Machine, vars: Map<Seq<char>, i64>|
                #![trigger runs(code(st, after), m, n), holds_vars(st, m, vars)]
                runs(code(st, after), m, n) && holds_vars(st, m, vars) implies same_below(
                m,
                n,
                st.names.len(),
            ) && (worth_of(cx, vars, e) matches Some(w) ==> n.worth(value) == w) by {
                went_on_twice(st, mid, after);
                let k = runs_both(code(st, mid), code(mid, after), m, n);
                assert(pair_right(cx, st, *lhs, *rhs, mid, a, b));
                assert(same_below(m, k, st.names.len()));
                assert(answer_right(mid, num, op, a, b, after, value));
                same_below_twice(m, k, n, st.names.len(), mid.names.len());
            }
            went_on_twice(st, mid, after);
        },
        ExprKind::Cmp { op, lhs, rhs } => {
            operands_are_right(cx, st, e, *lhs, *rhs);
            let (mid, a, b) = operands_of(cx, st, e)->0;
            let num = read_as(cx, lhs.id);
            assert(comparison_value(mid, num, op, a, b) == Some((after, value)));
            comparison_is_right(mid, num, op, a, b);
            assert forall|m: Machine, n: Machine, vars: Map<Seq<char>, i64>|
                #![trigger runs(code(st, after), m, n), holds_vars(st, m, vars)]
                runs(code(st, after), m, n) && holds_vars(st, m, vars) implies same_below(
                m,
                n,
                st.names.len(),
            ) && (worth_of(cx, vars, e) matches Some(w) ==> n.worth(value) == w) by {
                went_on_twice(st, mid, after);
                let k = runs_both(code(st, mid), code(mid, after), m, n);
                assert(pair_right(cx, st, *lhs, *rhs, mid, a, b));
                assert(same_below(m, k, st.names.len()));
                assert(comparison_right(mid, num, op, a, b, after, value));
                same_below_twice(m, k, n, st.names.len(), mid.names.len());
            }
            went_on_twice(st, mid, after);
        },
        _ => {
            nothing_appended(st, after);
            assert forall|m: Machine, n: Machine, vars: Map<Seq<char>, i64>|
                #![trigger runs(code(st, after), m, n), holds_vars(st, m, vars)]
                runs(code(st, after), m, n) && holds_vars(st, m, vars) implies same_below(
                m,
                n,
                st.names.len(),
            ) && (worth_of(cx, vars, e) matches Some(w) ==> n.worth(value) == w) by {
                runs_nothing(m, n);
            }
        },
    }
}

/// Two operands built one behind the other.
pub open spec fn pair_right(
    cx: ContextView,
    st: State,
    lhs: Expr,
    rhs: Expr,
    mid: State,
    a: Value,
    b: Value,
) -> bool {
    forall|m: Machine, n: Machine, vars: Map<Seq<char>, i64>|
        #![trigger runs(code(st, mid), m, n), holds_vars(st, m, vars)]
        runs(code(st, mid), m, n) && holds_vars(st, m, vars) ==> {
            &&& same_below(m, n, st.names.len())
            &&& worth_of(cx, vars, lhs) matches Some(w) ==> n.worth(a) == w
            &&& worth_of(cx, vars, rhs) matches Some(w) ==> n.worth(b) == w
        }
}

pub proof fn operands_are_right(cx: ContextView, st: State, e: Expr, lhs: Expr, rhs: Expr)
    requires
        match e.kind {
            ExprKind::Bin { lhs: l, rhs: r, .. } => *l == lhs && *r == rhs,
            ExprKind::Cmp { lhs: l, rhs: r, .. } => *l == lhs && *r == rhs,
            _ => false,
        },
        plain(cx, lhs),
        plain(cx, rhs),
        scopes_exist(st),
        st.names.len() <= u32::MAX,
        st.current.0 < st.blocks.len(),
        operands_of(cx, st, e) is Some,
    ensures
        ({
            let (mid, a, b) = operands_of(cx, st, e)->0;
            &&& went_on(st, mid)
            &&& scopes_exist(mid)
            &&& crate::ir::value::value_within(a, mid.names.len())
            &&& crate::ir::value::value_within(b, mid.names.len())
            &&& pair_right(cx, st, lhs, rhs, mid, a, b)
        }),
    decreases e, 0int,
{
    let (mid, a, b) = operands_of(cx, st, e)->0;
    expressions_are_worth_what_they_say(cx, st, lhs);
    let (one, _) = expr_of(cx, st, lhs)->0;
    assert(scopes_exist(one));
    expressions_are_worth_what_they_say(cx, one, rhs);
    went_on_twice(st, one, mid);
    assert forall|m: Machine, n: Machine, vars: Map<Seq<char>, i64>|
        #![trigger runs(code(st, mid), m, n), holds_vars(st, m, vars)]
        runs(code(st, mid), m, n) && holds_vars(st, m, vars) implies same_below(
        m,
        n,
        st.names.len(),
    ) && (worth_of(cx, vars, lhs) matches Some(w) ==> n.worth(a) == w) && (worth_of(
        cx,
        vars,
        rhs,
    ) matches Some(w) ==> n.worth(b) == w) by {
        let k = runs_both(code(st, one), code(one, mid), m, n);
        assert(operand_right(cx, st, lhs, one, a));
        assert(same_below(m, k, st.names.len()));
        still_holds(st, one, m, k, vars);
        assert(operand_right(cx, one, rhs, mid, b));
        assert(same_below(k, n, one.names.len()));
        if let Value::Reg(reg) = a {
            assert(n.regs[reg] == k.regs[reg]);
        }
        assert forall|reg: VReg| reg.0 < st.names.len() implies #[trigger] n.regs[reg]
            == m.regs[reg] by {
            assert(k.regs[reg] == m.regs[reg]);
        }
    }
}

pub proof fn same_below_twice(a: Machine, b: Machine, c: Machine, from: nat, later: nat)
    requires
        same_below(a, b, from),
        same_below(b, c, later),
        from <= later,
    ensures
        same_below(a, c, from),
{
    assert forall|reg: VReg| reg.0 < from implies #[trigger] c.regs[reg] == a.regs[reg] by {
        assert(b.regs[reg] == a.regs[reg]);
    }
}

/// A register made and written.
pub proof fn one_into_a_new_register(st: State, instr: InstrView)
    requires
        temp(st) is Some,
        st.current.0 < st.blocks.len(),
    ensures
        ({
            let (made, dst) = temp(st)->0;
            let after = emitted(made, instr);
            &&& went_on(st, after)
            &&& code(st, after) == seq![instr]
            &&& dst.0 == st.names.len()
            &&& after.names.len() == st.names.len() + 1
        }),
{
    temp_is_new(st);
    let (made, dst) = temp(st)->0;
    nothing_appended(st, made);
    one_appended(made, instr);
    both_appended(st, made, emitted(made, instr));
    assert(code(st, made) + code(made, emitted(made, instr)) =~= seq![instr]);
    reveal(temp);
}

/// An operation's answer as an operand is what it answers of its operands.
pub open spec fn answer_right(
    st: State,
    num: Num,
    op: BinOp,
    a: Value,
    b: Value,
    after: State,
    value: Value,
) -> bool {
    forall|m: Machine, n: Machine| #[trigger]
        runs(code(st, after), m, n) ==> same_below(m, n, st.names.len()) && folded_bin(
            num,
            op,
            Value::Const(m.worth(a)),
            Value::Const(m.worth(b)),
        ) == Some(n.worth(value))
}

proof fn answer_is_right(st: State, num: Num, op: BinOp, a: Value, b: Value)
    requires
        st.current.0 < st.blocks.len(),
        bin_value(st, num, op, a, b) is Some,
    ensures
        ({
            let (after, value) = bin_value(st, num, op, a, b)->0;
            &&& went_on(st, after)
            &&& crate::ir::value::value_within(value, after.names.len())
            &&& answer_right(st, num, op, a, b, after, value)
        }),
{
    let (after, value) = bin_value(st, num, op, a, b)->0;
    if folded_bin(num, op, a, b) is Some {
        nothing_appended(st, after);
        assert forall|m: Machine, n: Machine| #[trigger]
            runs(code(st, after), m, n) implies same_below(m, n, st.names.len()) && folded_bin(
            num,
            op,
            Value::Const(m.worth(a)),
            Value::Const(m.worth(b)),
        ) == Some(n.worth(value)) by {
            runs_nothing(m, n);
        }
    } else {
        let (made, dst) = temp(st)->0;
        let instr = InstrView::Bin { num, op, dst, lhs: a, rhs: b };
        one_into_a_new_register(st, instr);
        assert forall|m: Machine, n: Machine| #[trigger]
            runs(code(st, after), m, n) implies same_below(m, n, st.names.len()) && folded_bin(
            num,
            op,
            Value::Const(m.worth(a)),
            Value::Const(m.worth(b)),
        ) == Some(n.worth(value)) by {
            runs_one(instr, m, n);
        }
    }
}

/// A comparison's answer as an operand is what it answers of its operands.
pub open spec fn comparison_right(
    st: State,
    num: Num,
    op: CmpOp,
    a: Value,
    b: Value,
    after: State,
    value: Value,
) -> bool {
    forall|m: Machine, n: Machine| #[trigger]
        runs(code(st, after), m, n) ==> same_below(m, n, st.names.len()) && folded_comparison(
            num,
            op,
            Value::Const(m.worth(a)),
            Value::Const(m.worth(b)),
        ) == Some(n.worth(value))
}

proof fn comparison_is_right(st: State, num: Num, op: CmpOp, a: Value, b: Value)
    requires
        st.current.0 < st.blocks.len(),
        comparison_value(st, num, op, a, b) is Some,
    ensures
        ({
            let (after, value) = comparison_value(st, num, op, a, b)->0;
            &&& went_on(st, after)
            &&& crate::ir::value::value_within(value, after.names.len())
            &&& comparison_right(st, num, op, a, b, after, value)
        }),
{
    let (after, value) = comparison_value(st, num, op, a, b)->0;
    if folded_comparison(num, op, a, b) is Some {
        nothing_appended(st, after);
        assert forall|m: Machine, n: Machine| #[trigger]
            runs(code(st, after), m, n) implies same_below(m, n, st.names.len())
            && folded_comparison(
            num,
            op,
            Value::Const(m.worth(a)),
            Value::Const(m.worth(b)),
        ) == Some(n.worth(value)) by {
            runs_nothing(m, n);
        }
    } else {
        let (made, dst) = temp(st)->0;
        let instr = InstrView::Cmp { num, op, dst, lhs: a, rhs: b };
        one_into_a_new_register(st, instr);
        assert forall|m: Machine, n: Machine| #[trigger]
            runs(code(st, after), m, n) implies same_below(m, n, st.names.len())
            && folded_comparison(
            num,
            op,
            Value::Const(m.worth(a)),
            Value::Const(m.worth(b)),
        ) == Some(n.worth(value)) by {
            runs_one(instr, m, n);
        }
    }
}

proof fn negation_is_right(cx: ContextView, st: State, e: Expr, x: Expr)
    requires
        e.kind matches ExprKind::Neg(inner) && *inner == x,
        plain(cx, x),
        scopes_exist(st),
        st.names.len() <= u32::MAX,
        st.current.0 < st.blocks.len(),
        expr_of(cx, st, e) is Some,
    ensures
        ({
            let (after, value) = expr_of(cx, st, e)->0;
            &&& went_on(st, after)
            &&& crate::ir::value::value_within(value, after.names.len())
            &&& operand_right(cx, st, e, after, value)
        }),
    decreases e, 0int,
{
    assert(expr_of(cx, st, e) == expr_body(cx, st, e));
    let (after, value) = expr_of(cx, st, e)->0;
    let (mid, val) = expr_of(cx, st, x)->0;
    let num = read_as(cx, e.id);
    expressions_are_worth_what_they_say(cx, st, x);
    assert(negation_value(mid, num, val) == Some((after, value)));
    if val is Const {
        nothing_appended(mid, after);
    } else {
        let (made, dst) = temp(mid)->0;
        one_into_a_new_register(
            mid,
            InstrView::Bin {
                num,
                op: BinOp::Sub,
                dst,
                lhs: crate::ir::fold::zero_of(num),
                rhs: val,
            },
        );
    }
    went_on_twice(st, mid, after);
    assert forall|m: Machine, n: Machine, vars: Map<Seq<char>, i64>|
        #![trigger runs(code(st, after), m, n), holds_vars(st, m, vars)]
        runs(code(st, after), m, n) && holds_vars(st, m, vars) implies same_below(
        m,
        n,
        st.names.len(),
    ) && (worth_of(cx, vars, e) matches Some(w) ==> n.worth(value) == w) by {
        let k = runs_both(code(st, mid), code(mid, after), m, n);
        assert(operand_right(cx, st, x, mid, val));
        assert(same_below(m, k, st.names.len()));
        negating_is_taking_from_zero(k.worth(val));
        if val is Const {
            runs_nothing(k, n);
        } else {
            let (made, dst) = temp(mid)->0;
            runs_one(
                InstrView::Bin {
                    num,
                    op: BinOp::Sub,
                    dst,
                    lhs: crate::ir::fold::zero_of(num),
                    rhs: val,
                },
                k,
                n,
            );
        }
        assert(same_below(k, n, mid.names.len()));
        same_below_twice(m, k, n, st.names.len(), mid.names.len());
    }
}

proof fn not_is_right(cx: ContextView, st: State, e: Expr, x: Expr)
    requires
        e.kind matches ExprKind::Not(inner) && *inner == x,
        plain(cx, x),
        scopes_exist(st),
        st.names.len() <= u32::MAX,
        st.current.0 < st.blocks.len(),
        expr_of(cx, st, e) is Some,
    ensures
        ({
            let (after, value) = expr_of(cx, st, e)->0;
            &&& went_on(st, after)
            &&& crate::ir::value::value_within(value, after.names.len())
            &&& operand_right(cx, st, e, after, value)
        }),
    decreases e, 0int,
{
    assert(expr_of(cx, st, e) == expr_body(cx, st, e));
    let (after, value) = expr_of(cx, st, e)->0;
    let (mid, num, op, a, b) = negated_of(cx, st, x)->0;
    assert(comparison_value(mid, num, op, a, b) == Some((after, value)));
    if turned_round(cx, x) {
        if let ExprKind::Cmp { op: by, lhs, rhs } = x.kind {
            operands_are_right(cx, st, x, *lhs, *rhs);
        }
    } else {
        expressions_are_worth_what_they_say(cx, st, x);
    }
    comparison_is_right(mid, num, op, a, b);
    went_on_twice(st, mid, after);
    assert forall|m: Machine, n: Machine, vars: Map<Seq<char>, i64>|
        #![trigger runs(code(st, after), m, n), holds_vars(st, m, vars)]
        runs(code(st, after), m, n) && holds_vars(st, m, vars) implies same_below(
        m,
        n,
        st.names.len(),
    ) && (worth_of(cx, vars, e) matches Some(w) ==> n.worth(value) == w) by {
        let k = runs_both(code(st, mid), code(mid, after), m, n);
        assert(comparison_right(mid, num, op, a, b, after, value));
        if turned_round(cx, x) {
            if let ExprKind::Cmp { op: by, lhs, rhs } = x.kind {
                assert(pair_right(cx, st, *lhs, *rhs, mid, a, b));
                assert(same_below(m, k, st.names.len()));
                if worth_of(cx, vars, *lhs) is Some && worth_of(cx, vars, *rhs) is Some {
                    crate::ir::fold::negated_comparison(num, by, k.worth(a), k.worth(b));
                }
            }
        } else {
            assert(operand_right(cx, st, x, mid, a));
            assert(same_below(m, k, st.names.len()));
        }
        same_below_twice(m, k, n, st.names.len(), mid.names.len());
    }
}

} // verus!
