//! That a `print` writes its parts.

use vstd::prelude::*;

use super::builder::line_ended;
use super::machine::{
    both_appended, code, expressions_are_worth_what_they_say, holds_vars, nothing_appended,
    one_appended, operand_right, plain, runs, runs_both, same_below, same_below_twice,
    scopes_exist, still_holds, straight, went_on, went_on_twice, worth_of, Machine,
};
use super::meaning::{
    boxed_enum, expr_of, flushed, parts_from, print_of, type_of, write_of, writes_from,
};
use super::pieces::texts_are_kept_once;
use super::state::{emitted, interned_text, ContextView, State};
use crate::ast::{Expr, PrintPart, Ty};
use crate::ir::instr::InstrView;
use crate::ir::value::{value_within, Value};

verus! {

/// One thing that is written: a character, by its code point, or a value of a type.
pub enum Mark {
    Char(int),
    Value(Ty, i64),
}

/// Text, character by character.
pub open spec fn marks(text: Seq<char>) -> Seq<Mark>
    decreases text.len(),
{
    if text.len() == 0 {
        seq![]
    } else {
        marks(text.drop_last()).push(Mark::Char(text.last() as int))
    }
}

proof fn marks_both(a: Seq<char>, b: Seq<char>)
    ensures
        marks(a + b) == marks(a) + marks(b),
    decreases b.len(),
{
    if b.len() == 0 {
        assert(a + b =~= a);
        assert(marks(a) + marks(b) =~= marks(a));
    } else {
        assert((a + b).drop_last() =~= a + b.drop_last());
        marks_both(a, b.drop_last());
        assert(marks(a + b) =~= marks(a) + marks(b));
    }
}

/// What a part writes that is a value.
pub open spec fn value_in(part: PrintPart) -> Option<Expr> {
    match part {
        PrintPart::Text(_) => None,
        PrintPart::Value(e) => Some(e),
        PrintPart::Spec { expr } => Some(expr),
    }
}

/// What the parts from `i` on say is to be written.
pub open spec fn wanted(
    cx: ContextView,
    vars: Map<Seq<char>, i64>,
    parts: Seq<PrintPart>,
    i: int,
) -> Seq<Mark>
    decreases parts.len() - i,
{
    if 0 <= i < parts.len() {
        (match parts[i] {
            PrintPart::Text(chars) => marks(chars@),
            _ => {
                let e = value_in(parts[i])->0;
                seq![Mark::Value(type_of(cx, e.id)->0, worth_of(cx, vars, e)->0)]
            },
        }) + wanted(cx, vars, parts, i + 1)
    } else {
        seq![]
    }
}

/// What an instruction writes.
pub open spec fn mark_of(instr: InstrView, m: Machine, texts: Seq<Seq<char>>) -> Seq<Mark> {
    match instr {
        InstrView::PrintText { id } => marks(texts[id.0 as int]),
        InstrView::Print { ty, val, newline } => seq![Mark::Value(ty, m.worth(val))] + (
        if newline {
            seq![Mark::Char('\n' as int)]
        } else {
            seq![]
        }),
        _ => seq![],
    }
}

/// What a run of instructions writes.
pub open spec fn shown(instrs: Seq<InstrView>, m: Machine, texts: Seq<Seq<char>>) -> Seq<Mark>
    decreases instrs.len(),
{
    if instrs.len() == 0 {
        seq![]
    } else {
        shown(instrs.drop_last(), m, texts) + mark_of(instrs.last(), m, texts)
    }
}

proof fn shown_both(a: Seq<InstrView>, b: Seq<InstrView>, m: Machine, texts: Seq<Seq<char>>)
    ensures
        shown(a + b, m, texts) == shown(a, m, texts) + shown(b, m, texts),
    decreases b.len(),
{
    if b.len() == 0 {
        assert(a + b =~= a);
    } else {
        assert((a + b).drop_last() =~= a + b.drop_last());
        shown_both(a, b.drop_last(), m, texts);
        assert(shown(a + b, m, texts) =~= shown(a, m, texts) + shown(b, m, texts));
    }
}

proof fn shown_one(instr: InstrView, m: Machine, texts: Seq<Seq<char>>)
    ensures
        shown(seq![instr], m, texts) == mark_of(instr, m, texts),
{
    assert(seq![instr].drop_last() =~= Seq::<InstrView>::empty());
    assert(shown(seq![instr].drop_last(), m, texts) == Seq::<Mark>::empty());
    assert(shown(seq![instr], m, texts) =~= mark_of(instr, m, texts));
}

/// Whether what is written is among so many texts.
spec fn known(instrs: Seq<InstrView>, count: nat) -> bool {
    forall|i: int|
        0 <= i < instrs.len() ==> (#[trigger] instrs[i] matches InstrView::PrintText { id }
            ==> id.0 < count)
}

/// Whether texts were only added.
spec fn more(few: Seq<Seq<char>>, many: Seq<Seq<char>>) -> bool {
    &&& few.len() <= many.len() <= u32::MAX
    &&& forall|k: int| 0 <= k < few.len() ==> #[trigger] many[k] == few[k]
}

proof fn shown_with_more(
    instrs: Seq<InstrView>,
    m: Machine,
    few: Seq<Seq<char>>,
    many: Seq<Seq<char>>,
)
    requires
        known(instrs, few.len()),
        more(few, many),
    ensures
        shown(instrs, m, few) == shown(instrs, m, many),
    decreases instrs.len(),
{
    if instrs.len() > 0 {
        assert(known(instrs.drop_last(), few.len())) by {
            assert forall|i: int| 0 <= i < instrs.len() - 1 implies (
            #[trigger] instrs.drop_last()[i] matches InstrView::PrintText { id } ==> id.0
                < few.len()) by {
                assert(instrs.drop_last()[i] == instrs[i]);
            }
        }
        shown_with_more(instrs.drop_last(), m, few, many);
        assert(instrs.last() == instrs[instrs.len() - 1]);
    }
}

// -- the values -------------------------------------------------------------

/// Whether a value can be worked out plainly before it is written.
pub open spec fn plain_value(cx: ContextView, e: Expr) -> bool {
    plain(cx, e) && type_of(cx, e.id) is Some && !boxed_enum(cx, type_of(cx, e.id)->0)
}

pub open spec fn plain_parts(cx: ContextView, parts: Seq<PrintPart>) -> bool {
    forall|i: int|
        0 <= i < parts.len() ==> (value_in(#[trigger] parts[i]) matches Some(e) ==> plain_value(
            cx,
            e,
        ))
}

/// The values among the parts from `i` on.
pub open spec fn values_in(parts: Seq<PrintPart>, i: int) -> Seq<Expr>
    decreases parts.len() - i,
{
    if 0 <= i < parts.len() {
        match value_in(parts[i]) {
            Some(e) => seq![e] + values_in(parts, i + 1),
            None => values_in(parts, i + 1),
        }
    } else {
        seq![]
    }
}

/// Whether instructions from `k` on are the writes of values, worth what they are.
spec fn writes_of(
    cx: ContextView,
    vars: Map<Seq<char>, i64>,
    m: Machine,
    writes: Seq<InstrView>,
    k: int,
    values: Seq<Expr>,
) -> bool {
    &&& writes.len() == k + values.len()
    &&& forall|j: int|
        #![trigger values[j]]
        0 <= j < values.len() ==> {
            &&& writes[k + j] matches InstrView::Print { ty, val, newline } && ty == type_of(
                cx,
                values[j].id,
            )->0 && !newline && (worth_of(cx, vars, values[j]) is Some ==> m.worth(val)
                == worth_of(cx, vars, values[j])->0)
        }
}

proof fn one_write_more(
    cx: ContextView,
    vars: Map<Seq<char>, i64>,
    m: Machine,
    writes: Seq<InstrView>,
    k: int,
    e: Expr,
    rest: Seq<Expr>,
)
    requires
        writes_of(cx, vars, m, writes, k + 1, rest),
        writes[k] matches InstrView::Print { ty, val, newline } && ty == type_of(cx, e.id)->0
            && !newline && (worth_of(cx, vars, e) is Some ==> m.worth(val) == worth_of(
            cx,
            vars,
            e,
        )->0),
    ensures
        writes_of(cx, vars, m, writes, k, seq![e] + rest),
{
    let values = seq![e] + rest;
    assert forall|j: int| #![trigger values[j]] 0 <= j < values.len() implies (writes[k
        + j] matches InstrView::Print { ty, val, newline } && ty == type_of(cx, values[j].id)->0
        && !newline && (worth_of(cx, vars, values[j]) is Some ==> m.worth(val) == worth_of(
        cx,
        vars,
        values[j],
    )->0)) by {
        if j > 0 {
            assert(values[j] == rest[j - 1]);
        }
    }
}

proof fn values_come_first(
    cx: ContextView,
    st: State,
    parts: Vec<PrintPart>,
    i: int,
    written: Seq<InstrView>,
)
    requires
        plain_parts(cx, parts@),
        0 <= i <= parts@.len(),
        scopes_exist(st),
        st.names.len() <= u32::MAX,
        st.current.0 < st.blocks.len(),
        writes_from(cx, st, parts, i, written) is Some,
    ensures
        ({
            let (after, writes) = writes_from(cx, st, parts, i, written)->0;
            &&& went_on(st, after)
            &&& after.texts == st.texts
            &&& writes.len() == written.len() + values_in(parts@, i).len()
            &&& forall|j: int| 0 <= j < written.len() ==> #[trigger] writes[j] == written[j]
            &&& forall|j: int|
                written.len() <= j < writes.len() ==> (
                #[trigger] writes[j] matches InstrView::Print { val, .. } && value_within(
                    val,
                    after.names.len(),
                ))
            &&& forall|m: Machine, n: Machine, vars: Map<Seq<char>, i64>|
                #![trigger runs(code(st, after), m, n), holds_vars(st, m, vars)]
                runs(code(st, after), m, n) && holds_vars(st, m, vars) ==> {
                    &&& same_below(m, n, st.names.len())
                    &&& writes_of(
                        cx,
                        vars,
                        n,
                        writes,
                        written.len() as int,
                        values_in(parts@, i),
                    )
                }
        }),
    decreases parts@.len() - i,
{
    let (after, writes) = writes_from(cx, st, parts, i, written)->0;
    if i < parts@.len() {
        if let Some(e) = value_in(parts@[i]) {
            assert(plain_value(cx, e));
            let ty = type_of(cx, e.id)->0;
            let (mid, val) = expr_of(cx, st, e)->0;
            expressions_are_worth_what_they_say(cx, st, e);
            plain_texts(cx, st, e);
            let write = InstrView::Print { ty, val, newline: false };
            assert(write_of(cx, st, e) == Some((mid, write)));
            assert(scopes_exist(mid));
            let longer = written.push(write);
            values_come_first(cx, mid, parts, i + 1, longer);
            went_on_twice(st, mid, after);
            assert(writes[written.len() as int] == longer[written.len() as int]);
            let values = values_in(parts@, i);
            let rest = values_in(parts@, i + 1);
            assert(values =~= seq![e] + rest);
            assert forall|j: int| 0 <= j < written.len() implies #[trigger] writes[j]
                == written[j] by {
                assert(writes[j] == longer[j]);
            }
            assert forall|m: Machine, n: Machine, vars: Map<Seq<char>, i64>|
                #![trigger runs(code(st, after), m, n), holds_vars(st, m, vars)]
                runs(code(st, after), m, n) && holds_vars(st, m, vars) implies same_below(
                m,
                n,
                st.names.len(),
            ) && writes_of(cx, vars, n, writes, written.len() as int, values) by {
                let k = runs_both(code(st, mid), code(mid, after), m, n);
                assert(operand_right(cx, st, e, mid, val));
                still_holds(st, mid, m, k, vars);
                same_below_twice(m, k, n, st.names.len(), mid.names.len());
                assert(n.worth(val) == k.worth(val));
                one_write_more(cx, vars, n, writes, written.len() as int, e, rest);
            }
        } else {
            values_come_first(cx, st, parts, i + 1, written);
        }
    } else {
        nothing_appended(st, after);
        assert forall|m: Machine, n: Machine, vars: Map<Seq<char>, i64>|
            #![trigger runs(code(st, after), m, n), holds_vars(st, m, vars)]
            runs(code(st, after), m, n) && holds_vars(st, m, vars) implies n == m by {
            super::machine::runs_nothing(m, n);
        }
    }
}

/// Working out a plain operand keeps the texts there are.
proof fn plain_texts(cx: ContextView, st: State, e: Expr)
    requires
        plain(cx, e),
        expr_of(cx, st, e) is Some,
    ensures
        (expr_of(cx, st, e)->0).0.texts == st.texts,
    decreases e,
{
    assert(expr_of(cx, st, e) == super::meaning::expr_body(cx, st, e));
    reveal(super::state::temp);
    reveal(emitted);
    match e.kind {
        crate::ast::ExprKind::Neg(x) => {
            plain_texts(cx, st, *x);
        },
        crate::ast::ExprKind::Not(x) => {
            if super::meaning::turned_round(cx, *x) {
                pair_texts(cx, st, *x);
            } else {
                plain_texts(cx, st, *x);
            }
        },
        crate::ast::ExprKind::Bin { op, lhs, rhs } => {
            pair_texts(cx, st, e);
        },
        crate::ast::ExprKind::Cmp { op, lhs, rhs } => {
            pair_texts(cx, st, e);
        },
        _ => {},
    }
}

proof fn pair_texts(cx: ContextView, st: State, e: Expr)
    requires
        e.kind is Bin || e.kind is Cmp,
        plain(cx, e),
        super::meaning::operands_of(cx, st, e) is Some,
    ensures
        (super::meaning::operands_of(cx, st, e)->0).0.texts == st.texts,
    decreases e, 0int,
{
    match e.kind {
        crate::ast::ExprKind::Bin { op, lhs, rhs } => {
            plain_texts(cx, st, *lhs);
            plain_texts(cx, (expr_of(cx, st, *lhs)->0).0, *rhs);
        },
        crate::ast::ExprKind::Cmp { op, lhs, rhs } => {
            plain_texts(cx, st, *lhs);
            plain_texts(cx, (expr_of(cx, st, *lhs)->0).0, *rhs);
        },
        _ => {},
    }
}

// -- the writes -------------------------------------------------------------

proof fn flushing_writes(st: State, text: Seq<char>, m: Machine)
    requires
        st.texts.len() <= u32::MAX,
        st.current.0 < st.blocks.len(),
        flushed(st, text) is Some,
    ensures
        ({
            let after = flushed(st, text)->0;
            &&& straight(st, after)
            &&& after.current.0 < after.blocks.len()
            &&& more(st.texts, after.texts)
            &&& known(code(st, after), after.texts.len())
            &&& shown(code(st, after), m, after.texts) == marks(text)
        }),
{
    let after = flushed(st, text)->0;
    if text.len() == 0 {
        nothing_appended(st, after);
        assert(marks(text) =~= Seq::<Mark>::empty());
    } else {
        let (mid, id) = interned_text(st, text)->0;
        texts_are_kept_once(st, text);
        assert(mid.texts.len() <= u32::MAX) by {
            reveal(interned_text);
        }
        let instr = InstrView::PrintText { id };
        nothing_appended(st, mid);
        one_appended(mid, instr);
        both_appended(st, mid, after);
        assert(code(st, after) =~= seq![instr]);
        assert(after.texts == mid.texts) by {
            reveal(emitted);
        }
        shown_one(instr, m, after.texts);
    }
}

/// Whether the last thing a block does is write a value, and no line ending.
spec fn ends_in_a_value(st: State) -> bool {
    let instrs = st.blocks[st.current.0 as int].instrs;
    instrs.len() > 0 && (instrs.last() matches InstrView::Print { newline, .. } && !newline)
}

proof fn parts_are_written(
    cx: ContextView,
    st: State,
    parts: Seq<PrintPart>,
    i: int,
    written: Seq<InstrView>,
    k: int,
    text: Seq<char>,
    value_last: bool,
    m: Machine,
    vars: Map<Seq<char>, i64>,
)
    requires
        0 <= i <= parts.len(),
        0 <= k,
        writes_of(cx, vars, m, written, k, values_in(parts, i)),
        forall|j: int|
            i <= j < parts.len() ==> (value_in(#[trigger] parts[j]) matches Some(e) ==> worth_of(
                cx,
                vars,
                e,
            ) is Some),
        st.texts.len() <= u32::MAX,
        st.current.0 < st.blocks.len(),
        value_last ==> text.len() == 0 && ends_in_a_value(st),
        parts_from(st, parts, i, written, k, text, value_last) is Some,
    ensures
        ({
            let (after, left, last) = parts_from(st, parts, i, written, k, text, value_last)->0;
            &&& straight(st, after)
            &&& after.current.0 < after.blocks.len()
            &&& more(st.texts, after.texts)
            &&& known(code(st, after), after.texts.len())
            &&& shown(code(st, after), m, after.texts) + marks(left) == marks(text) + wanted(
                cx,
                vars,
                parts,
                i,
            )
            &&& last ==> left.len() == 0 && ends_in_a_value(after)
            &&& last && !value_last ==> code(st, after).len() > 0
        }),
    decreases parts.len() - i,
{
    let (after, left, last) = parts_from(st, parts, i, written, k, text, value_last)->0;
    let all = wanted(cx, vars, parts, i);
    if i < parts.len() {
        let rest = wanted(cx, vars, parts, i + 1);
        match parts[i] {
            PrintPart::Text(chars) => {
                let longer = text + chars@;
                parts_are_written(cx, st, parts, i + 1, written, k, longer, false, m, vars);
                marks_both(text, chars@);
                assert(all == marks(chars@) + rest);
                assert(marks(longer) + rest =~= marks(text) + all);
            },
            _ => {
                let e = value_in(parts[i])->0;
                let values = values_in(parts, i);
                assert(values[0] == e);
                let mid = flushed(st, text)->0;
                flushing_writes(st, text, m);
                let write = written[k];
                let put = emitted(mid, write);
                one_appended(mid, write);
                assert(put.texts == mid.texts) by {
                    reveal(emitted);
                }
                assert(ends_in_a_value(put)) by {
                    reveal(emitted);
                }
                both_appended(st, mid, put);
                let tail = values_in(parts, i + 1);
                assert(values =~= seq![e] + tail);
                assert(writes_of(cx, vars, m, written, k + 1, tail)) by {
                    assert forall|j: int| #![trigger tail[j]] 0 <= j < tail.len() implies (
                    written[k + 1 + j] matches InstrView::Print { ty, val, newline } && ty
                        == type_of(cx, tail[j].id)->0 && !newline && (worth_of(
                        cx,
                        vars,
                        tail[j],
                    ) is Some ==> m.worth(val) == worth_of(cx, vars, tail[j])->0)) by {
                        assert(values[j + 1] == tail[j]);
                    }
                }
                parts_are_written(cx, put, parts, i + 1, written, k + 1, seq![], true, m, vars);
                both_appended(st, put, after);
                assert(code(st, put) =~= code(st, mid).push(write));
                assert(code(st, put).len() > 0);
                shown_both(code(st, put), code(put, after), m, after.texts);
                assert(known(code(st, put), put.texts.len()));
                shown_with_more(code(st, put), m, put.texts, after.texts);
                assert(code(st, put) =~= code(st, mid) + seq![write]);
                shown_both(code(st, mid), seq![write], m, put.texts);
                shown_one(write, m, put.texts);
                let one = seq![Mark::Value(type_of(cx, e.id)->0, worth_of(cx, vars, e)->0)];
                assert(mark_of(write, m, put.texts) =~= one);
                assert(marks(Seq::<char>::empty()) =~= Seq::<Mark>::empty());
                assert(all == one + rest);
                let later = shown(code(put, after), m, after.texts);
                assert(later + marks(left) == Seq::<Mark>::empty() + rest);
                assert(shown(code(st, after), m, after.texts) =~= marks(text) + one + later);
                assert((marks(text) + one + later) + marks(left) =~= (marks(text) + one) + (later
                    + marks(left)));
                assert(Seq::<Mark>::empty() + rest =~= rest);
                assert((marks(text) + one) + rest =~= marks(text) + all);
            },
        }
    } else {
        nothing_appended(st, after);
        assert(shown(code(st, after), m, after.texts) + marks(left) =~= marks(text) + all);
    }
}

/// A line ended where a value was written last.
proof fn a_line_is_ended(ready: State, done: State, n: Machine)
    requires
        straight(ready, done),
        code(ready, done).len() > 0,
        ends_in_a_value(done),
        line_ended(done) is Some,
    ensures
        ({
            let after = line_ended(done)->0;
            &&& straight(ready, after)
            &&& after.texts == done.texts
            &&& shown(code(ready, after), n, after.texts) == shown(
                code(ready, done),
                n,
                done.texts,
            ) + seq![Mark::Char('\n' as int)]
        }),
{
    reveal(line_ended);
    let after = line_ended(done)->0;
    let at = done.current.0 as int;
    let x = ready.blocks[at].instrs.len() as int;
    let old_code = code(ready, done);
    let new_code = code(ready, after);
    assert(done.blocks[at].instrs.len() == x + old_code.len());
    assert(after.blocks[at].instrs.take(x) =~= done.blocks[at].instrs.take(x));
    assert(new_code.drop_last() =~= old_code.drop_last());
    assert(old_code.last() == done.blocks[at].instrs.last());
    let w = mark_of(old_code.last(), n, done.texts);
    assert(mark_of(new_code.last(), n, done.texts) =~= w + seq![Mark::Char('\n' as int)]);
    let front = shown(old_code.drop_last(), n, done.texts);
    assert(shown(new_code, n, done.texts) =~= (front + w) + seq![Mark::Char('\n' as int)]);
}

/// **A `print` writes its parts in order, and a `println` ends the line.** The values are
/// worked out first, from left to right; what is then written is the parts, each where it
/// stands, text as it is and every value as of its own type and with its own worth, and
/// last of all the line ending where there is one.
pub proof fn a_print_writes_its_parts(
    cx: ContextView,
    st: State,
    newline: bool,
    parts: Vec<PrintPart>,
    m: Machine,
    n: Machine,
    vars: Map<Seq<char>, i64>,
)
    requires
        plain_parts(cx, parts@),
        forall|j: int|
            0 <= j < parts@.len() ==> (value_in(#[trigger] parts@[j]) matches Some(e) ==> worth_of(
                cx,
                vars,
                e,
            ) is Some),
        scopes_exist(st),
        st.names.len() <= u32::MAX,
        st.texts.len() <= u32::MAX,
        st.current.0 < st.blocks.len(),
        print_of(cx, st, newline, parts) is Some,
        holds_vars(st, m, vars),
        runs(code(st, (writes_from(cx, st, parts, 0, seq![])->0).0), m, n),
    ensures
        ({
            let worked_out = (writes_from(cx, st, parts, 0, seq![])->0).0;
            let after = print_of(cx, st, newline, parts)->0;
            &&& straight(st, worked_out)
            &&& straight(worked_out, after)
            &&& shown(code(worked_out, after), n, after.texts) == wanted(cx, vars, parts@, 0) + (
            if newline {
                seq![Mark::Char('\n' as int)]
            } else {
                seq![]
            })
        }),
{
    values_come_first(cx, st, parts, 0, seq![]);
    let (ready, writes) = writes_from(cx, st, parts, 0, seq![])->0;
    parts_are_written(cx, ready, parts@, 0, writes, 0, seq![], false, n, vars);
    let (done, left, last) = parts_from(ready, parts@, 0, writes, 0, seq![], false)->0;
    let after = print_of(cx, st, newline, parts)->0;
    let all = wanted(cx, vars, parts@, 0);
    assert(marks(Seq::<char>::empty()) =~= Seq::<Mark>::empty());
    assert(Seq::<Mark>::empty() + all =~= all);
    let told = shown(code(ready, done), n, done.texts);
    assert(told + marks(left) == all);
    if newline && last {
        a_line_is_ended(ready, done, n);
        assert(marks(left) =~= Seq::<Mark>::empty());
        assert(told =~= all);
    } else {
        let text = if newline {
            left.push('\n')
        } else {
            left
        };
        the_rest_is_written(ready, done, text, n);
        if newline {
            assert(text.drop_last() =~= left);
            assert(told + marks(text) =~= (told + marks(left)) + seq![Mark::Char('\n' as int)]);
        } else {
            assert(all + Seq::<Mark>::empty() =~= all);
        }
    }
}

/// The text left over written out.
proof fn the_rest_is_written(ready: State, done: State, text: Seq<char>, n: Machine)
    requires
        straight(ready, done),
        done.texts.len() <= u32::MAX,
        done.current.0 < done.blocks.len(),
        known(code(ready, done), done.texts.len()),
        flushed(done, text) is Some,
    ensures
        straight(ready, flushed(done, text)->0),
        shown(code(ready, flushed(done, text)->0), n, flushed(done, text)->0.texts) == shown(
            code(ready, done),
            n,
            done.texts,
        ) + marks(text),
{
    let after = flushed(done, text)->0;
    flushing_writes(done, text, n);
    both_appended(ready, done, after);
    shown_both(code(ready, done), code(done, after), n, after.texts);
    shown_with_more(code(ready, done), n, done.texts, after.texts);
}

} // verus!
