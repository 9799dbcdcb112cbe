//! Lowering `print` and `println`, and interning what they write.

use vstd::prelude::*;

use crate::ast::{Expr, PrintPart, Ty};
use crate::ir::instr::{Instr, InstrView};
use crate::ir::lower::builder::Lowering;
use crate::ir::lower::meaning::{flushed, parts_from, print_of, write_of, writes_from};
use crate::ir::lower::state::{follows, has, limits, sound, Context, ContextView, State};
use crate::ir::value::Value;

verus! {

/// A value waiting to be written.
#[derive(Clone, Copy, Debug)]
struct Write {
    ty: Ty,
    val: Value,
}

/// The instruction a write is, before it is known whether it ends the line.
spec fn write_view(write: Write) -> InstrView {
    InstrView::Print { ty: write.ty, val: write.val, newline: false }
}

spec fn write_views(writes: Seq<Write>) -> Seq<InstrView> {
    writes.map_values(|write: Write| write_view(write))
}

/// Put characters on the end of a text.
fn push_chars(text: &mut String, chars: &Vec<char>)
    ensures
        final(text)@ == old(text)@ + chars@,
{
    let mut i: usize = 0;
    assert(old(text)@ + chars@.subrange(0, 0) =~= old(text)@);
    while i < chars.len()
        invariant
            i <= chars@.len(),
            text@ == old(text)@ + chars@.subrange(0, i as int),
        decreases chars@.len() - i,
    {
        text.push(chars[i]);
        i = i + 1;
        assert(old(text)@ + chars@.subrange(0, i as int) =~= (old(text)@ + chars@.subrange(
            0,
            i - 1,
        )).push(chars@[i - 1]));
    }
    assert(chars@.subrange(0, i as int) =~= chars@);
}

impl Lowering {
    /// `print(...)` and `println(...)`: one write per thing written.
    ///
    /// A `println` is a `print` with one more piece of text at the end.
    ///
    /// **Every value is evaluated before anything is written.** A `print` is
    /// written like a call and is read like one, so its arguments go first.
    pub fn print_stmt(&mut self, cx: &Context<'_>, newline: bool, parts: &Vec<PrintPart>)
        requires
            sound(old(self)@),
            old(self)@.limits == limits(cx@),
            print_of(cx@, old(self)@, newline, *parts) is Some,
        ensures
            Some(final(self)@) == print_of(cx@, old(self)@, newline, *parts),
            follows(old(self)@, final(self)@),
        decreases *parts, 20int, 0int,
    {
        proof {
            reveal(limits);
        }
        let writes: Vec<Write> = self.evaluate_parts(cx, parts);
        let ghost written = write_views(writes@);
        let ghost start = self@;
        let mut text: String = String::new();
        // Whether *this* statement's last piece was a value. Not the same as
        // finding no text left over: `println()` has none either, and the write
        // it would attach a line ending to belongs to the statement before it.
        let mut value_last: bool = false;
        let count: usize = writes.len();
        let mut k: usize = 0;
        let mut i: usize = 0;
        while i < parts.len()
            invariant
                i <= parts@.len(),
                k <= count == writes@.len(),
                sound(self@),
                self@.limits == limits(cx@),
                follows(start, self@),
                written == write_views(writes@),
                writes_within(writes@, cx@, start),
                parts_from(start, parts@, 0, written, 0, seq![], false) is Some,
                parts_from(self@, parts@, i as int, written, k as int, text@, value_last)
                    == parts_from(start, parts@, 0, written, 0, seq![], false),
            decreases parts@.len() - i,
        {
            match &parts[i] {
                PrintPart::Text(chars) => {
                    push_chars(&mut text, chars);
                    value_last = false;
                },
                _ => {
                    self.flush_text(text);
                    text = String::new();
                    assert(written.len() == writes@.len());
                    proof {
                        reveal(limits);
                    }
                    let write: Write = writes[k];
                    assert(written[k as int] == write_view(write));
                    assert(has(start, writes@[k as int].val));
                    self.emit(Instr::Print { ty: write.ty, val: write.val, newline: false });
                    k = k + 1;
                    value_last = true;
                    assert(text@ == Seq::<char>::empty());
                },
            }
            i = i + 1;
        }
        // Where the last piece written was a value, the line ends with it, so
        // `println(n)` is a single call. Where it was text the newline joins
        // that text.
        if newline && value_last {
            self.end_the_line_written_last();
            return;
        }
        if newline {
            text.push('\n');
        }
        self.flush_text(text);
    }

    /// Evaluate every value part, left to right.
    fn evaluate_parts(&mut self, cx: &Context<'_>, parts: &Vec<PrintPart>) -> (writes: Vec<Write>)
        requires
            sound(old(self)@),
            old(self)@.limits == limits(cx@),
            writes_from(cx@, old(self)@, *parts, 0, seq![]) is Some,
        ensures
            Some((final(self)@, write_views(writes@))) == writes_from(
                cx@,
                old(self)@,
                *parts,
                0,
                seq![],
            ),
            follows(old(self)@, final(self)@),
            writes_within(writes@, cx@, final(self)@),
        decreases *parts, 10int, parts@.len(),
    {
        let ghost start = self@;
        let mut writes: Vec<Write> = Vec::new();
        let mut i: usize = 0;
        assert(write_views(writes@) =~= seq![]);
        while i < parts.len()
            invariant
                i <= parts@.len(),
                sound(self@),
                self@.limits == limits(cx@),
                follows(start, self@),
                writes_within(writes@, cx@, self@),
                writes_from(cx@, start, *parts, 0, seq![]) is Some,
                writes_from(cx@, self@, *parts, i as int, write_views(writes@)) == writes_from(
                    cx@,
                    start,
                    *parts,
                    0,
                    seq![],
                ),
            decreases parts@.len() - i,
        {
            let ghost held = writes@;
            let ghost had = self@;
            match &parts[i] {
                PrintPart::Text(_) => {},
                PrintPart::Value(e) => {
                    let write = self.evaluate_part(cx, e);
                    writes.push(write);
                    assert(write_views(writes@) =~= write_views(held).push(write_view(write)));
                },
                PrintPart::Spec { expr: e } => {
                    let write = self.evaluate_part(cx, e);
                    writes.push(write);
                    assert(write_views(writes@) =~= write_views(held).push(write_view(write)));
                },
            }
            assert forall|j: int| 0 <= j < writes@.len() implies has(
                self@,
                (#[trigger] writes@[j]).val,
            ) && cx@.types.table.knows(writes@[j].ty) by {
                if j < held.len() {
                    assert(has(had, held[j].val));
                }
            }
            i = i + 1;
        }
        writes
    }

    /// Evaluate one value part. What an enum prints is the *name* of its
    /// variant, which the backend looks up by tag, so a boxed one's tag is read
    /// here.
    fn evaluate_part(&mut self, cx: &Context<'_>, e: &Expr) -> (write: Write)
        requires
            sound(old(self)@),
            old(self)@.limits == limits(cx@),
            write_of(cx@, old(self)@, *e) is Some,
        ensures
            Some((final(self)@, write_view(write))) == write_of(cx@, old(self)@, *e),
            follows(old(self)@, final(self)@),
            has(final(self)@, write.val),
            cx@.types.table.knows(write.ty),
        decreases *e, 70int, 0int,
    {
        let ty = cx.types.of(e.id);
        let val = self.expr(cx, e);
        let val = self.tag_of(cx, ty, val);
        Write { ty, val }
    }

    /// Write out the literal text collected so far, if there is any.
    ///
    /// Collected rather than written piece by piece, so that the newline of
    /// `println("done")` joins the word in front of it and the whole line
    /// leaves in one call.
    pub fn flush_text(&mut self, text: String)
        requires
            sound(old(self)@),
            flushed(old(self)@, text@) is Some,
        ensures
            Some(final(self)@) == flushed(old(self)@, text@),
            follows(old(self)@, final(self)@),
    {
        if text.as_str().is_empty() {
            return;
        }
        let id = self.intern_text(text);
        self.emit(Instr::PrintText { id });
    }
}

/// Whether every write names only values that can be read and types there are.
spec fn writes_within(writes: Seq<Write>, cx: ContextView, st: State) -> bool {
    forall|i: int|
        0 <= i < writes.len() ==> has(st, (#[trigger] writes[i]).val)
            && cx.types.table.knows(writes[i].ty)
}

} // verus!
