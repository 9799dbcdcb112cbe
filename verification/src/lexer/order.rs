//! The order of what the lexer reads.

use vstd::prelude::*;
use vstd::utf8::encode_utf8;

use super::chars::{bytes_before, offsets_count_bytes, offsets_increase};
use super::meaning::{lexed, lexed_from, past_trivia, resumed, span, token_at, Lexed};
use super::scan::{line_advances, token_advances, trivia_advances};
use crate::diag::{DiagnosticView, Span};
use crate::token::TokenView;

verus! {

/// Whether every token takes a byte or more, none reaches into the next, and the
/// last ends by `end`.
pub open spec fn tokens_in_order(tokens: Seq<(TokenView, Span)>, end: int) -> bool {
    &&& forall|i: int|
        0 <= i < tokens.len() ==> (#[trigger] tokens[i]).1.len > 0 && tokens[i].1.offset
            + tokens[i].1.len <= end
    &&& forall|i: int, j: int|
        0 <= i < j < tokens.len() ==> (#[trigger] tokens[i]).1.offset + tokens[i].1.len <= (
        #[trigger] tokens[j]).1.offset
}

/// Whether every message points past the one before it, and the last before
/// `end`.
pub open spec fn errors_in_order(errors: Seq<DiagnosticView>, end: int) -> bool {
    &&& forall|i: int| 0 <= i < errors.len() ==> (#[trigger] errors[i]).span.offset < end
    &&& forall|i: int, j: int|
        0 <= i < j < errors.len() ==> (#[trigger] errors[i]).span.offset < (
        #[trigger] errors[j]).span.offset
}

proof fn order_from(s: Seq<char>, p: int, read: Lexed)
    requires
        0 <= p <= s.len(),
        bytes_before(s, s.len() as int) <= isize::MAX,
        tokens_in_order(read.tokens, bytes_before(s, p) as int),
        errors_in_order(read.errors, bytes_before(s, p) as int),
    ensures
        tokens_in_order(lexed_from(s, p, read).tokens, bytes_before(s, s.len() as int) as int),
        errors_in_order(lexed_from(s, p, read).errors, bytes_before(s, s.len() as int) as int),
    decreases s.len() - p,
{
    trivia_advances(s, p);
    let start = past_trivia(s, p);
    offsets_increase(s, p, start);
    offsets_increase(s, p, s.len() as int);
    if start < s.len() {
        token_advances(s, start);
        let (scan, past) = token_at(s, start);
        line_advances(s, past);
        let next = match scan {
            Ok(_) => past,
            Err(_) => resumed(s, start, past),
        };
        offsets_increase(s, start, past);
        offsets_increase(s, past, next);
        offsets_increase(s, next, s.len() as int);
        match scan {
            Ok(kind) => {
                let longer = Lexed {
                    tokens: read.tokens.push((kind, span(s, start, past))),
                    ..read
                };
                order_from(s, next, longer);
            },
            Err(error) => {
                let at = choose|at: int|
                    start <= at < past && error.span.offset == #[trigger] bytes_before(
                        s,
                        at,
                    ) as usize;
                offsets_increase(s, start, at);
                offsets_increase(s, at, past);
                let longer = Lexed { errors: read.errors.push(error), ..read };
                order_from(s, next, longer);
            },
        }
    }
}

/// Tokens come in the order they were written in, each in bytes of its own, and
/// so do the messages: no mistake is reported twice, or before an earlier one.
pub proof fn reads_in_source_order(s: Seq<char>)
    requires
        encode_utf8(s).len() <= isize::MAX,
    ensures
        tokens_in_order(lexed(s).tokens, encode_utf8(s).len() as int),
        errors_in_order(lexed(s).errors, encode_utf8(s).len() as int),
{
    offsets_count_bytes(s);
    order_from(s, 0, Lexed { tokens: seq![], errors: seq![] });
}

} // verus!
