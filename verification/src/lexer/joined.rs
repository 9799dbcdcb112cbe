//! Two sources joined by a newline say what each of them says.

use vstd::prelude::*;
use vstd::utf8::encode_utf8;

use super::chars::{bytes_before, continues_name, is_digit, is_space, offsets_count_bytes};
use super::chars::{offsets_increase, width};
use super::meaning::{
    character_at, end_of_line, end_token, escape_at, lexed, lexed_from, number_at, past_digits,
    past_name, past_trivia, peeked, resumed, span, string_from, token_at, word_at, Lexed, Scan,
};
use super::scan::{line_advances, token_advances, trivia_advances};
use crate::diag::Span;
use crate::token::TokenView;

verus! {

/// Two sources, one line under the other.
pub open spec fn joined(a: Seq<char>, b: Seq<char>) -> Seq<char> {
    a + seq!['\n'] + b
}

/// A token read so many bytes further on. A string says where its characters stand.
pub open spec fn moved(token: (TokenView, Span), bytes: nat) -> (TokenView, Span) {
    (
        kind_moved(token.0, bytes),
        Span { offset: (token.1.offset + bytes) as usize, len: token.1.len },
    )
}

pub open spec fn kind_moved(kind: TokenView, bytes: nat) -> TokenView {
    match kind {
        TokenView::Str { chars, offsets } => TokenView::Str {
            chars,
            offsets: offsets.map_values(|at: int| at + bytes),
        },
        _ => kind,
    }
}

/// Tokens read so many bytes further on.
pub open spec fn all_moved(tokens: Seq<(TokenView, Span)>, bytes: nat) -> Seq<(TokenView, Span)> {
    tokens.map_values(|token: (TokenView, Span)| moved(token, bytes))
}

/// What was read, so many bytes further on.
spec fn scan_moved(scan: (Scan, int), bytes: nat, by: nat) -> (Scan, int) {
    (
        match scan.0 {
            Ok(kind) => Ok(kind_moved(kind, bytes)),
            Err(error) => Err(error),
        },
        scan.1 + by,
    )
}

// -- a source with a line under it ------------------------------------------

proof fn bytes_of_the_first(a: Seq<char>, b: Seq<char>, p: int)
    requires
        0 <= p <= a.len(),
    ensures
        bytes_before(joined(a, b), p) == bytes_before(a, p),
    decreases p,
{
    if p > 0 {
        bytes_of_the_first(a, b, p - 1);
        assert(joined(a, b)[p - 1] == a[p - 1]);
    }
}

proof fn digits_of_the_first(a: Seq<char>, b: Seq<char>, p: int)
    requires
        0 <= p <= a.len(),
    ensures
        past_digits(joined(a, b), p) == past_digits(a, p),
        p <= past_digits(a, p) <= a.len(),
    decreases a.len() - p,
{
    let t = joined(a, b);
    if p < a.len() {
        assert(t[p] == a[p]);
        if is_digit(a[p]) {
            digits_of_the_first(a, b, p + 1);
        }
    } else {
        assert(t[p] == '\n');
    }
}

proof fn name_of_the_first(a: Seq<char>, b: Seq<char>, p: int)
    requires
        0 <= p <= a.len(),
    ensures
        past_name(joined(a, b), p) == past_name(a, p),
        p <= past_name(a, p) <= a.len(),
    decreases a.len() - p,
{
    let t = joined(a, b);
    if p < a.len() {
        assert(t[p] == a[p]);
        if continues_name(a[p]) {
            name_of_the_first(a, b, p + 1);
        }
    } else {
        assert(t[p] == '\n');
        assert(!continues_name('\n'));
    }
}

proof fn line_of_the_first(a: Seq<char>, b: Seq<char>, p: int)
    requires
        0 <= p <= a.len(),
    ensures
        end_of_line(joined(a, b), p) == end_of_line(a, p),
        p <= end_of_line(a, p) <= a.len(),
    decreases a.len() - p,
{
    let t = joined(a, b);
    if p < a.len() {
        assert(t[p] == a[p]);
        if a[p] != '\n' {
            line_of_the_first(a, b, p + 1);
        }
    } else {
        assert(t[p] == '\n');
    }
}

proof fn trivia_of_the_first(a: Seq<char>, b: Seq<char>, p: int)
    requires
        0 <= p <= a.len(),
    ensures
        p <= past_trivia(a, p) <= a.len(),
        past_trivia(a, p) < a.len() ==> past_trivia(joined(a, b), p) == past_trivia(a, p),
        past_trivia(a, p) == a.len() ==> past_trivia(joined(a, b), p) == past_trivia(
            joined(a, b),
            a.len() as int,
        ),
    decreases a.len() - p,
{
    let t = joined(a, b);
    let n = a.len() as int;
    if p < n {
        assert(t[p] == a[p]);
        if p + 1 < n {
            assert(t[p + 1] == a[p + 1]);
        } else {
            assert(t[p + 1] == '\n');
        }
        if is_space(a[p]) {
            trivia_of_the_first(a, b, p + 1);
        } else if a[p] == '/' && peeked(a, p + 1) == Some('/') {
            line_of_the_first(a, b, p);
            let end = end_of_line(a, p);
            reveal_with_fuel(end_of_line, 2);
            line_of_the_first(a, b, p + 1);
            trivia_of_the_first(a, b, end);
        }
    }
}

proof fn string_of_the_first(
    a: Seq<char>,
    b: Seq<char>,
    open: int,
    p: int,
    chars: Seq<char>,
    offsets: Seq<int>,
)
    requires
        0 <= p <= a.len(),
        string_from(a, open, p, chars, offsets).0 is Ok,
    ensures
        string_from(joined(a, b), open, p, chars, offsets) == string_from(
            a,
            open,
            p,
            chars,
            offsets,
        ),
    decreases a.len() - p,
{
    let t = joined(a, b);
    bytes_of_the_first(a, b, p);
    assert(p < a.len() && a[p] != '\n');
    assert(t[p] == a[p]);
    let at = bytes_before(a, p) as int;
    if a[p] == '"' {
    } else if a[p] == '\\' {
        assert(p + 1 < a.len());
        assert(t[p + 1] == a[p + 1]);
        match escape_at(a, p) {
            (Ok(Some(c)), q) => {
                string_of_the_first(a, b, open, q, chars.push(c), offsets.push(at));
            },
            _ => {},
        }
    } else {
        string_of_the_first(a, b, open, p + 1, chars.push(a[p]), offsets.push(at));
    }
}

proof fn character_of_the_first(a: Seq<char>, b: Seq<char>, p: int)
    requires
        0 <= p < a.len(),
        character_at(a, p).0 is Ok,
    ensures
        character_at(joined(a, b), p) == character_at(a, p),
{
    let t = joined(a, b);
    assert(p + 1 < a.len());
    assert(t[p + 1] == a[p + 1]);
    if a[p + 1] == '\\' {
        assert(p + 2 < a.len());
        assert(t[p + 2] == a[p + 2]);
        assert(p + 3 < a.len());
        assert(t[p + 3] == a[p + 3]);
    } else {
        assert(p + 2 < a.len());
        assert(t[p + 2] == a[p + 2]);
    }
}

proof fn number_of_the_first(a: Seq<char>, b: Seq<char>, p: int)
    requires
        0 <= p < a.len(),
        number_at(a, p).0 is Ok,
    ensures
        number_at(joined(a, b), p) == number_at(a, p),
{
    let t = joined(a, b);
    let n = a.len() as int;
    digits_of_the_first(a, b, p);
    let dot = past_digits(a, p);
    if dot < n {
        assert(t[dot] == a[dot]);
    } else {
        assert(t[dot] == '\n');
    }
    if peeked(a, dot) == Some('.') {
        assert(dot + 1 < n);
        assert(t[dot + 1] == a[dot + 1]);
        digits_of_the_first(a, b, dot + 1);
        let end = past_digits(a, dot + 1);
        name_of_the_first(a, b, end);
        assert(t.subrange(p, dot) =~= a.subrange(p, dot));
        assert(t.subrange(dot + 1, end) =~= a.subrange(dot + 1, end));
    } else {
        name_of_the_first(a, b, dot);
        assert(t.subrange(p, dot) =~= a.subrange(p, dot));
    }
}

proof fn token_of_the_first(a: Seq<char>, b: Seq<char>, p: int)
    requires
        0 <= p < a.len(),
        token_at(a, p).0 is Ok,
    ensures
        token_at(joined(a, b), p) == token_at(a, p),
{
    let t = joined(a, b);
    let c = a[p];
    assert(t[p] == c);
    if p + 1 < a.len() {
        assert(t[p + 1] == a[p + 1]);
    } else {
        assert(t[p + 1] == '\n');
    }
    if c == '"' {
        string_of_the_first(a, b, p, p + 1, seq![], seq![]);
    } else if c == '\'' {
        character_of_the_first(a, b, p);
    } else if is_digit(c) {
        number_of_the_first(a, b, p);
    } else {
        name_of_the_first(a, b, p);
        assert(t.subrange(p, past_name(a, p)) =~= a.subrange(p, past_name(a, p)));
    }
}

/// What is wrong stays wrong.
proof fn errors_stay(s: Seq<char>, p: int, read: Lexed)
    requires
        0 <= p <= s.len(),
    ensures
        lexed_from(s, p, read).errors.len() >= read.errors.len(),
    decreases s.len() - p,
{
    trivia_advances(s, p);
    let start = past_trivia(s, p);
    if start < s.len() {
        token_advances(s, start);
        let (scan, past) = token_at(s, start);
        line_advances(s, past);
        match scan {
            Ok(kind) => {
                errors_stay(
                    s,
                    past,
                    Lexed { tokens: read.tokens.push((kind, span(s, start, past))), ..read },
                );
            },
            Err(error) => {
                errors_stay(
                    s,
                    resumed(s, start, past),
                    Lexed { errors: read.errors.push(error), ..read },
                );
            },
        }
    }
}

/// A source is read as it is on its own, and then what is under it.
proof fn first_is_read(a: Seq<char>, b: Seq<char>, p: int, read: Lexed)
    requires
        0 <= p <= a.len(),
        lexed_from(a, p, read).errors.len() == 0,
    ensures
        lexed_from(joined(a, b), p, read) == lexed_from(
            joined(a, b),
            a.len() as int,
            lexed_from(a, p, read),
        ),
    decreases a.len() - p,
{
    let t = joined(a, b);
    let n = a.len() as int;
    trivia_of_the_first(a, b, p);
    let start = past_trivia(a, p);
    if start < n {
        token_advances(a, start);
        let (scan, past) = token_at(a, start);
        line_advances(a, past);
        match scan {
            Ok(kind) => {
                let more = Lexed {
                    tokens: read.tokens.push((kind, span(a, start, past))),
                    ..read
                };
                token_of_the_first(a, b, start);
                bytes_of_the_first(a, b, start);
                bytes_of_the_first(a, b, past);
                first_is_read(a, b, past, more);
            },
            Err(error) => {
                errors_stay(
                    a,
                    resumed(a, start, past),
                    Lexed { errors: read.errors.push(error), ..read },
                );
            },
        }
    } else {
        same_from_the_same_start(t, p, n, read);
    }
}

/// What is read from two places with nothing but white space between them is the
/// same.
proof fn same_from_the_same_start(s: Seq<char>, p: int, q: int, read: Lexed)
    requires
        0 <= p <= q <= s.len(),
        past_trivia(s, p) == past_trivia(s, q),
    ensures
        lexed_from(s, p, read) == lexed_from(s, q, read),
{
    trivia_advances(s, q);
    let start = past_trivia(s, q);
    if start < s.len() {
        token_advances(s, start);
        line_advances(s, token_at(s, start).1);
    }
}

// -- a source further down --------------------------------------------------

proof fn bytes_of_the_second(a: Seq<char>, b: Seq<char>, p: int)
    requires
        0 <= p <= b.len(),
    ensures
        bytes_before(joined(a, b), a.len() + 1 + p) == bytes_before(a, a.len() as int) + 1
            + bytes_before(b, p),
    decreases p,
{
    let t = joined(a, b);
    let k = a.len() + 1;
    if p > 0 {
        bytes_of_the_second(a, b, p - 1);
        assert(t[k + p - 1] == b[p - 1]);
    } else {
        bytes_of_the_first(a, b, a.len() as int);
        assert(t[k - 1] == '\n');
        assert(width('\n') == 1);
    }
}

proof fn digits_of_the_second(a: Seq<char>, b: Seq<char>, p: int)
    requires
        0 <= p <= b.len(),
    ensures
        past_digits(joined(a, b), a.len() + 1 + p) == a.len() + 1 + past_digits(b, p),
        p <= past_digits(b, p) <= b.len(),
    decreases b.len() - p,
{
    if p < b.len() {
        assert(joined(a, b)[a.len() + 1 + p] == b[p]);
        if is_digit(b[p]) {
            digits_of_the_second(a, b, p + 1);
        }
    }
}

proof fn name_of_the_second(a: Seq<char>, b: Seq<char>, p: int)
    requires
        0 <= p <= b.len(),
    ensures
        past_name(joined(a, b), a.len() + 1 + p) == a.len() + 1 + past_name(b, p),
        p <= past_name(b, p) <= b.len(),
    decreases b.len() - p,
{
    if p < b.len() {
        assert(joined(a, b)[a.len() + 1 + p] == b[p]);
        if continues_name(b[p]) {
            name_of_the_second(a, b, p + 1);
        }
    }
}

proof fn line_of_the_second(a: Seq<char>, b: Seq<char>, p: int)
    requires
        0 <= p <= b.len(),
    ensures
        end_of_line(joined(a, b), a.len() + 1 + p) == a.len() + 1 + end_of_line(b, p),
        p <= end_of_line(b, p) <= b.len(),
    decreases b.len() - p,
{
    if p < b.len() {
        assert(joined(a, b)[a.len() + 1 + p] == b[p]);
        if b[p] != '\n' {
            line_of_the_second(a, b, p + 1);
        }
    }
}

proof fn trivia_of_the_second(a: Seq<char>, b: Seq<char>, p: int)
    requires
        0 <= p <= b.len(),
    ensures
        past_trivia(joined(a, b), a.len() + 1 + p) == a.len() + 1 + past_trivia(b, p),
        p <= past_trivia(b, p) <= b.len(),
    decreases b.len() - p,
{
    let t = joined(a, b);
    let k = a.len() + 1;
    if p < b.len() {
        assert(t[k + p] == b[p]);
        if p + 1 < b.len() {
            assert(t[k + p + 1] == b[p + 1]);
        }
        assert(peeked(t, k + p + 1) == peeked(b, p + 1));
        if is_space(b[p]) {
            trivia_of_the_second(a, b, p + 1);
        } else if b[p] == '/' && peeked(b, p + 1) == Some('/') {
            line_of_the_second(a, b, p);
            line_of_the_second(a, b, p + 1);
            trivia_of_the_second(a, b, end_of_line(b, p));
        }
    }
}

proof fn string_of_the_second(
    a: Seq<char>,
    b: Seq<char>,
    open: int,
    p: int,
    chars: Seq<char>,
    offsets: Seq<int>,
)
    requires
        0 <= p <= b.len(),
        string_from(b, open, p, chars, offsets).0 is Ok,
    ensures
        ({
            let bytes = bytes_before(a, a.len() as int) + 1;
            string_from(
                joined(a, b),
                a.len() + 1 + open,
                a.len() + 1 + p,
                chars,
                offsets.map_values(|at: int| at + bytes),
            ) == scan_moved(
                string_from(b, open, p, chars, offsets),
                bytes,
                a.len() + 1,
            )
        }),
    decreases b.len() - p,
{
    let t = joined(a, b);
    let k = a.len() + 1;
    let bytes = bytes_before(a, a.len() as int) + 1;
    bytes_of_the_second(a, b, p);
    assert(p < b.len() && b[p] != '\n');
    assert(t[k + p] == b[p]);
    let at = bytes_before(b, p) as int;
    let shifted = offsets.map_values(|at: int| at + bytes);
    let longer = offsets.push(at);
    assert(longer.map_values(|at: int| at + bytes) =~= shifted.push(at + bytes));
    assert(bytes_before(t, k + p) == at + bytes);
    if b[p] == '"' {
    } else if b[p] == '\\' {
        assert(p + 1 < b.len());
        assert(t[k + p + 1] == b[p + 1]);
        match escape_at(b, p) {
            (Ok(Some(c)), q) => {
                string_of_the_second(a, b, open, q, chars.push(c), longer);
            },
            _ => {},
        }
    } else {
        string_of_the_second(a, b, open, p + 1, chars.push(b[p]), longer);
    }
}

proof fn character_of_the_second(a: Seq<char>, b: Seq<char>, p: int)
    requires
        0 <= p < b.len(),
        character_at(b, p).0 is Ok,
    ensures
        character_at(joined(a, b), a.len() + 1 + p).0 == character_at(b, p).0,
        character_at(b, p).0->Ok_0 is Char,
        character_at(joined(a, b), a.len() + 1 + p).1 == a.len() + 1 + character_at(b, p).1,
{
    let t = joined(a, b);
    let k = a.len() + 1;
    assert(p + 1 < b.len());
    assert(t[k + p + 1] == b[p + 1]);
    if b[p + 1] == '\\' {
        assert(p + 2 < b.len());
        assert(t[k + p + 2] == b[p + 2]);
        assert(p + 3 < b.len());
        assert(t[k + p + 3] == b[p + 3]);
    } else {
        assert(p + 2 < b.len());
        assert(t[k + p + 2] == b[p + 2]);
    }
}

proof fn number_of_the_second(a: Seq<char>, b: Seq<char>, p: int)
    requires
        0 <= p < b.len(),
        number_at(b, p).0 is Ok,
    ensures
        number_at(joined(a, b), a.len() + 1 + p).0 == number_at(b, p).0,
        !(number_at(b, p).0->Ok_0 is Str),
        number_at(joined(a, b), a.len() + 1 + p).1 == a.len() + 1 + number_at(b, p).1,
{
    let t = joined(a, b);
    let k = a.len() + 1;
    digits_of_the_second(a, b, p);
    let dot = past_digits(b, p);
    if dot < b.len() {
        assert(t[k + dot] == b[dot]);
    }
    assert(peeked(t, k + dot) == peeked(b, dot));
    if peeked(b, dot) == Some('.') {
        assert(dot + 1 < b.len());
        assert(t[k + dot + 1] == b[dot + 1]);
        digits_of_the_second(a, b, dot + 1);
        let end = past_digits(b, dot + 1);
        name_of_the_second(a, b, end);
        assert(t.subrange(k + p, k + dot) =~= b.subrange(p, dot));
        assert(t.subrange(k + dot + 1, k + end) =~= b.subrange(dot + 1, end));
    } else {
        name_of_the_second(a, b, dot);
        assert(t.subrange(k + p, k + dot) =~= b.subrange(p, dot));
    }
}

proof fn word_of_the_second(a: Seq<char>, b: Seq<char>, p: int)
    requires
        0 <= p < b.len(),
    ensures
        word_at(joined(a, b), a.len() + 1 + p).0 == word_at(b, p).0,
        word_at(joined(a, b), a.len() + 1 + p).1 == a.len() + 1 + word_at(b, p).1,
        !(word_at(b, p).0->Ok_0 is Str),
{
    let t = joined(a, b);
    let k = a.len() + 1;
    name_of_the_second(a, b, p);
    assert(t.subrange(k + p, k + past_name(b, p)) =~= b.subrange(p, past_name(b, p)));
}

proof fn token_of_the_second(a: Seq<char>, b: Seq<char>, p: int)
    requires
        0 <= p < b.len(),
        token_at(b, p).0 is Ok,
    ensures
        token_at(joined(a, b), a.len() + 1 + p) == scan_moved(
            token_at(b, p),
            bytes_before(a, a.len() as int) + 1,
            a.len() + 1,
        ),
{
    let t = joined(a, b);
    let k = a.len() + 1;
    let c = b[p];
    assert(t[k + p] == c);
    if p + 1 < b.len() {
        assert(t[k + p + 1] == b[p + 1]);
    }
    assert(peeked(t, k + p + 1) == peeked(b, p + 1));
    if c == '"' {
        let bytes = bytes_before(a, a.len() as int) + 1;
        assert(Seq::<int>::empty().map_values(|at: int| at + bytes) =~= seq![]);
        string_of_the_second(a, b, p, p + 1, seq![], seq![]);
    } else if c == '\'' {
        character_of_the_second(a, b, p);
    } else if is_digit(c) {
        number_of_the_second(a, b, p);
    } else {
        word_of_the_second(a, b, p);
    }
}

/// A source is read further down as it is on its own, but for where it stands.
proof fn second_is_read(a: Seq<char>, b: Seq<char>, p: int, before: Lexed, read: Lexed)
    requires
        0 <= p <= b.len(),
        lexed_from(b, p, read).errors.len() == 0,
        before.errors.len() == 0,
        bytes_before(joined(a, b), joined(a, b).len() as int) <= isize::MAX,
    ensures
        ({
            let bytes = bytes_before(a, a.len() as int) + 1;
            lexed_from(
                joined(a, b),
                a.len() + 1 + p,
                Lexed { tokens: before.tokens + all_moved(read.tokens, bytes), ..before },
            ) == (Lexed {
                tokens: before.tokens + all_moved(lexed_from(b, p, read).tokens, bytes),
                ..before
            })
        }),
    decreases b.len() - p,
{
    let t = joined(a, b);
    let k = a.len() + 1;
    let bytes = bytes_before(a, a.len() as int) + 1;
    trivia_of_the_second(a, b, p);
    let start = past_trivia(b, p);
    if start < b.len() {
        token_advances(b, start);
        let (scan, past) = token_at(b, start);
        line_advances(b, past);
        match scan {
            Ok(kind) => {
                let token = (kind, span(b, start, past));
                let more = Lexed { tokens: read.tokens.push(token), ..read };
                token_of_the_second(a, b, start);
                bytes_of_the_second(a, b, start);
                bytes_of_the_second(a, b, past);
                offsets_increase(b, start, past);
                offsets_increase(t, k + past, t.len() as int);
                assert(moved(token, bytes) == (
                    kind_moved(kind, bytes),
                    span(t, k + start, k + past),
                ));
                assert(before.tokens + all_moved(more.tokens, bytes) =~= (before.tokens
                    + all_moved(read.tokens, bytes)).push(moved(token, bytes)));
                second_is_read(a, b, past, before, more);
            },
            Err(error) => {
                errors_stay(
                    b,
                    resumed(b, start, past),
                    Lexed { errors: read.errors.push(error), ..read },
                );
            },
        }
    } else {
        assert(lexed_from(b, p, read) == read);
    }
}

/// **Two sources joined by a newline say what each of them says**: first the tokens
/// of the one, and then those of the other, as many bytes further on as the one and
/// its newline take. A name, a number or a comment that the first ends with ends
/// there.
pub proof fn joining_reads_both(a: Seq<char>, b: Seq<char>)
    requires
        encode_utf8(joined(a, b)).len() <= isize::MAX,
        lexed(a).errors.len() == 0,
        lexed(b).errors.len() == 0,
    ensures
        lexed(joined(a, b)).errors.len() == 0,
        lexed(joined(a, b)).tokens == lexed(a).tokens + all_moved(
            lexed(b).tokens,
            encode_utf8(a).len() + 1,
        ),
        end_token(joined(a, b)) == moved(end_token(b), encode_utf8(a).len() + 1),
{
    let t = joined(a, b);
    let n = a.len() as int;
    let none = Lexed { tokens: seq![], errors: seq![] };
    offsets_count_bytes(t);
    offsets_count_bytes(a);
    let bytes = bytes_before(a, n) + 1;
    first_is_read(a, b, 0, none);
    let first = lexed(a);
    assert(t[n] == '\n');
    assert(is_space('\n'));
    same_from_the_same_start(t, n, n + 1, first);
    assert(first.tokens + all_moved(none.tokens, bytes) =~= first.tokens);
    assert(first.errors =~= seq![]);
    second_is_read(a, b, 0, first, none);
    bytes_of_the_second(a, b, b.len() as int);
    assert(t.len() == n + 1 + b.len());
}

} // verus!
