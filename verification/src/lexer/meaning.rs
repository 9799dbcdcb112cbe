//! What a source says, token by token.
//!
//! Every function here is about the characters of the whole source and a place
//! among them, counted in characters. Spans are in bytes.

use vstd::prelude::*;

use super::chars::{bytes_before, continues_name, is_digit, is_space, starts_name};
use crate::diag::{DiagnosticView, Span};
use crate::float::{literal, number, INFINITY};
use crate::token::TokenView;
use crate::vocabulary::keyword_of;

verus! {

/// A token, or what was wrong with it.
pub type Scan = Result<TokenView, DiagnosticView>;

/// The bytes of the characters from `p` up to `q`.
pub open spec fn span(s: Seq<char>, p: int, q: int) -> Span {
    Span {
        offset: bytes_before(s, p) as usize,
        len: (bytes_before(s, q) - bytes_before(s, p)) as usize,
    }
}

/// One byte, at the character `p`.
pub open spec fn caret(s: Seq<char>, p: int) -> Span {
    Span { offset: bytes_before(s, p) as usize, len: 1 }
}

/// The character at `p`, where the source has not ended.
pub open spec fn peeked(s: Seq<char>, p: int) -> Option<char> {
    if 0 <= p < s.len() {
        Some(s[p])
    } else {
        None
    }
}

/// Past a run of digits.
pub open spec fn past_digits(s: Seq<char>, p: int) -> int
    decreases s.len() - p,
{
    if 0 <= p < s.len() && is_digit(s[p]) {
        past_digits(s, p + 1)
    } else {
        p
    }
}

/// Past a run of characters that a name may hold.
pub open spec fn past_name(s: Seq<char>, p: int) -> int
    decreases s.len() - p,
{
    if 0 <= p < s.len() && continues_name(s[p]) {
        past_name(s, p + 1)
    } else {
        p
    }
}

/// The end of the line, which is where its newline stands.
pub open spec fn end_of_line(s: Seq<char>, p: int) -> int
    decreases s.len() - p,
{
    if 0 <= p < s.len() && s[p] != '\n' {
        end_of_line(s, p + 1)
    } else {
        p
    }
}

/// Past white space and comments.
pub open spec fn past_trivia(s: Seq<char>, p: int) -> int
    decreases s.len() - p,
{
    if !(0 <= p < s.len()) {
        p
    } else if is_space(s[p]) {
        past_trivia(s, p + 1)
    } else if s[p] == '/' && peeked(s, p + 1) == Some('/') {
        let end = end_of_line(s, p);
        // A comment is two characters or more.
        if p < end <= s.len() {
            past_trivia(s, end)
        } else {
            p
        }
    } else {
        p
    }
}

// -- operators ---------------------------------------------------------------

/// `both` where `second` follows the character at `p`, else `first`.
pub open spec fn one_or_two(
    s: Seq<char>,
    p: int,
    second: char,
    both: Seq<char>,
    first: Seq<char>,
) -> (Scan, int) {
    if peeked(s, p + 1) == Some(second) {
        (Ok(TokenView::Fixed(both)), p + 2)
    } else {
        (Ok(TokenView::Fixed(first)), p + 1)
    }
}

pub open spec fn unexpected(s: Seq<char>, p: int) -> DiagnosticView {
    DiagnosticView::plain("unexpected character `"@.push(s[p]).push('`'), span(s, p, p + 1))
}

/// `both` where the character at `p` is doubled; on its own it is nothing.
pub open spec fn only_doubled(s: Seq<char>, p: int, both: Seq<char>) -> (Scan, int) {
    if peeked(s, p + 1) == Some(s[p]) {
        (Ok(TokenView::Fixed(both)), p + 2)
    } else {
        (
            Err(unexpected(s, p).labelled("did you mean `"@ + both + "`?"@)),
            p + 1,
        )
    }
}

// -- numbers -----------------------------------------------------------------

/// What each of a run of digits is worth.
pub open spec fn digit_values(t: Seq<char>) -> Seq<u8> {
    t.map_values(|c: char| (c as u32 - 48) as u8)
}

/// What a literal is called.
pub open spec fn noun(fractional: bool) -> Seq<char> {
    if fractional {
        "floating-point"@
    } else {
        "integer"@
    }
}

/// What a literal may hold.
pub open spec fn contents(fractional: bool) -> Seq<char> {
    if fractional {
        "digits and one `.`"@
    } else {
        "digits"@
    }
}

/// The whole number written from `p` up to `end`.
pub open spec fn whole_number(s: Seq<char>, p: int, end: int) -> Scan {
    let n = number(digit_values(s.subrange(p, end)));
    if n <= i64::MAX {
        Ok(TokenView::Int(n as int))
    } else {
        Err(
            DiagnosticView::plain("integer literal is too large"@, span(s, p, end)).labelled(
                "`int` values must fit in -9223372036854775808..=9223372036854775807"@,
            ),
        )
    }
}

/// The number written from `p` up to `end` with its point at `dot`.
pub open spec fn fractional_number(s: Seq<char>, p: int, dot: int, end: int) -> Scan {
    let digits = digit_values(s.subrange(p, dot)) + digit_values(s.subrange(dot + 1, end));
    let bits = literal(digits, (end - dot - 1) as nat);
    if bits < INFINITY {
        Ok(TokenView::Float(bits))
    } else {
        Err(
            DiagnosticView::plain("floating-point literal is too large"@, span(s, p, end)).labelled(
                "`float` values must fit in ±1.7976931348623157e308"@,
            ),
        )
    }
}

/// A number, which is an `int` unless a `.` with a digit behind it makes it a
/// `float`.
pub open spec fn number_at(s: Seq<char>, p: int) -> (Scan, int) {
    let dot = past_digits(s, p);
    let fractional = peeked(s, dot) == Some('.');
    let bare = fractional && match peeked(s, dot + 1) {
        Some(c) => !is_digit(c),
        None => true,
    };
    let end = if fractional {
        past_digits(s, dot + 1)
    } else {
        dot
    };
    let past = past_name(s, end);
    if bare {
        (
            Err(
                DiagnosticView::plain(
                    "a floating-point literal needs a digit after the `.`"@,
                    span(s, p, dot + 1),
                ).labelled("`1.0` rather than `1.`"@),
            ),
            dot + 1,
        )
    } else if past > end {
        (
            Err(
                DiagnosticView::plain(
                    "invalid suffix on "@ + noun(fractional) + " literal"@,
                    span(s, p, past),
                ).labelled(noun(fractional) + " literals may only contain "@ + contents(fractional)),
            ),
            past,
        )
    } else if fractional {
        (fractional_number(s, p, dot, end), end)
    } else {
        (whole_number(s, p, end), end)
    }
}

// -- text --------------------------------------------------------------------

/// What an escaped character stands for.
pub open spec fn unescaped(c: char) -> Option<char> {
    if c == 'n' {
        Some('\n')
    } else if c == 't' {
        Some('\t')
    } else if c == 'r' {
        Some('\r')
    } else if c == '0' {
        Some('\0')
    } else if c == '\\' || c == '"' || c == '\'' {
        Some(c)
    } else {
        None
    }
}

/// One escape sequence, its backslash at `p`. `None` means that the source
/// ended inside it.
pub open spec fn escape_at(s: Seq<char>, p: int) -> (Result<Option<char>, DiagnosticView>, int) {
    match peeked(s, p + 1) {
        None => (Ok(None), p + 1),
        Some(c) => match unescaped(c) {
            Some(value) => (Ok(Some(value)), p + 2),
            None => (
                Err(
                    DiagnosticView::plain(
                        "unknown escape sequence `\\"@.push(c).push('`'),
                        span(s, p, p + 2),
                    ).noted("supported escapes are \\n \\t \\r \\0 \\\\ \\\" \\'"@),
                ),
                p + 2,
            ),
        },
    }
}

pub open spec fn unterminated_string(s: Seq<char>, open: int) -> DiagnosticView {
    DiagnosticView::plain("unterminated string literal"@, caret(s, open)).labelled(
        "this quote has no match on the same line"@,
    )
}

/// The rest of a string literal from `p` on, `chars` and `offsets` having been
/// read already.
pub open spec fn string_from(
    s: Seq<char>,
    open: int,
    p: int,
    chars: Seq<char>,
    offsets: Seq<int>,
) -> (Scan, int)
    decreases s.len() - p,
{
    let at = bytes_before(s, p) as int;
    if !(0 <= p < s.len()) || s[p] == '\n' {
        (Err(unterminated_string(s, open)), p)
    } else if s[p] == '"' {
        (Ok(TokenView::Str { chars, offsets: offsets.push(at) }), p + 1)
    } else if s[p] == '\\' {
        match escape_at(s, p) {
            (Ok(Some(c)), q) => if q > p {
                string_from(s, open, q, chars.push(c), offsets.push(at))
            } else {
                (Err(unterminated_string(s, open)), q)
            },
            (Ok(None), q) => (Err(unterminated_string(s, open)), q),
            (Err(error), q) => (Err(error), q),
        }
    } else {
        string_from(s, open, p + 1, chars.push(s[p]), offsets.push(at))
    }
}

pub open spec fn string_at(s: Seq<char>, p: int) -> (Scan, int) {
    string_from(s, p, p + 1, seq![], seq![])
}

pub open spec fn unterminated_character(s: Seq<char>, open: int) -> DiagnosticView {
    DiagnosticView::plain("unterminated character literal"@, caret(s, open)).labelled(
        "this quote has no match on the same line"@,
    ).noted("a character literal is written `'a'`"@)
}

/// The next single quote or the end of the line, whichever is first.
pub open spec fn quote_or_end(s: Seq<char>, p: int) -> int
    decreases s.len() - p,
{
    if 0 <= p < s.len() && s[p] != '\n' && s[p] != '\'' {
        quote_or_end(s, p + 1)
    } else {
        p
    }
}

/// The rest of a character literal, its one character read and `p` past it.
pub open spec fn character_from(s: Seq<char>, open: int, p: int, value: char) -> (Scan, int) {
    let end = quote_or_end(s, p);
    if peeked(s, p) == Some('\'') {
        (Ok(TokenView::Char(value)), p + 1)
    } else if peeked(s, end) == Some('\'') {
        (
            Err(
                DiagnosticView::plain(
                    "character literal holds more than one character"@,
                    span(s, open, end + 1),
                ).labelled("a character literal holds exactly one character"@).noted(
                    "write it with double quotes for a string"@,
                ),
            ),
            end + 1,
        )
    } else {
        (Err(unterminated_character(s, open)), end)
    }
}

/// A character literal: exactly one character between single quotes.
pub open spec fn character_at(s: Seq<char>, p: int) -> (Scan, int) {
    match peeked(s, p + 1) {
        None => (Err(unterminated_character(s, p)), p + 1),
        Some(c) => if c == '\'' {
            (
                Err(
                    DiagnosticView::plain("empty character literal"@, span(s, p, p + 2)).labelled(
                        "a character literal holds exactly one character"@,
                    ).noted("the empty *string* is written `\"\"`"@),
                ),
                p + 2,
            )
        } else if c == '\n' {
            (Err(unterminated_character(s, p)), p + 1)
        } else if c == '\\' {
            match escape_at(s, p + 1) {
                (Ok(Some(value)), q) => character_from(s, p, q, value),
                (Ok(None), q) => (Err(unterminated_character(s, p)), q),
                (Err(error), q) => (Err(error), q),
            }
        } else {
            character_from(s, p, p + 2, c)
        },
    }
}

/// A name or a word of the language.
pub open spec fn word_at(s: Seq<char>, p: int) -> (Scan, int) {
    let end = past_name(s, p);
    let word = s.subrange(p, end);
    (
        Ok(
            match keyword_of(word) {
                Some(kind) => kind,
                None => TokenView::Ident(word),
            },
        ),
        end,
    )
}

// -- tokens ------------------------------------------------------------------

/// Whether a character is a token whatever follows it.
pub open spec fn stands_alone(c: char) -> bool {
    ||| c == '(' || c == ')' || c == '{' || c == '}' || c == '[' || c == ']'
    ||| c == ';' || c == '.' || c == ',' || c == '+' || c == '*' || c == '/' || c == '%'
}

/// The token at `p`, and the place past it.
pub open spec fn token_at(s: Seq<char>, p: int) -> (Scan, int) {
    let c = s[p];
    if stands_alone(c) {
        (Ok(TokenView::Fixed(seq![c])), p + 1)
    } else if c == '=' {
        if peeked(s, p + 1) == Some('>') {
            (Ok(TokenView::Fixed("=>"@)), p + 2)
        } else {
            one_or_two(s, p, '=', "=="@, "="@)
        }
    } else if c == ':' {
        one_or_two(s, p, ':', "::"@, ":"@)
    } else if c == '<' {
        one_or_two(s, p, '=', "<="@, "<"@)
    } else if c == '>' {
        one_or_two(s, p, '=', ">="@, ">"@)
    } else if c == '!' {
        one_or_two(s, p, '=', "!="@, "!"@)
    } else if c == '-' {
        one_or_two(s, p, '>', "->"@, "-"@)
    } else if c == '&' {
        only_doubled(s, p, "&&"@)
    } else if c == '|' {
        only_doubled(s, p, "||"@)
    } else if c == '"' {
        string_at(s, p)
    } else if c == '\'' {
        character_at(s, p)
    } else if is_digit(c) {
        number_at(s, p)
    } else if starts_name(c) {
        word_at(s, p)
    } else {
        (Err(unexpected(s, p)), p + 1)
    }
}

/// Where to start again after a mistake that was read from `p` up to `q`. A
/// stray character costs the character; anything longer costs its line.
pub open spec fn resumed(s: Seq<char>, p: int, q: int) -> int {
    if q - p > 1 {
        end_of_line(s, q)
    } else {
        q
    }
}

/// What has been read of a source.
#[verifier::ext_equal]
pub struct Lexed {
    pub tokens: Seq<(TokenView, Span)>,
    pub errors: Seq<DiagnosticView>,
}

/// Everything the source says from `p` on, after what was `read` before it.
pub open spec fn lexed_from(s: Seq<char>, p: int, read: Lexed) -> Lexed
    decreases s.len() - p,
{
    let start = past_trivia(s, p);
    let (scan, past) = token_at(s, start);
    let next = match scan {
        Ok(_) => past,
        Err(_) => resumed(s, start, past),
    };
    if !(0 <= start < s.len()) || !(p < next <= s.len()) {
        read
    } else {
        lexed_from(
            s,
            next,
            match scan {
                Ok(kind) => Lexed {
                    tokens: read.tokens.push((kind, span(s, start, past))),
                    ..read
                },
                Err(error) => Lexed { errors: read.errors.push(error), ..read },
            },
        )
    }
}

/// Everything a source says.
pub open spec fn lexed(s: Seq<char>) -> Lexed {
    lexed_from(s, 0, Lexed { tokens: seq![], errors: seq![] })
}

/// The token past the last byte.
pub open spec fn end_token(s: Seq<char>) -> (TokenView, Span) {
    (TokenView::Eof, Span { offset: bytes_before(s, s.len() as int) as usize, len: 0 })
}

} // verus!
