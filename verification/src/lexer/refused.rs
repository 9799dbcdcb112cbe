//! What is said of a source that is no sequence of tokens.

use vstd::prelude::*;

use super::chars::{bytes_before, is_digit};
use super::meaning::{
    character_at, character_from, digit_values, escape_at, fractional_number, number_at,
    only_doubled, past_digits, past_name, quote_or_end, span, string_from, whole_number,
};
use crate::diag::{DiagnosticView, Span};
use crate::float::number;

verus! {

/// A refusal with everything it says.
pub open spec fn says_no(
    message: Seq<char>,
    at: Span,
    label: Option<Seq<char>>,
    note: Option<Seq<char>>,
) -> DiagnosticView {
    DiagnosticView {
        message,
        span: at,
        label,
        note: match note {
            Some(text) => Some((text, None)),
            None => None,
        },
    }
}

/// **A number that does not fit is refused as a whole**, and so is one with letters behind
/// it or with nothing behind its point; each says why.
pub proof fn numbers_are_refused(s: Seq<char>, p: int, end: int)
    ensures
        number(digit_values(s.subrange(p, end))) > i64::MAX ==> whole_number(s, p, end) == Err::<
            crate::token::TokenView,
            DiagnosticView,
        >(
            says_no(
                "integer literal is too large"@,
                span(s, p, end),
                Some("`int` values must fit in -9223372036854775808..=9223372036854775807"@),
                None,
            ),
        ),
        forall|dot: int|
            (#[trigger] fractional_number(s, p, dot, end)) matches Err(error) ==> error == says_no(
                "floating-point literal is too large"@,
                span(s, p, end),
                Some("`float` values must fit in ±1.7976931348623157e308"@),
                None,
            ),
        ({
            let dot = past_digits(s, p);
            let point = 0 <= dot < s.len() && s[dot] == '.';
            let more = 0 <= dot + 1 < s.len() && is_digit(s[dot + 1]);
            &&& point && !more ==> number_at(s, p) == (
                Err::<crate::token::TokenView, DiagnosticView>(
                    says_no(
                        "a floating-point literal needs a digit after the `.`"@,
                        span(s, p, dot + 1),
                        Some("`1.0` rather than `1.`"@),
                        None,
                    ),
                ),
                dot + 1,
            )
            &&& !point && past_name(s, dot) > dot ==> number_at(s, p) == (
                Err::<crate::token::TokenView, DiagnosticView>(
                    says_no(
                        "invalid suffix on integer literal"@,
                        span(s, p, past_name(s, dot)),
                        Some("integer literals may only contain digits"@),
                        None,
                    ),
                ),
                past_name(s, dot),
            )
            &&& point && more && past_name(s, past_digits(s, dot + 1)) > past_digits(s, dot + 1)
                ==> number_at(s, p) == (
                Err::<crate::token::TokenView, DiagnosticView>(
                    says_no(
                        "invalid suffix on floating-point literal"@,
                        span(s, p, past_name(s, past_digits(s, dot + 1))),
                        Some("floating-point literals may only contain digits and one `.`"@),
                        None,
                    ),
                ),
                past_name(s, past_digits(s, dot + 1)),
            )
        }),
{
    reveal_strlit("invalid suffix on ");
    reveal_strlit("integer");
    reveal_strlit("floating-point");
    reveal_strlit(" literal");
    reveal_strlit("invalid suffix on integer literal");
    reveal_strlit("invalid suffix on floating-point literal");
    reveal_strlit(" literals may only contain ");
    reveal_strlit("digits");
    reveal_strlit("digits and one `.`");
    reveal_strlit("integer literals may only contain digits");
    reveal_strlit("floating-point literals may only contain digits and one `.`");
    assert("invalid suffix on "@ + "integer"@ + " literal"@
        =~= "invalid suffix on integer literal"@);
    assert("invalid suffix on "@ + "floating-point"@ + " literal"@
        =~= "invalid suffix on floating-point literal"@);
    assert("integer"@ + " literals may only contain "@ + "digits"@
        =~= "integer literals may only contain digits"@);
    assert("floating-point"@ + " literals may only contain "@ + "digits and one `.`"@
        =~= "floating-point literals may only contain digits and one `.`"@);
}

/// **A character that starts nothing is refused by itself.** One that only means something
/// doubled is refused with what was probably meant.
pub proof fn lone_characters_are_refused(s: Seq<char>, p: int, both: Seq<char>)
    requires
        0 <= p < s.len(),
        !(p + 1 < s.len() && s[p + 1] == s[p]),
    ensures
        only_doubled(s, p, both) == (
            Err::<crate::token::TokenView, DiagnosticView>(
                says_no(
                    "unexpected character `"@ + seq![s[p]] + "`"@,
                    span(s, p, p + 1),
                    Some("did you mean `"@ + both + "`?"@),
                    None,
                ),
            ),
            p + 1,
        ),
{
    reveal_strlit("`");
    assert("unexpected character `"@.push(s[p]).push('`') =~= "unexpected character `"@ + seq![
        s[p],
    ] + "`"@);
}

/// **An escape that is none is refused with its two characters.**
pub proof fn unknown_escapes_are_refused(s: Seq<char>, p: int)
    requires
        0 <= p,
        p + 1 < s.len(),
        s[p + 1] != 'n' && s[p + 1] != 't' && s[p + 1] != 'r' && s[p + 1] != '0' && s[p + 1]
            != '\\' && s[p + 1] != '"' && s[p + 1] != '\'',
    ensures
        escape_at(s, p) == (
            Err::<Option<char>, DiagnosticView>(
                says_no(
                    "unknown escape sequence `\\"@ + seq![s[p + 1]] + "`"@,
                    span(s, p, p + 2),
                    None,
                    Some("supported escapes are \\n \\t \\r \\0 \\\\ \\\" \\'"@),
                ),
            ),
            p + 2,
        ),
{
    reveal_strlit("`");
    assert("unknown escape sequence `\\"@.push(s[p + 1]).push('`')
        =~= "unknown escape sequence `\\"@ + seq![s[p + 1]] + "`"@);
}

/// **A string that is not closed is refused at its opening quote**: what is said of a
/// string that is refused is that, or something about one of its escapes.
pub proof fn open_strings_are_refused(
    s: Seq<char>,
    open: int,
    p: int,
    chars: Seq<char>,
    offsets: Seq<int>,
)
    ensures
        string_from(s, open, p, chars, offsets).0 matches Err(error) ==> error == says_no(
            "unterminated string literal"@,
            (Span { offset: bytes_before(s, open) as usize, len: 1 }),
            Some("this quote has no match on the same line"@),
            None,
        ) || exists|q: int| p <= q < s.len() && s[q] == '\\' && #[trigger] escape_at(s, q).0
            == Err::<Option<char>, DiagnosticView>(error),
        !(0 <= p < s.len()) || s[p] == '\n' ==> string_from(s, open, p, chars, offsets).0 is Err,
    decreases s.len() - p,
{
    if 0 <= p < s.len() && s[p] != '\n' && s[p] != '"' {
        if s[p] == '\\' {
            match escape_at(s, p) {
                (Ok(Some(c)), q) => {
                    if q > p {
                        let at = bytes_before(s, p) as int;
                        open_strings_are_refused(s, open, q, chars.push(c), offsets.push(at));
                    }
                },
                (Ok(None), q) => {},
                (Err(error), q) => {
                    assert(escape_at(s, p).0 == Err::<Option<char>, DiagnosticView>(error));
                },
            }
        } else {
            let at = bytes_before(s, p) as int;
            open_strings_are_refused(s, open, p + 1, chars.push(s[p]), offsets.push(at));
        }
    }
}

/// **A character literal holds one character**, and what is said of one that does not is
/// what is wrong with it: that it is empty, that it holds more, or that it is not closed.
pub proof fn other_character_literals_are_refused(s: Seq<char>, p: int)
    requires
        0 <= p < s.len(),
    ensures
        ({
            let open = says_no(
                "unterminated character literal"@,
                (Span { offset: bytes_before(s, p) as usize, len: 1 }),
                Some("this quote has no match on the same line"@),
                Some("a character literal is written `'a'`"@),
            );
            &&& p + 1 >= s.len() || s[p + 1] == '\n' ==> character_at(s, p).0 == Err::<
                crate::token::TokenView,
                DiagnosticView,
            >(open)
            &&& p + 1 < s.len() && s[p + 1] == '\'' ==> character_at(s, p) == (
                Err::<crate::token::TokenView, DiagnosticView>(
                    says_no(
                        "empty character literal"@,
                        span(s, p, p + 2),
                        Some("a character literal holds exactly one character"@),
                        Some("the empty *string* is written `\"\"`"@),
                    ),
                ),
                p + 2,
            )
            &&& forall|q: int, value: char|
                ({
                    let end = quote_or_end(s, q);
                    let (scan, past) = #[trigger] character_from(s, p, q, value);
                    !(0 <= q < s.len() && s[q] == '\'') ==> {
                        &&& 0 <= end < s.len() && s[end] == '\'' ==> past == end + 1 && scan
                            == Err::<crate::token::TokenView, DiagnosticView>(
                            says_no(
                                "character literal holds more than one character"@,
                                span(s, p, end + 1),
                                Some("a character literal holds exactly one character"@),
                                Some("write it with double quotes for a string"@),
                            ),
                        )
                        &&& !(0 <= end < s.len() && s[end] == '\'') ==> past == end && scan
                            == Err::<crate::token::TokenView, DiagnosticView>(open)
                    }
                })
        }),
{
}

} // verus!
