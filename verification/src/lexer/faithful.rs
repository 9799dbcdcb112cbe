//! That tokens say what their characters say.
//!
//! What a token may be written as is said here of its characters alone. A token the
//! lexer reads is written so, and characters that are written so are read as the token,
//! where nothing behind them belongs to it too.

use vstd::arithmetic::power::{lemma_pow_positive, pow};
use vstd::prelude::*;
use vstd::utf8::encode_utf8;

use super::chars::{
    bytes_before, continues_name, is_digit, is_space, offsets_count_bytes, starts_name,
};
use super::meaning::{
    digit_values, end_of_line, escape_at, number_at, past_digits, past_name, past_trivia, peeked,
    quote_or_end, span, string_from, token_at, word_at,
};
use crate::float::{is_nearest, number, unit, INFINITY};
use crate::ir::exact::nearest_exists;
use crate::text::stands_for;
use crate::token::TokenView;
use crate::vocabulary::reserved;

verus! {

// -- what a token is written as ---------------------------------------------

/// Whether all of a text is digits.
pub open spec fn all_digits(t: Seq<char>) -> bool {
    forall|i: int| 0 <= i < t.len() ==> '0' <= #[trigger] t[i] <= '9'
}

/// Whether a text is an operator or a bracket.
pub open spec fn is_operator(t: Seq<char>) -> bool {
    ||| t == seq!['('] || t == seq![')'] || t == seq!['{'] || t == seq!['}'] || t == seq!['[']
    ||| t == seq![']'] || t == seq![';'] || t == seq!['.'] || t == seq![','] || t == seq!['+']
    ||| t == seq!['*'] || t == seq!['/'] || t == seq!['%'] || t == seq!['-'] || t == seq!['=']
    ||| t == seq![':'] || t == seq!['<'] || t == seq!['>'] || t == seq!['!']
    ||| t == seq!['=', '>'] || t == seq!['=', '='] || t == seq![':', ':'] || t == seq!['<', '=']
    ||| t == seq!['>', '='] || t == seq!['!', '='] || t == seq!['-', '>'] || t == seq!['&', '&']
    ||| t == seq!['|', '|']
}

/// Whether a text could be a name: a letter or an underscore, and no more than letters,
/// numerals and underscores behind it.
pub open spec fn is_word(t: Seq<char>) -> bool {
    &&& t.len() > 0
    &&& t[0] == '_' || super::chars::is_alphabetic(t[0])
    &&& forall|i: int|
        0 < i < t.len() ==> (#[trigger] t[i]) == '_' || super::chars::is_alphabetic(t[i]) || super::chars::is_numeric(t[i])
}

/// What an escape stands for.
pub open spec fn escape_means(e: char, c: char) -> bool {
    ||| e == 'n' && c == '\n'
    ||| e == 't' && c == '\t'
    ||| e == 'r' && c == '\r'
    ||| e == '0' && c == '\0'
    ||| e == '\\' && c == '\\'
    ||| e == '"' && c == '"'
    ||| e == '\'' && c == '\''
}

/// Whether `dot` is where the point of a number stands.
pub open spec fn is_point(t: Seq<char>, dot: int) -> bool {
    &&& 0 < dot < t.len() - 1
    &&& t[dot] == '.'
    &&& all_digits(t.subrange(0, dot))
    &&& all_digits(t.subrange(dot + 1, t.len() as int))
}

/// Whether the characters of a string, from `p` up to the quote at `q`, are those from
/// the `i`th on, each where `places` says.
pub open spec fn spells(
    s: Seq<char>,
    p: int,
    q: int,
    chars: Seq<char>,
    places: Seq<int>,
    i: int,
) -> bool
    decreases q - p,
{
    if p >= q {
        p == q && i == chars.len() && places.len() == i + 1 && places[i] == bytes_before(
            s,
            p,
        ) as int
    } else {
        &&& 0 <= i < chars.len()
        &&& i < places.len()
        &&& places[i] == bytes_before(s, p) as int
        &&& s[p] != '\n' && s[p] != '"'
        &&& if s[p] == '\\' {
            p + 1 < q && escape_means(s[p + 1], chars[i]) && spells(
                s,
                p + 2,
                q,
                chars,
                places,
                i + 1,
            )
        } else {
            chars[i] == s[p] && spells(s, p + 1, q, chars, places, i + 1)
        }
    }
}

/// Whether a token is written as the characters from `p` up to `q`.
pub open spec fn says(s: Seq<char>, p: int, q: int, kind: TokenView) -> bool {
    let t = s.subrange(p, q);
    match kind {
        // What is always written the same is that.
        TokenView::Fixed(w) => t == w && (is_operator(w) || is_word(w) && reserved(w)),
        TokenView::Bool(b) => t == (if b {
            "true"@
        } else {
            "false"@
        }),
        TokenView::Ident(w) => t == w && is_word(w) && !reserved(w) && w != "true"@ && w
            != "false"@,
        // A whole number is what its digits stand for.
        TokenView::Int(n) => t.len() > 0 && all_digits(t) && n == stands_for(t) && n
            < 0x8000_0000_0000_0000,
        // A number with a point is the double nearest to what its digits stand for
        // by ten to the power of how many stand behind the point.
        TokenView::Float(bits) => bits < INFINITY && exists|dot: int| #[trigger]
            is_point(t, dot) && is_nearest(
                stands_for(t.subrange(0, dot) + t.subrange(dot + 1, t.len() as int)) * unit(),
                pow(10, (t.len() - dot - 1) as nat),
                bits as int,
            ),
        TokenView::Char(c) => {
            ||| t == seq!['\'', c, '\''] && c != '\'' && c != '\\' && c != '\n'
            ||| t.len() == 4 && t == seq!['\'', '\\', t[2], '\''] && escape_means(t[2], c)
        },
        TokenView::Str { chars, offsets } => {
            &&& q - p >= 2
            &&& s[p] == '"' && s[q - 1] == '"'
            &&& spells(s, p + 1, q - 1, chars, offsets, 0)
        },
        TokenView::Eof => false,
    }
}

/// Whether nothing behind a token, which stands from `p` up to `q`, belongs to it.
pub open spec fn stands_apart(s: Seq<char>, p: int, q: int, kind: TokenView) -> bool {
    let goes_on = q < s.len() && (s[q] == '_' || super::chars::is_alphabetic(s[q]) || super::chars::is_numeric(s[q]));
    match kind {
        TokenView::Fixed(w) => if is_word(w) {
            !goes_on
        } else {
            q < s.len() ==> !is_operator(s.subrange(p, q + 1))
        },
        TokenView::Bool(_) => !goes_on,
        TokenView::Ident(_) => !goes_on,
        TokenView::Int(_) => !goes_on && !(q < s.len() && s[q] == '.'),
        TokenView::Float(_) => !goes_on,
        _ => true,
    }
}

// -- runs of characters -----------------------------------------------------

proof fn digits_run(s: Seq<char>, p: int)
    requires
        0 <= p <= s.len(),
    ensures
        p <= past_digits(s, p) <= s.len(),
        forall|i: int| p <= i < past_digits(s, p) ==> is_digit(#[trigger] s[i]),
        past_digits(s, p) < s.len() ==> !is_digit(s[past_digits(s, p)]),
    decreases s.len() - p,
{
    if p < s.len() && is_digit(s[p]) {
        digits_run(s, p + 1);
    }
}

proof fn digits_run_to(s: Seq<char>, p: int, q: int)
    requires
        0 <= p <= q <= s.len(),
        forall|i: int| p <= i < q ==> is_digit(#[trigger] s[i]),
        q < s.len() ==> !is_digit(s[q]),
    ensures
        past_digits(s, p) == q,
    decreases q - p,
{
    if p < q {
        digits_run_to(s, p + 1, q);
    }
}

proof fn name_run(s: Seq<char>, p: int)
    requires
        0 <= p <= s.len(),
    ensures
        p <= past_name(s, p) <= s.len(),
        forall|i: int| p <= i < past_name(s, p) ==> continues_name(#[trigger] s[i]),
        past_name(s, p) < s.len() ==> !continues_name(s[past_name(s, p)]),
    decreases s.len() - p,
{
    if p < s.len() && continues_name(s[p]) {
        name_run(s, p + 1);
    }
}

proof fn name_run_to(s: Seq<char>, p: int, q: int)
    requires
        0 <= p <= q <= s.len(),
        forall|i: int| p <= i < q ==> continues_name(#[trigger] s[i]),
        q < s.len() ==> !continues_name(s[q]),
    ensures
        past_name(s, p) == q,
    decreases q - p,
{
    if p < q {
        name_run_to(s, p + 1, q);
    }
}

proof fn number_stands_for(t: Seq<char>)
    requires
        all_digits(t),
    ensures
        number(digit_values(t)) == stands_for(t),
        stands_for(t) >= 0,
    decreases t.len(),
{
    if t.len() > 0 {
        let rest = t.drop_last();
        assert forall|i: int| 0 <= i < rest.len() implies '0' <= #[trigger] rest[i] <= '9' by {
            assert(rest[i] == t[i]);
        }
        number_stands_for(rest);
        assert(digit_values(t).drop_last() =~= digit_values(rest));
        assert('0' <= t[t.len() - 1] <= '9');
    } else {
        assert(digit_values(t) =~= Seq::<u8>::empty());
    }
}

proof fn reserved_are_words(w: Seq<char>)
    requires
        reserved(w),
    ensures
        is_word(w),
        !is_operator(w),
        w != "true"@,
        w != "false"@,
{
    reveal_strlit("int");
    reveal_strlit("string");
    reveal_strlit("bool");
    reveal_strlit("float");
    reveal_strlit("char");
    reveal_strlit("print");
    reveal_strlit("println");
    reveal_strlit("if");
    reveal_strlit("else");
    reveal_strlit("while");
    reveal_strlit("for");
    reveal_strlit("fn");
    reveal_strlit("return");
    reveal_strlit("break");
    reveal_strlit("continue");
    reveal_strlit("enum");
    reveal_strlit("match");
    reveal_strlit("class");
    reveal_strlit("true");
    reveal_strlit("false");
    assert forall|i: int| 0 <= i < w.len() implies 'a' <= #[trigger] w[i] <= 'z' by {}
    assert(w.len() == 4 ==> w[0] != 't');
    assert(w.len() == 5 ==> w[0] != 'f' || w[1] != 'a');
    assert("true"@[0] == 't' && "true"@.len() == 4);
    assert("false"@[0] == 'f' && "false"@[1] == 'a' && "false"@.len() == 5);
    operators_hold_no_letter(w);
}

proof fn operators_hold_no_letter(w: Seq<char>)
    ensures
        is_operator(w) ==> w.len() > 0 && !('a' <= w[0] <= 'z') && w[0] != '_'
            && !super::chars::is_alphabetic(w[0]),
{
}

// -- strings and characters -------------------------------------------------

proof fn escapes(s: Seq<char>, p: int)
    requires
        0 <= p < s.len(),
    ensures
        escape_at(s, p) matches (Ok(Some(c)), q) ==> q == p + 2 && q <= s.len() && escape_means(
            s[p + 1],
            c,
        ),
        forall|c: char|
            p + 1 < s.len() && #[trigger] escape_means(s[p + 1], c) ==> escape_at(s, p) == (
                Ok::<Option<char>, crate::diag::DiagnosticView>(Some(c)),
                p + 2,
            ),
{
}

proof fn string_spells(
    s: Seq<char>,
    open: int,
    p: int,
    chars: Seq<char>,
    offsets: Seq<int>,
)
    requires
        0 <= p <= s.len(),
        chars.len() == offsets.len(),
        string_from(s, open, p, chars, offsets).0 is Ok,
    ensures
        ({
            let (scan, q) = string_from(s, open, p, chars, offsets);
            &&& p < q <= s.len()
            &&& s[q - 1] == '"'
            &&& scan matches Ok(TokenView::Str { chars: all, offsets: places })
                && chars.len() <= all.len() && all.subrange(0, chars.len() as int) == chars
                && offsets.len() <= places.len() && places.subrange(0, offsets.len() as int)
                == offsets && spells(s, p, q - 1, all, places, chars.len() as int)
        }),
    decreases s.len() - p,
{
    let at = bytes_before(s, p) as int;
    if p < s.len() && s[p] != '\n' {
        if s[p] == '"' {
            let all = chars;
            let places = offsets.push(at);
            assert(all.subrange(0, chars.len() as int) =~= chars);
            assert(places.subrange(0, offsets.len() as int) =~= offsets);
            assert(spells(s, p, p, all, places, chars.len() as int));
        } else if s[p] == '\\' {
            escapes(s, p);
            if let (Ok(Some(c)), q) = escape_at(s, p) {
                string_step(s, open, p, q, chars, offsets, c, at);
            }
        } else {
            string_step(s, open, p, p + 1, chars, offsets, s[p], at);
        }
    }
}

proof fn string_step(
    s: Seq<char>,
    open: int,
    p: int,
    q: int,
    chars: Seq<char>,
    offsets: Seq<int>,
    c: char,
    at: int,
)
    requires
        0 <= p < q <= s.len(),
        chars.len() == offsets.len(),
        string_from(s, open, q, chars.push(c), offsets.push(at)).0 is Ok,
    ensures
        ({
            let (scan, end) = string_from(s, open, q, chars.push(c), offsets.push(at));
            &&& q < end <= s.len()
            &&& s[end - 1] == '"'
            &&& scan matches Ok(TokenView::Str { chars: all, offsets: places })
                && chars.len() < all.len() && all.subrange(0, chars.len() as int) == chars
                && all[chars.len() as int] == c && offsets.len() < places.len()
                && places.subrange(0, offsets.len() as int) == offsets
                && places[offsets.len() as int] == at && spells(
                s,
                q,
                end - 1,
                all,
                places,
                chars.len() as int + 1,
            )
        }),
    decreases s.len() - p, 0int,
{
    string_spells(s, open, q, chars.push(c), offsets.push(at));
    let (scan, end) = string_from(s, open, q, chars.push(c), offsets.push(at));
    if let Ok(TokenView::Str { chars: all, offsets: places }) = scan {
        let n = chars.len() as int;
        assert(all.subrange(0, n + 1) == chars.push(c));
        assert(all[n] == all.subrange(0, n + 1)[n]);
        assert(all.subrange(0, n) =~= all.subrange(0, n + 1).subrange(0, n));
        assert(chars.push(c).subrange(0, n) =~= chars);
        assert(places.subrange(0, n + 1) == offsets.push(at));
        assert(places[n] == places.subrange(0, n + 1)[n]);
        assert(places.subrange(0, n) =~= places.subrange(0, n + 1).subrange(0, n));
        assert(offsets.push(at).subrange(0, n) =~= offsets);
    }
}

proof fn spelled_is_read(
    s: Seq<char>,
    open: int,
    p: int,
    q: int,
    chars: Seq<char>,
    places: Seq<int>,
    i: int,
)
    requires
        0 <= p <= q < s.len(),
        s[q] == '"',
        0 <= i <= chars.len(),
        i <= places.len(),
        spells(s, p, q, chars, places, i),
    ensures
        string_from(s, open, p, chars.subrange(0, i), places.subrange(0, i)) == (
            Ok::<TokenView, crate::diag::DiagnosticView>(
                TokenView::Str { chars, offsets: places },
            ),
            q + 1,
        ),
    decreases q - p,
{
    let at = bytes_before(s, p) as int;
    if p == q {
        assert(chars.subrange(0, i) =~= chars);
        assert(places.subrange(0, i).push(at) =~= places);
    } else {
        assert(chars.subrange(0, i + 1) =~= chars.subrange(0, i).push(chars[i]));
        assert(places.subrange(0, i + 1) =~= places.subrange(0, i).push(at));
        if s[p] == '\\' {
            escapes(s, p);
            spelled_is_read(s, open, p + 2, q, chars, places, i + 1);
        } else {
            spelled_is_read(s, open, p + 1, q, chars, places, i + 1);
        }
    }
}

// -- numbers ----------------------------------------------------------------

proof fn number_says(s: Seq<char>, p: int)
    requires
        0 <= p < s.len(),
        is_digit(s[p]),
        number_at(s, p).0 is Ok,
    ensures
        p < number_at(s, p).1 <= s.len(),
        says(s, p, number_at(s, p).1, number_at(s, p).0->Ok_0),
        stands_apart(s, p, number_at(s, p).1, number_at(s, p).0->Ok_0),
{
    let dot = past_digits(s, p);
    digits_run(s, p);
    let (scan, end) = number_at(s, p);
    let t = s.subrange(p, end);
    if peeked(s, dot) == Some('.') {
        digits_run(s, dot + 1);
        name_run(s, past_digits(s, dot + 1));
        assert(end == past_digits(s, dot + 1));
        let at = dot - p;
        let whole = t.subrange(0, at);
        let rest = t.subrange(at + 1, t.len() as int);
        assert(whole =~= s.subrange(p, dot));
        assert(rest =~= s.subrange(dot + 1, end));
        assert(is_point(t, at)) by {
            assert forall|i: int| 0 <= i < whole.len() implies '0' <= #[trigger] whole[i] <= '9' by {
                assert(is_digit(s[p + i]));
            }
            assert forall|i: int| 0 <= i < rest.len() implies '0' <= #[trigger] rest[i] <= '9' by {
                assert(is_digit(s[dot + 1 + i]));
            }
        }
        point_reads(t, at, digit_values(whole) + digit_values(rest));
    } else {
        name_run(s, dot);
        assert forall|i: int| 0 <= i < t.len() implies '0' <= #[trigger] t[i] <= '9' by {
            assert(is_digit(s[p + i]));
        }
        number_stands_for(t);
    }
}

proof fn point_reads(t: Seq<char>, dot: int, digits: Seq<u8>)
    requires
        is_point(t, dot),
        digits == digit_values(t.subrange(0, dot)) + digit_values(
            t.subrange(dot + 1, t.len() as int),
        ),
    ensures
        is_nearest(
            stands_for(t.subrange(0, dot) + t.subrange(dot + 1, t.len() as int)) * unit(),
            pow(10, (t.len() - dot - 1) as nat),
            crate::float::literal(digits, (t.len() - dot - 1) as nat) as int,
        ),
{
    let whole = t.subrange(0, dot);
    let rest = t.subrange(dot + 1, t.len() as int);
    let both = whole + rest;
    assert forall|i: int| 0 <= i < both.len() implies '0' <= #[trigger] both[i] <= '9' by {
        if i < whole.len() {
            assert(both[i] == whole[i]);
        } else {
            assert(both[i] == rest[i - whole.len()]);
        }
    }
    number_stands_for(both);
    assert(digits =~= digit_values(both));
    let k = (t.len() - dot - 1) as nat;
    lemma_pow_positive(10, k);
    nearest_exists(stands_for(both) * unit(), pow(10, k));
}

proof fn said_number_is_read(s: Seq<char>, p: int, q: int, kind: TokenView)
    requires
        0 <= p < q <= s.len(),
        kind is Int || kind is Float,
        says(s, p, q, kind),
        stands_apart(s, p, q, kind),
    ensures
        is_digit(s[p]),
        number_at(s, p) == (Ok::<TokenView, crate::diag::DiagnosticView>(kind), q),
{
    let t = s.subrange(p, q);
    if let TokenView::Int(n) = kind {
        assert forall|i: int| p <= i < q implies is_digit(#[trigger] s[i]) by {
            assert(s[i] == t[i - p]);
        }
        digits_run_to(s, p, q);
        name_run_to(s, q, q);
        number_stands_for(t);
    } else if let TokenView::Float(bits) = kind {
        let at = choose|dot: int| #[trigger]
            is_point(t, dot) && is_nearest(
                stands_for(t.subrange(0, dot) + t.subrange(dot + 1, t.len() as int)) * unit(),
                pow(10, (t.len() - dot - 1) as nat),
                bits as int,
            );
        let dot = p + at;
        let whole = t.subrange(0, at);
        let rest = t.subrange(at + 1, t.len() as int);
        assert(whole =~= s.subrange(p, dot));
        assert(rest =~= s.subrange(dot + 1, q));
        assert(s[dot] == t[at]);
        assert forall|i: int| p <= i < dot implies is_digit(#[trigger] s[i]) by {
            assert(s[i] == whole[i - p]);
        }
        assert forall|i: int| dot + 1 <= i < q implies is_digit(#[trigger] s[i]) by {
            assert(s[i] == rest[i - dot - 1]);
        }
        digits_run_to(s, p, dot);
        digits_run_to(s, dot + 1, q);
        name_run_to(s, q, q);
        let digits = digit_values(whole) + digit_values(rest);
        point_reads(t, at, digits);
        crate::float::nearest_is_unique(
            stands_for(whole + rest) * unit(),
            pow(10, (t.len() - at - 1) as nat),
            bits,
            crate::float::literal(digits, (t.len() - at - 1) as nat),
        );
    }
}

// -- tokens -----------------------------------------------------------------

/// **A token says what its characters say**, and nothing behind them belongs to it: an
/// operator or a word of the language is its own text, a name is its characters, a whole
/// number what its digits stand for, a number with a point the double nearest to it, and
/// a string or a character what is between its quotes with the escapes resolved.
pub proof fn tokens_say_what_is_written(s: Seq<char>, p: int)
    requires
        0 <= p < s.len(),
        token_at(s, p).0 is Ok,
    ensures
        p < token_at(s, p).1 <= s.len(),
        says(s, p, token_at(s, p).1, token_at(s, p).0->Ok_0),
        stands_apart(s, p, token_at(s, p).1, token_at(s, p).0->Ok_0),
{
    let c = s[p];
    let (scan, q) = token_at(s, p);
    let kind = scan->Ok_0;
    if c == '"' {
        string_spells(s, p, p + 1, seq![], seq![]);
    } else if c == '\'' {
        escapes(s, p + 1);
        let t = s.subrange(p, q);
        if s[p + 1] == '\\' {
            assert(t =~= seq!['\'', '\\', t[2], '\'']);
        } else {
            assert(t =~= seq!['\'', s[p + 1], '\'']);
        }
    } else if is_digit(c) {
        number_says(s, p);
    } else if starts_name(c) {
        name_run(s, p);
        let w = s.subrange(p, q);
        assert(is_word(w)) by {
            assert forall|i: int| 0 < i < w.len() implies (#[trigger] w[i]) == '_'
                || super::chars::is_alphabetic(w[i]) || super::chars::is_numeric(w[i]) by {
                assert(continues_name(s[p + i]));
            }
        }
        if reserved(w) {
            reserved_are_words(w);
        }
    } else {
        operator_says(s, p);
    }
}

proof fn operator_says(s: Seq<char>, p: int)
    requires
        0 <= p < s.len(),
        token_at(s, p).0 is Ok,
        s[p] != '"',
        s[p] != '\'',
        !is_digit(s[p]),
        !starts_name(s[p]),
    ensures
        p < token_at(s, p).1 <= s.len(),
        says(s, p, token_at(s, p).1, token_at(s, p).0->Ok_0),
        stands_apart(s, p, token_at(s, p).1, token_at(s, p).0->Ok_0),
{
    reveal_operators();
    let (scan, q) = token_at(s, p);
    assert(s.subrange(p, p + 1) =~= seq![s[p]]);
    if p + 1 < s.len() {
        assert(s.subrange(p, p + 2) =~= seq![s[p], s[p + 1]]);
        assert(seq![s[p], s[p + 1]][0] == s[p]);
        assert(seq![s[p], s[p + 1]][1] == s[p + 1]);
    }
    let w = scan->Ok_0->Fixed_0;
    assert(w[0] == s[p]);
    assert(!is_word(w));
    assert(w.len() == q - p);
    assert(w =~= s.subrange(p, q));
    if q < s.len() {
        let longer = s.subrange(p, q + 1);
        assert(longer.len() == q + 1 - p);
        assert(longer[0] == s[p]);
        if q == p + 1 {
            assert(longer[1] == s[p + 1]);
        }
    }
}

proof fn reveal_operators()
    ensures
        "=>"@ == seq!['=', '>'],
        "=="@ == seq!['=', '='],
        "="@ == seq!['='],
        "::"@ == seq![':', ':'],
        ":"@ == seq![':'],
        "<="@ == seq!['<', '='],
        "<"@ == seq!['<'],
        ">="@ == seq!['>', '='],
        ">"@ == seq!['>'],
        "!="@ == seq!['!', '='],
        "!"@ == seq!['!'],
        "->"@ == seq!['-', '>'],
        "-"@ == seq!['-'],
        "&&"@ == seq!['&', '&'],
        "||"@ == seq!['|', '|'],
{
    reveal_strlit("=>");
    reveal_strlit("==");
    reveal_strlit("=");
    reveal_strlit("::");
    reveal_strlit(":");
    reveal_strlit("<=");
    reveal_strlit("<");
    reveal_strlit(">=");
    reveal_strlit(">");
    reveal_strlit("!=");
    reveal_strlit("!");
    reveal_strlit("->");
    reveal_strlit("-");
    reveal_strlit("&&");
    reveal_strlit("||");
}

/// **What is written as a token is read as it**, where nothing behind it belongs to it.
pub proof fn what_is_written_is_read(s: Seq<char>, p: int, q: int, kind: TokenView)
    requires
        0 <= p < q <= s.len(),
        says(s, p, q, kind),
        stands_apart(s, p, q, kind),
    ensures
        token_at(s, p) == (Ok::<TokenView, crate::diag::DiagnosticView>(kind), q),
{
    let t = s.subrange(p, q);
    match kind {
        TokenView::Fixed(w) => {
            if is_word(w) {
                word_is_read(s, p, q);
                reserved_or_operator(w);
            } else {
                operator_is_read(s, p, q);
            }
        },
        TokenView::Bool(b) => {
            reveal_strlit("true");
            reveal_strlit("false");
            assert(is_word(t)) by {
                assert forall|i: int| 0 <= i < t.len() implies 'a' <= #[trigger] t[i] <= 'z' by {}
            }
            word_is_read(s, p, q);
        },
        TokenView::Ident(w) => {
            word_is_read(s, p, q);
        },
        TokenView::Int(_) => {
            said_number_is_read(s, p, q, kind);
        },
        TokenView::Float(_) => {
            said_number_is_read(s, p, q, kind);
        },
        TokenView::Char(c) => {
            assert(s[p] == t[0]);
            assert(s[p + 1] == t[1]);
            assert(s[p + 2] == t[2]);
            if t == seq!['\'', c, '\''] {
                assert(quote_or_end(s, p + 2) == p + 2);
            } else {
                assert(s[p + 3] == t[3]);
                escapes(s, p + 1);
                assert(escape_means(s[p + 2], c));
            }
        },
        TokenView::Str { chars, offsets } => {
            spelled_is_read(s, p, p + 1, q - 1, chars, offsets, 0);
            assert(chars.subrange(0, 0) =~= Seq::<char>::empty());
            assert(offsets.subrange(0, 0) =~= Seq::<int>::empty());
        },
        TokenView::Eof => {},
    }
}

proof fn reserved_or_operator(w: Seq<char>)
    requires
        is_operator(w) || is_word(w) && reserved(w),
        is_word(w),
    ensures
        reserved(w),
        w != "true"@,
        w != "false"@,
{
    if is_operator(w) {
        operators_hold_no_letter(w);
    }
    reserved_are_words(w);
}

proof fn word_is_read(s: Seq<char>, p: int, q: int)
    requires
        0 <= p < q <= s.len(),
        is_word(s.subrange(p, q)),
        q < s.len() ==> !continues_name(s[q]),
    ensures
        token_at(s, p) == word_at(s, p),
        word_at(s, p).1 == q,
{
    let w = s.subrange(p, q);
    assert(s[p] == w[0]);
    assert forall|i: int| p <= i < q implies continues_name(#[trigger] s[i]) by {
        assert(s[i] == w[i - p]);
    }
    name_run_to(s, p, q);
    assert(!is_digit(s[p]));
}

proof fn operator_is_read(s: Seq<char>, p: int, q: int)
    requires
        0 <= p < q <= s.len(),
        is_operator(s.subrange(p, q)),
        q < s.len() ==> !is_operator(s.subrange(p, q + 1)),
    ensures
        token_at(s, p) == (
            Ok::<TokenView, crate::diag::DiagnosticView>(TokenView::Fixed(s.subrange(p, q))),
            q,
        ),
{
    reveal_operators();
    let w = s.subrange(p, q);
    assert(w.len() == q - p);
    assert(w.len() == 1 || w.len() == 2);
    assert(s[p] == w[0]);
    if w.len() == 2 {
        assert(s[p + 1] == w[1]);
        assert(w =~= seq![s[p], s[p + 1]]);
    } else {
        assert(w =~= seq![s[p]]);
        if q < s.len() {
            assert(s.subrange(p, q + 1) =~= seq![s[p], s[p + 1]]);
        }
    }
}

// -- between tokens ---------------------------------------------------------

/// Whether a comment that starts at `j` has not ended by `i`.
pub open spec fn comment_reaches(s: Seq<char>, j: int, i: int) -> bool {
    &&& j + 1 < s.len()
    &&& s[j] == '/' && s[j + 1] == '/'
    &&& forall|k: int| j <= k <= i ==> #[trigger] s[k] != '\n'
}

/// Whether a character stands in a comment: behind two strokes on its line.
pub open spec fn in_a_comment(s: Seq<char>, from: int, i: int) -> bool {
    exists|j: int| from <= j <= i && #[trigger] comment_reaches(s, j, i)
}

proof fn still_in_a_comment(s: Seq<char>, a: int, b: int, i: int)
    requires
        a <= b,
        in_a_comment(s, b, i),
    ensures
        in_a_comment(s, a, i),
{
    let j = choose|j: int| b <= j <= i && #[trigger] comment_reaches(s, j, i);
    assert(comment_reaches(s, j, i));
}

proof fn line_run(s: Seq<char>, p: int)
    requires
        0 <= p <= s.len(),
    ensures
        p <= end_of_line(s, p) <= s.len(),
        forall|i: int| p <= i < end_of_line(s, p) ==> #[trigger] s[i] != '\n',
        end_of_line(s, p) < s.len() ==> s[end_of_line(s, p)] == '\n',
    decreases s.len() - p,
{
    if p < s.len() && s[p] != '\n' {
        line_run(s, p + 1);
    }
}

/// **Only white space and comments are passed over**, and all of them are: what comes next
/// is neither.
pub proof fn only_trivia_is_skipped(s: Seq<char>, p: int)
    requires
        0 <= p <= s.len(),
    ensures
        p <= past_trivia(s, p) <= s.len(),
        forall|i: int|
            p <= i < past_trivia(s, p) ==> is_space(#[trigger] s[i]) || in_a_comment(s, p, i),
        past_trivia(s, p) < s.len() ==> {
            let at = past_trivia(s, p);
            !is_space(s[at]) && !(s[at] == '/' && at + 1 < s.len() && s[at + 1] == '/')
        },
    decreases s.len() - p,
{
    let end = past_trivia(s, p);
    if p < s.len() {
        if is_space(s[p]) {
            only_trivia_is_skipped(s, p + 1);
            assert forall|i: int| p <= i < end implies is_space(#[trigger] s[i]) || in_a_comment(
                s,
                p,
                i,
            ) by {
                if i > p && !is_space(s[i]) {
                    still_in_a_comment(s, p, p + 1, i);
                }
            }
        } else if s[p] == '/' && peeked(s, p + 1) == Some('/') {
            line_run(s, p);
            let e = end_of_line(s, p);
            assert(p < e) by {
                reveal_with_fuel(end_of_line, 2);
            }
            only_trivia_is_skipped(s, e);
            assert forall|i: int| p <= i < end implies is_space(#[trigger] s[i]) || in_a_comment(
                s,
                p,
                i,
            ) by {
                if i < e {
                    assert(comment_reaches(s, p, i));
                } else if !is_space(s[i]) {
                    still_in_a_comment(s, p, e, i);
                }
            }
        }
    }
}

/// **A span is in bytes**: it starts behind the bytes of everything before the token and
/// is as long as the bytes of its characters.
pub proof fn spans_count_bytes(s: Seq<char>, p: int, q: int)
    requires
        0 <= p <= q <= s.len(),
        encode_utf8(s).len() <= isize::MAX,
    ensures
        span(s, p, q).offset == encode_utf8(s.take(p)).len(),
        span(s, p, q).offset + span(s, p, q).len == encode_utf8(s.take(q)).len(),
{
    offsets_count_bytes(s);
    offsets_count_bytes(s.take(p));
    offsets_count_bytes(s.take(q));
    same_bytes(s, s.take(p), p);
    same_bytes(s, s.take(q), q);
    super::chars::offsets_increase(s, p, q);
    super::chars::offsets_increase(s, q, s.len() as int);
}

proof fn same_bytes(s: Seq<char>, t: Seq<char>, n: int)
    requires
        0 <= n <= s.len(),
        n <= t.len(),
        forall|i: int| 0 <= i < n ==> s[i] == #[trigger] t[i],
    ensures
        bytes_before(s, n) == bytes_before(t, n),
    decreases n,
{
    if n > 0 {
        same_bytes(s, t, n - 1);
        assert(s[n - 1] == t[n - 1]);
    }
}

} // verus!
