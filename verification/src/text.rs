//! Text: numbers written out, names compared, pieces put together.

use vstd::prelude::*;

verus! {

/// `String::push` puts one character on the end and leaves the rest alone.
pub assume_specification[ String::push ](text: &mut String, c: char)
    ensures
        final(text)@ == old(text)@.push(c),
;

/// `==` between two string slices holds exactly when they hold the same
/// characters in the same order.
pub assume_specification[ <str as PartialEq>::eq ](a: &str, b: &str) -> (same: bool)
    ensures
        same == (a@ == b@),
;

/// The decimal digit for a number below ten.
pub open spec fn digit_char(digit: nat) -> char {
    (48 + digit) as char
}

/// A natural number in decimal, without leading zeroes.
pub open spec fn decimal_nat(n: nat) -> Seq<char>
    decreases n,
{
    if n < 10 {
        seq![digit_char(n)]
    } else {
        decimal_nat(n / 10).push(digit_char(n % 10))
    }
}

/// An integer in decimal, with a `-` in front of a negative one.
pub open spec fn decimal(n: int) -> Seq<char> {
    if n < 0 {
        seq!['-'] + decimal_nat((-n) as nat)
    } else {
        decimal_nat(n as nat)
    }
}

/// Write `n` in decimal on the end of `out`.
pub fn push_decimal_u64(out: &mut String, n: u64)
    ensures
        final(out)@ == old(out)@ + decimal_nat(n as nat),
    decreases n,
{
    if n >= 10 {
        push_decimal_u64(out, n / 10);
    }
    let digit: u8 = (n % 10) as u8;
    let c: char = (48u8 + digit) as char;
    out.push(c);
    proof {
        assert(c == digit_char((n % 10) as nat));
        if n >= 10 {
            assert(old(out)@ + decimal_nat(n as nat) =~= (old(out)@ + decimal_nat(
                (n / 10) as nat,
            )).push(c));
        } else {
            assert(old(out)@ + decimal_nat(n as nat) =~= old(out)@.push(c));
        }
    }
}

/// The magnitude of a machine word read as a signed number.
pub fn magnitude(n: i64) -> (m: u64)
    ensures
        m == if n < 0 { -n } else { n as int },
{
    if n >= 0 {
        n as u64
    } else {
        // `-(n + 1)` fits even where `-n` does not.
        let below: i64 = -(n + 1);
        below as u64 + 1
    }
}

/// Write `n` in decimal on the end of `out`.
pub fn push_decimal(out: &mut String, n: i64)
    ensures
        final(out)@ == old(out)@ + decimal(n as int),
{
    if n < 0 {
        out.push('-');
        push_decimal_u64(out, magnitude(n));
        proof {
            assert(old(out)@.push('-') + decimal_nat((-n) as nat) =~= old(out)@ + (seq!['-']
                + decimal_nat((-n) as nat)));
        }
    } else {
        push_decimal_u64(out, n as u64);
    }
}

/// `n` in decimal.
pub fn decimal_text(n: i64) -> (out: String)
    ensures
        out@ == decimal(n as int),
{
    let mut out = String::new();
    push_decimal(&mut out, n);
    proof {
        assert(Seq::<char>::empty() + decimal(n as int) =~= decimal(n as int));
    }
    out
}

/// A number is written one way, and no other number that way.
pub proof fn decimal_is_one_to_one(a: nat, b: nat)
    requires
        decimal_nat(a) == decimal_nat(b),
    ensures
        a == b,
    decreases a,
{
    decimal_has_digits(a / 10);
    decimal_has_digits(b / 10);
    let last_a = digit_char(a % 10);
    let last_b = digit_char(b % 10);
    assert(decimal_nat(a).last() == last_a);
    assert(decimal_nat(b).last() == last_b);
    assert(a % 10 == b % 10);
    if a >= 10 && b >= 10 {
        assert(decimal_nat(a).drop_last() =~= decimal_nat(a / 10));
        assert(decimal_nat(b).drop_last() =~= decimal_nat(b / 10));
        decimal_is_one_to_one(a / 10, b / 10);
    }
}

proof fn decimal_has_digits(n: nat)
    ensures
        decimal_nat(n).len() >= 1,
    decreases n,
{
    if n >= 10 {
        decimal_has_digits(n / 10);
    }
}

/// The characters of a text, to be had by number.
pub fn chars_of(text: &str) -> (chars: Vec<char>)
    ensures
        chars@ == text@,
{
    let mut chars: Vec<char> = Vec::new();
    for c in all: text.chars()
        invariant
            all.seq() == text@,
            chars@ == text@.take(all.index() as int),
    {
        assert(text@.take(all.index() + 1) =~= text@.take(all.index() as int).push(c));
        chars.push(c);
    }
    assert(chars@ =~= text@);
    chars
}

/// The text of the characters from `from` up to `to`.
pub fn text_between(chars: &Vec<char>, from: usize, to: usize) -> (text: String)
    requires
        from <= to <= chars@.len(),
    ensures
        text@ == chars@.subrange(from as int, to as int),
{
    let mut text = String::new();
    let mut i: usize = from;
    assert(text@ =~= chars@.subrange(from as int, from as int));
    while i < to
        invariant
            from <= i <= to <= chars@.len(),
            text@ == chars@.subrange(from as int, i as int),
        decreases to - i,
    {
        text.push(chars[i]);
        assert(chars@.subrange(from as int, i + 1) =~= chars@.subrange(from as int, i as int).push(
            chars@[i as int],
        ));
        i = i + 1;
    }
    text
}

/// The characters of each of a run of strings.
pub open spec fn text_views(texts: Seq<String>) -> Seq<Seq<char>> {
    texts.map_values(|text: String| text@)
}

/// `parts` with `between` written in each gap.
pub open spec fn joined(parts: Seq<Seq<char>>, between: Seq<char>) -> Seq<char>
    decreases parts.len(),
{
    if parts.len() == 0 {
        seq![]
    } else if parts.len() == 1 {
        parts[0]
    } else {
        joined(parts.drop_last(), between) + between + parts.last()
    }
}

/// The number a run of decimal digits stands for, each ten times the one behind it.
pub open spec fn stands_for(text: Seq<char>) -> int
    decreases text.len(),
{
    if text.len() == 0 {
        0
    } else {
        10 * stands_for(text.drop_last()) + (text.last() as int - '0' as int)
    }
}

/// **A number is written in the digits it stands for**, none of them a needless zero.
pub proof fn decimals_read_back(n: nat)
    ensures
        stands_for(decimal_nat(n)) == n,
        forall|i: int|
            0 <= i < decimal_nat(n).len() ==> '0' <= #[trigger] decimal_nat(n)[i] <= '9',
        decimal_nat(n).len() > 0,
        n > 0 ==> decimal_nat(n)[0] != '0',
        decimal(n as int) == decimal_nat(n),
        n > 0 ==> decimal(-n) == seq!['-'] + decimal_nat(n),
    decreases n,
{
    let text = decimal_nat(n);
    if n < 10 {
        assert(text.drop_last() =~= Seq::<char>::empty());
        assert(stands_for(text.drop_last()) == 0);
        assert(digit_char(n) as int == 48 + n);
    } else {
        decimals_read_back(n / 10);
        assert(text.drop_last() =~= decimal_nat(n / 10));
        assert(digit_char(n % 10) as int == 48 + n % 10);
    }
}

} // verus!
