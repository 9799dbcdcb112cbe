//! Characters: which of them may stand where, and how many bytes they take.

use vstd::prelude::*;
use vstd::utf8::{encode_scalar, encode_utf8};

verus! {

/// Whether Unicode calls a character alphabetic.
pub uninterp spec fn is_letter(c: char) -> bool;

/// Whether Unicode calls a character numeric.
pub uninterp spec fn is_numeral(c: char) -> bool;

/// `char::is_alphabetic` answers from the Unicode `Alphabetic` property, which
/// is fixed for each character. Of the ASCII characters it holds for the
/// letters alone.
pub assume_specification[ char::is_alphabetic ](c: char) -> (answer: bool)
    ensures
        answer == is_letter(c),
        (c as u32) < 128 ==> answer == (('a' <= c && c <= 'z') || ('A' <= c && c <= 'Z')),
;

/// `char::is_numeric` answers from the Unicode general categories for numbers,
/// which are fixed for each character. Of the ASCII characters it holds for the
/// digits alone.
pub assume_specification[ char::is_numeric ](c: char) -> (answer: bool)
    ensures
        answer == is_numeral(c),
        (c as u32) < 128 ==> answer == ('0' <= c && c <= '9'),
;

/// Whether a character is white space: the characters that have the Unicode
/// `White_Space` property.
pub open spec fn is_space(c: char) -> bool {
    let n = c as u32;
    ||| 0x09 <= n <= 0x0d
    ||| n == 0x20
    ||| n == 0x85
    ||| n == 0xa0
    ||| n == 0x1680
    ||| 0x2000 <= n <= 0x200a
    ||| n == 0x2028
    ||| n == 0x2029
    ||| n == 0x202f
    ||| n == 0x205f
    ||| n == 0x3000
}

pub fn space(c: char) -> (answer: bool)
    ensures
        answer == is_space(c),
{
    let n: u32 = c as u32;
    (0x09 <= n && n <= 0x0d) || n == 0x20 || n == 0x85 || n == 0xa0 || n == 0x1680 || (0x2000 <= n
        && n <= 0x200a) || n == 0x2028 || n == 0x2029 || n == 0x202f || n == 0x205f || n == 0x3000
}

pub open spec fn is_digit(c: char) -> bool {
    '0' <= c && c <= '9'
}

pub fn digit(c: char) -> (answer: bool)
    ensures
        answer == is_digit(c),
{
    '0' <= c && c <= '9'
}

/// Whether a character is alphabetic: of the ASCII characters the letters, and of
/// the others those Unicode calls so.
pub open spec fn is_alphabetic(c: char) -> bool {
    if (c as u32) < 128 {
        ('a' <= c && c <= 'z') || ('A' <= c && c <= 'Z')
    } else {
        is_letter(c)
    }
}

/// Whether a character is numeric: of the ASCII characters the digits, and of the
/// others those Unicode calls so.
pub open spec fn is_numeric(c: char) -> bool {
    if (c as u32) < 128 {
        is_digit(c)
    } else {
        is_numeral(c)
    }
}

/// Whether a name may start with a character.
pub open spec fn starts_name(c: char) -> bool {
    c == '_' || is_alphabetic(c)
}

pub fn is_ident_start(c: char) -> (answer: bool)
    ensures
        answer == starts_name(c),
{
    c == '_' || c.is_alphabetic()
}

/// Whether a name may go on with a character.
pub open spec fn continues_name(c: char) -> bool {
    c == '_' || is_alphabetic(c) || is_numeric(c)
}

pub fn is_ident_continue(c: char) -> (answer: bool)
    ensures
        answer == continues_name(c),
{
    c == '_' || c.is_alphabetic() || c.is_numeric()
}

/// How many bytes a character takes.
pub open spec fn width(c: char) -> nat {
    encode_scalar(c as u32).len()
}

pub fn width_of(c: char) -> (bytes: usize)
    ensures
        bytes == width(c),
        1 <= bytes <= 4,
{
    let n: u32 = c as u32;
    if n <= 0x7f {
        1
    } else if n <= 0x7ff {
        2
    } else if n <= 0xffff {
        3
    } else {
        4
    }
}

/// How many bytes the first `p` characters take, which is the byte offset of
/// the next one.
pub open spec fn bytes_before(s: Seq<char>, p: int) -> nat
    decreases p,
{
    if p <= 0 {
        0
    } else {
        bytes_before(s, p - 1) + width(s[p - 1])
    }
}

proof fn bytes_after_the_first(s: Seq<char>, p: int)
    requires
        1 <= p <= s.len(),
    ensures
        bytes_before(s, p) == width(s[0]) + bytes_before(s.drop_first(), p - 1),
    decreases p,
{
    if p > 1 {
        bytes_after_the_first(s, p - 1);
        assert(s.drop_first()[p - 2] == s[p - 1]);
    } else {
        reveal_with_fuel(bytes_before, 2);
    }
}

/// The offset past the last character is the length of the text in bytes.
pub proof fn offsets_count_bytes(s: Seq<char>)
    ensures
        bytes_before(s, s.len() as int) == encode_utf8(s).len(),
    decreases s.len(),
{
    if s.len() > 0 {
        offsets_count_bytes(s.drop_first());
        bytes_after_the_first(s, s.len() as int);
    }
}

/// Each character takes a byte or more, so offsets grow with the characters
/// before them.
pub proof fn offsets_increase(s: Seq<char>, p: int, q: int)
    requires
        0 <= p <= q <= s.len(),
    ensures
        bytes_before(s, q) >= bytes_before(s, p) + (q - p),
    decreases q - p,
{
    if p < q {
        offsets_increase(s, p, q - 1);
    }
}

} // verus!
