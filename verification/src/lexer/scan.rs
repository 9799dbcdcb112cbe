//! Reading a source.

use vstd::prelude::*;
use vstd::utf8::encode_utf8;

use super::chars::{
    bytes_before, digit, is_digit, is_ident_continue, is_ident_start, offsets_count_bytes,
    offsets_increase, space, starts_name, width_of,
};
use super::meaning::{
    character_at, character_from, digit_values, end_of_line, end_token, escape_at,
    lexed, lexed_from, number_at, one_or_two, only_doubled, past_digits,
    past_name, past_trivia, peeked, quote_or_end, span, string_at, string_from, token_at,
    unterminated_character, unterminated_string, word_at, Lexed, Scan,
};
use crate::diag::{diagnostic_views, Diagnostic, Span};
use crate::float::{from_digits, number, INFINITY};
use crate::text::text_between;
use crate::token::{places, token_views, StrLit, Token, TokenKind, TokenView};
use crate::vocabulary::keyword;

verus! {

/// What was read of a token, as text.
pub open spec fn scanned(scan: Result<TokenKind, Diagnostic>) -> Scan {
    match scan {
        Ok(kind) => Ok(kind@),
        Err(error) => Err(error@),
    }
}

struct Lexer {
    chars: Vec<char>,
    /// The byte offset of every character, and of the end.
    offsets: Vec<usize>,
    pos: usize,
}

impl Lexer {
    spec fn well_formed(self) -> bool {
        &&& self.pos <= self.chars@.len()
        &&& self.chars@.len() <= isize::MAX
        &&& self.offsets@.len() == self.chars@.len() + 1
        &&& forall|i: int|
            0 <= i < self.offsets@.len() ==> #[trigger] self.offsets@[i] == bytes_before(
                self.chars@,
                i,
            )
    }

    /// The same source, read as far as `pos`.
    spec fn at(self, before: Lexer, pos: int) -> bool {
        &&& self.well_formed()
        &&& self.chars == before.chars
        &&& self.offsets == before.offsets
        &&& self.pos == pos
    }

    fn new(src: &str) -> (lexer: Lexer)
        requires
            encode_utf8(src@).len() <= isize::MAX,
        ensures
            lexer.well_formed(),
            lexer.chars@ == src@,
            lexer.pos == 0,
    {
        let mut chars: Vec<char> = Vec::new();
        let mut offsets: Vec<usize> = vec![0];
        let mut at: usize = 0;
        proof {
            offsets_count_bytes(src@);
        }
        for c in text: src.chars()
            invariant
                text.seq() == src@,
                chars@ == src@.take(text.index() as int),
                bytes_before(src@, src@.len() as int) <= isize::MAX,
                at == bytes_before(src@, text.index() as int),
                offsets@.len() == chars@.len() + 1,
                forall|i: int|
                    0 <= i < offsets@.len() ==> #[trigger] offsets@[i] == bytes_before(src@, i),
        {
            proof {
                let i = text.index() as int;
                assert(c == src@[i]);
                offsets_increase(src@, i + 1, src@.len() as int);
                assert(src@.take(i).push(c) =~= src@.take(i + 1));
            }
            chars.push(c);
            at = at + width_of(c);
            offsets.push(at);
        }
        proof {
            assert(chars@ =~= src@);
            offsets_increase(src@, 0, src@.len() as int);
        }
        Lexer { chars, offsets, pos: 0 }
    }

    fn peek(&self) -> (c: Option<char>)
        requires
            self.well_formed(),
        ensures
            c == peeked(self.chars@, self.pos as int),
    {
        if self.pos < self.chars.len() {
            Some(self.chars[self.pos])
        } else {
            None
        }
    }

    fn peek_next(&self) -> (c: Option<char>)
        requires
            self.well_formed(),
        ensures
            c == peeked(self.chars@, self.pos + 1),
    {
        if self.pos < self.chars.len() && self.pos + 1 < self.chars.len() {
            Some(self.chars[self.pos + 1])
        } else {
            None
        }
    }

    /// Byte offset of the current character (end of file offset when done).
    fn offset(&self) -> (offset: usize)
        requires
            self.well_formed(),
        ensures
            offset == bytes_before(self.chars@, self.pos as int),
    {
        self.offsets[self.pos]
    }

    /// The bytes from the character `start` up to the current one.
    fn span_from(&self, start: usize) -> (bytes: Span)
        requires
            self.well_formed(),
            start <= self.pos,
        ensures
            bytes == span(self.chars@, start as int, self.pos as int),
    {
        proof {
            offsets_increase(self.chars@, start as int, self.pos as int);
        }
        Span::new(self.offsets[start], self.offsets[self.pos] - self.offsets[start])
    }

    fn bump(&mut self) -> (c: Option<char>)
        requires
            old(self).well_formed(),
        ensures
            c == peeked(old(self).chars@, old(self).pos as int),
            final(self).at(
                *old(self),
                if old(self).pos < old(self).chars@.len() {
                    old(self).pos + 1
                } else {
                    old(self).pos as int
                },
            ),
    {
        let c = self.peek();
        if c.is_some() {
            self.pos = self.pos + 1;
        }
        c
    }

    /// Read the whole source.
    fn run(&mut self) -> (result: Result<Vec<Token>, Vec<Diagnostic>>)
        requires
            old(self).well_formed(),
            old(self).pos == 0,
        ensures
            match result {
                Ok(tokens) => {
                    &&& lexed(old(self).chars@).errors.len() == 0
                    &&& token_views(tokens@) == lexed(old(self).chars@).tokens.push(
                        end_token(old(self).chars@),
                    )
                },
                Err(errors) => {
                    &&& errors@.len() > 0
                    &&& diagnostic_views(errors@) == lexed(old(self).chars@).errors
                },
            },
    {
        let ghost s = self.chars@;
        let mut tokens: Vec<Token> = Vec::new();
        let mut errors: Vec<Diagnostic> = Vec::new();
        proof {
            assert(token_views(tokens@) =~= seq![]);
            assert(diagnostic_views(errors@) =~= seq![]);
        }
        loop
            invariant
                self.well_formed(),
                self.chars@ == s,
                lexed_from(
                    s,
                    self.pos as int,
                    Lexed { tokens: token_views(tokens@), errors: diagnostic_views(errors@) },
                ) == lexed(s),
            ensures
                self.well_formed(),
                self.chars@ == s,
                lexed(s) == (Lexed {
                    tokens: token_views(tokens@),
                    errors: diagnostic_views(errors@),
                }),
            decreases s.len() - self.pos,
        {
            let ghost before = self.pos as int;
            let ghost read = Lexed {
                tokens: token_views(tokens@),
                errors: diagnostic_views(errors@),
            };
            proof {
                trivia_advances(s, before);
            }
            self.skip_trivia();
            let start: usize = self.pos;
            if start >= self.chars.len() {
                break;
            }
            proof {
                token_advances(s, start as int);
            }
            match self.token() {
                Ok(kind) => {
                    let ghost view = kind@;
                    let token = Token { kind, span: self.span_from(start) };
                    tokens.push(token);
                    assert(token_views(tokens@) =~= read.tokens.push(
                        (view, span(s, start as int, self.pos as int)),
                    ));
                },
                Err(error) => {
                    let ghost view = error@;
                    errors.push(error);
                    assert(diagnostic_views(errors@) =~= read.errors.push(view));
                    // How far it got says where it is safe to start again. One
                    // character means a stray one — `@`, or a `&` with nothing
                    // beside it — and the very next character is a token like
                    // any other. More than one means it stopped somewhere
                    // *inside* something: an unclosed quote, an escape that
                    // names nothing. There is no telling what the rest of that
                    // was meant to be, so the rest of the line goes with it
                    // rather than being read as tokens nobody wrote.
                    if self.pos - start > 1 {
                        proof {
                            line_advances(s, self.pos as int);
                        }
                        self.skip_line();
                    }
                },
            }
        }
        if errors.len() == 0 {
            let ghost read = token_views(tokens@);
            let end = Token {
                kind: TokenKind::Eof,
                span: Span::new(self.offsets[self.chars.len()], 0),
            };
            tokens.push(end);
            assert(token_views(tokens@) =~= read.push(end_token(s)));
            Ok(tokens)
        } else {
            Err(errors)
        }
    }

    /// Read one token, having already skipped whatever came before it.
    fn token(&mut self) -> (scan: Result<TokenKind, Diagnostic>)
        requires
            old(self).well_formed(),
            old(self).pos < old(self).chars@.len(),
        ensures
            scanned(scan) == token_at(old(self).chars@, old(self).pos as int).0,
            final(self).at(*old(self), token_at(old(self).chars@, old(self).pos as int).1),
    {
        let start: usize = self.pos;
        let c: char = self.chars[start];
        proof {
            spellings();
        }
        if c == '(' {
            Ok(self.single(TokenKind::LParen))
        } else if c == ')' {
            Ok(self.single(TokenKind::RParen))
        } else if c == '{' {
            Ok(self.single(TokenKind::LBrace))
        } else if c == '}' {
            Ok(self.single(TokenKind::RBrace))
        } else if c == ';' {
            Ok(self.single(TokenKind::Semi))
        } else if c == '[' {
            Ok(self.single(TokenKind::LBracket))
        } else if c == ']' {
            Ok(self.single(TokenKind::RBracket))
        } else if c == '.' {
            Ok(self.single(TokenKind::Dot))
        } else if c == '+' {
            Ok(self.single(TokenKind::Plus))
        } else if c == '*' {
            Ok(self.single(TokenKind::Star))
        } else if c == '/' {
            Ok(self.single(TokenKind::Slash))
        } else if c == '%' {
            Ok(self.single(TokenKind::Percent))
        } else if c == ',' {
            Ok(self.single(TokenKind::Comma))
        } else if c == '=' {
            // Two-character operators are recognised before their prefixes, and
            // `=` is the one with two of them.
            if self.peek_next() == Some('>') {
                self.bump();
                Ok(self.single(TokenKind::FatArrow))
            } else {
                Ok(self.one_or_two('=', TokenKind::EqEq, TokenKind::Eq))
            }
        } else if c == ':' {
            Ok(self.one_or_two(':', TokenKind::ColonColon, TokenKind::Colon))
        } else if c == '<' {
            Ok(self.one_or_two('=', TokenKind::Le, TokenKind::Lt))
        } else if c == '>' {
            Ok(self.one_or_two('=', TokenKind::Ge, TokenKind::Gt))
        } else if c == '!' {
            Ok(self.one_or_two('=', TokenKind::BangEq, TokenKind::Bang))
        } else if c == '-' {
            Ok(self.one_or_two('>', TokenKind::Arrow, TokenKind::Minus))
        } else if c == '&' {
            // These two exist only doubled: the language has no bitwise `&` or
            // `|` for the lone character to mean instead.
            self.only_doubled(TokenKind::AmpAmp)
        } else if c == '|' {
            self.only_doubled(TokenKind::PipePipe)
        } else if c == '"' {
            self.string()
        } else if c == '\'' {
            self.character()
        } else if digit(c) {
            self.number()
        } else if is_ident_start(c) {
            Ok(self.ident())
        } else {
            self.bump();
            let mut message: String = "unexpected character `".to_owned();
            message.push(c);
            message.push('`');
            Err(Diagnostic::new(message, self.span_from(start)))
        }
    }

    /// Throw away what is left of the line, which is where a token that went
    /// wrong part way through stops being worth reading.
    fn skip_line(&mut self)
        requires
            old(self).well_formed(),
        ensures
            final(self).at(*old(self), end_of_line(old(self).chars@, old(self).pos as int)),
    {
        let ghost start = *self;
        while self.pos < self.chars.len() && self.chars[self.pos] != '\n'
            invariant
                self.at(start, self.pos as int),
                end_of_line(self.chars@, self.pos as int) == end_of_line(
                    start.chars@,
                    start.pos as int,
                ),
            decreases self.chars@.len() - self.pos,
        {
            self.bump();
        }
    }

    fn single(&mut self, kind: TokenKind) -> (same: TokenKind)
        requires
            old(self).well_formed(),
            old(self).pos < old(self).chars@.len(),
        ensures
            same == kind,
            final(self).at(*old(self), old(self).pos + 1),
    {
        self.bump();
        kind
    }

    /// Consume a one-character token, or a two-character one when `second`
    /// follows: this is what keeps `<=` from lexing as `<` then `=`.
    fn one_or_two(&mut self, second: char, both: TokenKind, first: TokenKind) -> (kind: TokenKind)
        requires
            old(self).well_formed(),
            old(self).pos < old(self).chars@.len(),
            both@ == TokenView::Fixed(both.spelling()),
            first@ == TokenView::Fixed(first.spelling()),
        ensures
            ({
                let (scan, past) = one_or_two(
                    old(self).chars@,
                    old(self).pos as int,
                    second,
                    both.spelling(),
                    first.spelling(),
                );
                &&& scan == Ok::<_, crate::diag::DiagnosticView>(kind@)
                &&& final(self).at(*old(self), past)
            }),
    {
        self.bump();
        if self.peek() == Some(second) {
            self.bump();
            both
        } else {
            first
        }
    }

    /// Consume a token that has no one-character form: `&&` and `||`.
    ///
    /// Unlike [`Self::one_or_two`] there is nothing to fall back to, so the
    /// character on its own is an error — and the only thing it can plausibly
    /// have meant is the doubled spelling, which the message says.
    fn only_doubled(&mut self, both: TokenKind) -> (scan: Result<TokenKind, Diagnostic>)
        requires
            old(self).well_formed(),
            old(self).pos < old(self).chars@.len(),
            both@ == TokenView::Fixed(both.spelling()),
        ensures
            scanned(scan) == only_doubled(
                old(self).chars@,
                old(self).pos as int,
                both.spelling(),
            ).0,
            final(self).at(
                *old(self),
                only_doubled(old(self).chars@, old(self).pos as int, both.spelling()).1,
            ),
    {
        let start: usize = self.pos;
        let first: char = self.chars[start];
        self.bump();
        if self.peek() == Some(first) {
            self.bump();
            return Ok(both);
        }
        let mut message: String = "unexpected character `".to_owned();
        message.push(first);
        message.push('`');
        let mut label: String = "did you mean `".to_owned();
        label.append(both.text());
        label.append("`?");
        Err(Diagnostic::new(message, self.span_from(start)).with_label(label))
    }

    fn skip_trivia(&mut self)
        requires
            old(self).well_formed(),
        ensures
            final(self).at(*old(self), past_trivia(old(self).chars@, old(self).pos as int)),
    {
        let ghost start = *self;
        loop
            invariant
                self.at(start, self.pos as int),
                past_trivia(self.chars@, self.pos as int) == past_trivia(
                    start.chars@,
                    start.pos as int,
                ),
            ensures
                self.at(start, past_trivia(start.chars@, start.pos as int)),
            decreases self.chars@.len() - self.pos,
        {
            match self.peek() {
                Some(c) => {
                    if space(c) {
                        self.bump();
                    } else if c == '/' && self.peek_next() == Some('/') {
                        // `//` runs to the end of the line.
                        proof {
                            reveal_with_fuel(end_of_line, 2);
                            line_advances(self.chars@, self.pos + 1);
                        }
                        self.skip_line();
                    } else {
                        break;
                    }
                },
                None => {
                    break;
                },
            }
        }
    }

    /// The characters from `start` up to the current one.
    fn text_from(&self, start: usize) -> (text: String)
        requires
            self.well_formed(),
            start <= self.pos,
        ensures
            text@ == self.chars@.subrange(start as int, self.pos as int),
    {
        text_between(&self.chars, start, self.pos)
    }

    /// Run past the characters a name may hold.
    fn rest_of_name(&mut self)
        requires
            old(self).well_formed(),
        ensures
            final(self).at(*old(self), past_name(old(self).chars@, old(self).pos as int)),
            final(self).pos >= old(self).pos,
    {
        let ghost start = *self;
        while self.pos < self.chars.len() && is_ident_continue(self.chars[self.pos])
            invariant
                self.at(start, self.pos as int),
                self.pos >= start.pos,
                past_name(self.chars@, self.pos as int) == past_name(
                    start.chars@,
                    start.pos as int,
                ),
            decreases self.chars@.len() - self.pos,
        {
            self.bump();
        }
    }

    fn ident(&mut self) -> (kind: TokenKind)
        requires
            old(self).well_formed(),
        ensures
            word_at(old(self).chars@, old(self).pos as int).0 == Ok::<
                _,
                crate::diag::DiagnosticView,
            >(kind@),
            final(self).at(*old(self), word_at(old(self).chars@, old(self).pos as int).1),
    {
        let start: usize = self.pos;
        self.rest_of_name();
        // The words are not written out here: `vocabulary` is the one place
        // they are.
        let word: String = self.text_from(start);
        match keyword(word.as_str()) {
            Some(kind) => kind,
            None => TokenKind::Ident(word),
        }
    }

    /// A number, which is an `int` unless a `.` with a digit behind it makes it
    /// a `float`.
    ///
    /// The digits of a `float` are taken together, however many there are, and
    /// the value they write is rounded to the nearest double **once**.
    fn number(&mut self) -> (scan: Result<TokenKind, Diagnostic>)
        requires
            old(self).well_formed(),
            old(self).pos < old(self).chars@.len(),
            is_digit(old(self).chars@[old(self).pos as int]),
        ensures
            scanned(scan) == number_at(old(self).chars@, old(self).pos as int).0,
            final(self).at(*old(self), number_at(old(self).chars@, old(self).pos as int).1),
    {
        let ghost s = self.chars@;
        let start: usize = self.pos;
        let mut digits: Vec<u8> = Vec::new();
        self.digits(&mut digits);
        let dot: usize = self.pos;

        // A `.` starts a fraction, and the language puts a `.` after a number
        // for no other reason — so a `.` with no digit behind it is a mistake
        // with a name rather than an `int` followed by a field access naming no
        // object.
        let fractional: bool = self.peek() == Some('.');
        if fractional {
            self.bump();
            let missing: bool = match self.peek() {
                Some(c) => !digit(c),
                None => true,
            };
            if missing {
                return Err(
                    Diagnostic::new(
                        "a floating-point literal needs a digit after the `.`".to_owned(),
                        self.span_from(start),
                    ).with_label("`1.0` rather than `1.`".to_owned()),
                );
            }
            self.digits(&mut digits);
        }
        let end: usize = self.pos;
        let noun: &str = if fractional {
            "floating-point"
        } else {
            "integer"
        };

        // `123abc` and `1.5f` are malformed literals, not a literal followed by
        // a name. An exponent lands here too: there is no `1e9`.
        self.rest_of_name();
        if self.pos > end {
            let mut message: String = "invalid suffix on ".to_owned();
            message.append(noun);
            message.append(" literal");
            let mut label: String = noun.to_owned();
            label.append(" literals may only contain ");
            label.append(
                if fractional {
                    "digits and one `.`"
                } else {
                    "digits"
                },
            );
            return Err(Diagnostic::new(message, self.span_from(start)).with_label(label));
        }
        let bytes: Span = self.span_from(start);
        if !fractional {
            // Nothing here carries a sign, so the smallest `int` is not
            // writable as a literal: it is `-` applied to a value one past the
            // largest one.
            match whole(&digits) {
                Some(n) => Ok(TokenKind::Int(n)),
                None => Err(
                    Diagnostic::new("integer literal is too large".to_owned(), bytes).with_label(
                        "`int` values must fit in -9223372036854775808..=9223372036854775807".to_owned(),
                    ),
                ),
            }
        } else {
            // Nothing in the language can *write* an infinity, so letting one
            // in this way would make a row of zeroes mean a value the program
            // never named and cannot have meant.
            let bits: u64 = from_digits(&digits, end - dot - 1);
            if bits < INFINITY {
                Ok(TokenKind::Float(bits))
            } else {
                Err(
                    Diagnostic::new(
                        "floating-point literal is too large".to_owned(),
                        bytes,
                    ).with_label("`float` values must fit in ±1.7976931348623157e308".to_owned()),
                )
            }
        }
    }

    /// Run past a stretch of decimal digits, however many there are, and put
    /// them on the end of `out`.
    fn digits(&mut self, out: &mut Vec<u8>)
        requires
            old(self).well_formed(),
            forall|i: int| 0 <= i < old(out)@.len() ==> old(out)@[i] < 10,
        ensures
            final(self).at(*old(self), past_digits(old(self).chars@, old(self).pos as int)),
            final(self).pos >= old(self).pos,
            final(out)@ == old(out)@ + digit_values(
                old(self).chars@.subrange(old(self).pos as int, final(self).pos as int),
            ),
            final(out)@.len() == old(out)@.len() + (final(self).pos - old(self).pos),
            forall|i: int| 0 <= i < final(out)@.len() ==> final(out)@[i] < 10,
    {
        let ghost start = *self;
        let ghost before = out@;
        assert(out@ =~= before + digit_values(
            start.chars@.subrange(start.pos as int, start.pos as int),
        ));
        while self.pos < self.chars.len() && digit(self.chars[self.pos])
            invariant
                self.at(start, self.pos as int),
                self.pos >= start.pos,
                past_digits(self.chars@, self.pos as int) == past_digits(
                    start.chars@,
                    start.pos as int,
                ),
                out@ == before + digit_values(
                    start.chars@.subrange(start.pos as int, self.pos as int),
                ),
                out@.len() == before.len() + (self.pos - start.pos),
                forall|i: int| 0 <= i < out@.len() ==> out@[i] < 10,
            decreases self.chars@.len() - self.pos,
        {
            let c: char = self.chars[self.pos];
            out.push((c as u32 - 48) as u8);
            proof {
                let p = self.pos as int;
                let t = start.chars@.subrange(start.pos as int, p);
                assert(start.chars@.subrange(start.pos as int, p + 1) =~= t.push(c));
                assert(digit_values(t.push(c)) =~= digit_values(t).push((c as u32 - 48) as u8));
                assert(before + digit_values(t).push((c as u32 - 48) as u8) =~= (before
                    + digit_values(t)).push((c as u32 - 48) as u8));
            }
            self.bump();
        }
    }

    /// A string literal, decoded into the characters it stands for.
    ///
    /// The source is UTF-8 and `chars` has already decoded it, so a literal
    /// containing `é` yields one character here and everywhere after. Nothing
    /// downstream ever sees the two bytes it took to write.
    fn string(&mut self) -> (scan: Result<TokenKind, Diagnostic>)
        requires
            old(self).well_formed(),
            old(self).pos < old(self).chars@.len(),
        ensures
            scanned(scan) == string_at(old(self).chars@, old(self).pos as int).0,
            final(self).at(*old(self), string_at(old(self).chars@, old(self).pos as int).1),
    {
        let ghost start = *self;
        let open: usize = self.offset();
        self.bump(); // opening quote
        let mut lit = StrLit::default();
        assert(places(lit.offsets@) =~= seq![]);
        loop
            invariant
                start == *old(self),
                self.at(start, self.pos as int),
                open == bytes_before(start.chars@, start.pos as int),
                string_from(
                    start.chars@,
                    start.pos as int,
                    self.pos as int,
                    lit.chars@,
                    places(lit.offsets@),
                ) == string_at(start.chars@, start.pos as int),
            ensures
                self.at(start, string_at(start.chars@, start.pos as int).1),
                string_at(start.chars@, start.pos as int).0 == Err::<TokenView, _>(
                    unterminated_string(start.chars@, start.pos as int),
                ),
                open == bytes_before(start.chars@, start.pos as int),
            decreases self.chars@.len() - self.pos,
        {
            // Read before consuming: this is where the character about to be
            // pushed was written, whether it takes one character of source or
            // the two an escape does.
            let at: usize = self.offset();
            let ghost offsets = places(lit.offsets@);
            match self.peek() {
                None => {
                    break;
                },
                Some(c) => {
                    if c == '"' {
                        lit.close(at);
                        assert(places(lit.offsets@) =~= offsets.push(at as int));
                        self.bump();
                        return Ok(TokenKind::Str(lit));
                    } else if c == '\\' {
                        match self.escape() {
                            Ok(Some(c)) => {
                                lit.push(c, at);
                                assert(places(lit.offsets@) =~= offsets.push(at as int));
                            },
                            Ok(None) => {
                                break;
                            },
                            Err(error) => {
                                return Err(error);
                            },
                        }
                    } else if c == '\n' {
                        // A string literal may not span lines.
                        break;
                    } else {
                        self.bump();
                        lit.push(c, at);
                        assert(places(lit.offsets@) =~= offsets.push(at as int));
                    }
                },
            }
        }
        Err(
            Diagnostic::new(
                "unterminated string literal".to_owned(),
                Span::new(open, 1),
            ).with_label("this quote has no match on the same line".to_owned()),
        )
    }

    /// A character literal: exactly one character between single quotes.
    ///
    /// "Exactly one" is the whole check, and it is worth making — `'ab'` is a
    /// string somebody quoted the wrong way, and saying so is more useful than
    /// silently keeping the first character.
    fn character(&mut self) -> (scan: Result<TokenKind, Diagnostic>)
        requires
            old(self).well_formed(),
            old(self).pos < old(self).chars@.len(),
        ensures
            scanned(scan) == character_at(old(self).chars@, old(self).pos as int).0,
            final(self).at(*old(self), character_at(old(self).chars@, old(self).pos as int).1),
    {
        let start: usize = self.pos;
        self.bump(); // opening quote
        let value: char = match self.peek() {
            None => {
                return Err(self.unterminated(start));
            },
            Some(c) => {
                if c == '\'' {
                    self.bump();
                    return Err(
                        Diagnostic::new(
                            "empty character literal".to_owned(),
                            self.span_from(start),
                        ).with_label(
                            "a character literal holds exactly one character".to_owned(),
                        ).with_note("the empty *string* is written `\"\"`".to_owned()),
                    );
                } else if c == '\n' {
                    return Err(self.unterminated(start));
                } else if c == '\\' {
                    match self.escape() {
                        Ok(Some(value)) => value,
                        Ok(None) => {
                            return Err(self.unterminated(start));
                        },
                        Err(error) => {
                            return Err(error);
                        },
                    }
                } else {
                    self.bump();
                    c
                }
            },
        };
        self.end_of_character(start, value)
    }

    /// The closing quote of the character literal opened at `start`, or what is
    /// wrong with what stands in its place.
    fn end_of_character(&mut self, start: usize, value: char) -> (scan: Result<
        TokenKind,
        Diagnostic,
    >)
        requires
            old(self).well_formed(),
            start < old(self).pos,
        ensures
            scanned(scan) == character_from(
                old(self).chars@,
                start as int,
                old(self).pos as int,
                value,
            ).0,
            final(self).at(
                *old(self),
                character_from(old(self).chars@, start as int, old(self).pos as int, value).1,
            ),
    {
        if self.peek() == Some('\'') {
            self.bump();
            return Ok(TokenKind::Char(value));
        }
        // Run to the closing quote so the whole literal can be underlined
        // rather than the one character that was allowed.
        self.skip_to_quote();
        if self.peek() == Some('\'') {
            self.bump();
            Err(
                Diagnostic::new(
                    "character literal holds more than one character".to_owned(),
                    self.span_from(start),
                ).with_label("a character literal holds exactly one character".to_owned()).with_note(
                    "write it with double quotes for a string".to_owned(),
                ),
            )
        } else {
            Err(self.unterminated(start))
        }
    }

    /// Run to the next single quote, or to the end of the line.
    fn skip_to_quote(&mut self)
        requires
            old(self).well_formed(),
        ensures
            final(self).at(*old(self), quote_or_end(old(self).chars@, old(self).pos as int)),
            final(self).pos >= old(self).pos,
    {
        let ghost start = *self;
        while self.pos < self.chars.len() && self.chars[self.pos] != '\n' && self.chars[self.pos]
            != '\''
            invariant
                self.at(start, self.pos as int),
                self.pos >= start.pos,
                quote_or_end(self.chars@, self.pos as int) == quote_or_end(
                    start.chars@,
                    start.pos as int,
                ),
            decreases self.chars@.len() - self.pos,
        {
            self.bump();
        }
    }

    fn unterminated(&self, start: usize) -> (error: Diagnostic)
        requires
            self.well_formed(),
            start < self.chars@.len(),
        ensures
            error@ == unterminated_character(self.chars@, start as int),
    {
        Diagnostic::new(
            "unterminated character literal".to_owned(),
            Span::new(self.offsets[start], 1),
        ).with_label("this quote has no match on the same line".to_owned()).with_note(
            "a character literal is written `'a'`".to_owned(),
        )
    }

    /// One escape sequence, starting at the backslash.
    ///
    /// `None` means the file ended inside it, which is the caller's business:
    /// what is unterminated is the literal, not the escape.
    fn escape(&mut self) -> (escaped: Result<Option<char>, Diagnostic>)
        requires
            old(self).well_formed(),
            old(self).pos < old(self).chars@.len(),
        ensures
            escape_at(old(self).chars@, old(self).pos as int).0 == match escaped {
                Ok(c) => Ok(c),
                Err(error) => Err(error@),
            },
            final(self).at(*old(self), escape_at(old(self).chars@, old(self).pos as int).1),
    {
        let start: usize = self.pos;
        self.bump(); // the backslash
        match self.bump() {
            None => Ok(None),
            Some(c) => {
                if c == 'n' {
                    Ok(Some('\n'))
                } else if c == 't' {
                    Ok(Some('\t'))
                } else if c == 'r' {
                    Ok(Some('\r'))
                } else if c == '0' {
                    Ok(Some('\0'))
                } else if c == '\\' || c == '"' || c == '\'' {
                    Ok(Some(c))
                } else {
                    let mut message: String = "unknown escape sequence `\\".to_owned();
                    message.push(c);
                    message.push('`');
                    Err(
                        Diagnostic::new(message, self.span_from(start)).with_note(
                            "supported escapes are \\n \\t \\r \\0 \\\\ \\\" \\'".to_owned(),
                        ),
                    )
                }
            },
        }
    }
}

/// The whole number a run of digits writes, where it is an `int`.
fn whole(digits: &Vec<u8>) -> (n: Option<i64>)
    requires
        forall|i: int| 0 <= i < digits@.len() ==> digits@[i] < 10,
    ensures
        n == if number(digits@) <= i64::MAX {
            Some(number(digits@) as i64)
        } else {
            None
        },
{
    let mut n: Option<i64> = Some(0);
    let mut i: usize = 0;
    assert(digits@.take(0) =~= Seq::<u8>::empty());
    while i < digits.len()
        invariant
            i <= digits@.len(),
            forall|i: int| 0 <= i < digits@.len() ==> digits@[i] < 10,
            match n {
                Some(n) => n == number(digits@.take(i as int)),
                None => number(digits@.take(i as int)) > i64::MAX,
            },
        decreases digits@.len() - i,
    {
        let d: i64 = digits[i] as i64;
        proof {
            let next = digits@.take(i + 1);
            assert(next.drop_last() =~= digits@.take(i as int));
            assert(next.last() == digits@[i as int]);
        }
        n = match n {
            Some(n) => if n < 922337203685477580 || (n == 922337203685477580 && d <= 7) {
                Some(n * 10 + d)
            } else {
                None
            },
            None => None,
        };
        i = i + 1;
    }
    assert(digits@.take(i as int) =~= digits@);
    n
}

/// How the characters that stand alone are spelled.
proof fn spellings()
    ensures
        "("@ == seq!['('],
        ")"@ == seq![')'],
        "{"@ == seq!['{'],
        "}"@ == seq!['}'],
        "["@ == seq!['['],
        "]"@ == seq![']'],
        ";"@ == seq![';'],
        "."@ == seq!['.'],
        ","@ == seq![','],
        "+"@ == seq!['+'],
        "*"@ == seq!['*'],
        "/"@ == seq!['/'],
        "%"@ == seq!['%'],
{
    reveal_strlit("(");
    reveal_strlit(")");
    reveal_strlit("{");
    reveal_strlit("}");
    reveal_strlit("[");
    reveal_strlit("]");
    reveal_strlit(";");
    reveal_strlit(".");
    reveal_strlit(",");
    reveal_strlit("+");
    reveal_strlit("*");
    reveal_strlit("/");
    reveal_strlit("%");
    assert("("@ =~= seq!['(']);
    assert(")"@ =~= seq![')']);
    assert("{"@ =~= seq!['{']);
    assert("}"@ =~= seq!['}']);
    assert("["@ =~= seq!['[']);
    assert("]"@ =~= seq![']']);
    assert(";"@ =~= seq![';']);
    assert("."@ =~= seq!['.']);
    assert(","@ =~= seq![',']);
    assert("+"@ =~= seq!['+']);
    assert("*"@ =~= seq!['*']);
    assert("/"@ =~= seq!['/']);
    assert("%"@ =~= seq!['%']);
}

// -- how far each step gets --------------------------------------------------

pub proof fn line_advances(s: Seq<char>, p: int)
    requires
        0 <= p <= s.len(),
    ensures
        p <= end_of_line(s, p) <= s.len(),
    decreases s.len() - p,
{
    if p < s.len() && s[p] != '\n' {
        line_advances(s, p + 1);
    }
}

pub proof fn trivia_advances(s: Seq<char>, p: int)
    requires
        0 <= p <= s.len(),
    ensures
        p <= past_trivia(s, p) <= s.len(),
    decreases s.len() - p,
{
    line_advances(s, p);
    if p < s.len() {
        if super::chars::is_space(s[p]) {
            trivia_advances(s, p + 1);
        } else if s[p] == '/' && peeked(s, p + 1) == Some('/') && end_of_line(s, p) > p {
            trivia_advances(s, end_of_line(s, p));
        }
    }
}

proof fn digits_advance(s: Seq<char>, p: int)
    requires
        0 <= p <= s.len(),
    ensures
        p <= past_digits(s, p) <= s.len(),
    decreases s.len() - p,
{
    if p < s.len() && is_digit(s[p]) {
        digits_advance(s, p + 1);
    }
}

proof fn name_advances(s: Seq<char>, p: int)
    requires
        0 <= p <= s.len(),
    ensures
        p <= past_name(s, p) <= s.len(),
    decreases s.len() - p,
{
    if p < s.len() && super::chars::continues_name(s[p]) {
        name_advances(s, p + 1);
    }
}

proof fn quote_advances(s: Seq<char>, p: int)
    requires
        0 <= p <= s.len(),
    ensures
        p <= quote_or_end(s, p) <= s.len(),
    decreases s.len() - p,
{
    if p < s.len() && s[p] != '\n' && s[p] != '\'' {
        quote_advances(s, p + 1);
    }
}

/// Whether a mistake read from `start` up to `past` is pointed at there.
pub open spec fn points_inside(scan: Scan, s: Seq<char>, start: int, past: int) -> bool {
    scan matches Err(error) ==> exists|at: int|
        start <= at < past && error.span.offset == #[trigger] bytes_before(s, at) as usize
}

proof fn string_advances(s: Seq<char>, open: int, p: int, chars: Seq<char>, offsets: Seq<int>)
    requires
        0 <= open < p <= s.len(),
    ensures
        p <= string_from(s, open, p, chars, offsets).1 <= s.len(),
        points_inside(
            string_from(s, open, p, chars, offsets).0,
            s,
            open,
            string_from(s, open, p, chars, offsets).1,
        ),
    decreases s.len() - p,
{
    let at = bytes_before(s, p) as int;
    assert(bytes_before(s, open) == bytes_before(s, open));
    if p < s.len() && s[p] != '\n' && s[p] != '"' {
        if s[p] == '\\' {
            match escape_at(s, p) {
                (Ok(Some(c)), q) => {
                    string_advances(s, open, q, chars.push(c), offsets.push(at));
                },
                (Ok(None), q) => {},
                (Err(error), q) => {
                    assert(error.span.offset == bytes_before(s, p) as usize);
                },
            }
        } else {
            string_advances(s, open, p + 1, chars.push(s[p]), offsets.push(at));
        }
    }
}

proof fn character_advances(s: Seq<char>, p: int)
    requires
        0 <= p < s.len(),
    ensures
        p < character_at(s, p).1 <= s.len(),
        points_inside(character_at(s, p).0, s, p, character_at(s, p).1),
{
    assert(bytes_before(s, p) == bytes_before(s, p));
    if p + 1 < s.len() {
        if s[p + 1] == '\\' {
            match escape_at(s, p + 1) {
                (Ok(Some(value)), q) => {
                    quote_advances(s, q);
                },
                (Ok(None), q) => {},
                (Err(error), q) => {
                    assert(error.span.offset == bytes_before(s, p + 1) as usize);
                },
            }
        } else {
            quote_advances(s, p + 2);
        }
    }
}

proof fn number_advances(s: Seq<char>, p: int)
    requires
        0 <= p < s.len(),
        is_digit(s[p]),
    ensures
        p < number_at(s, p).1 <= s.len(),
        points_inside(number_at(s, p).0, s, p, number_at(s, p).1),
{
    assert(bytes_before(s, p) == bytes_before(s, p));
    let dot = past_digits(s, p);
    digits_advance(s, p + 1);
    assert(p < dot <= s.len());
    name_advances(s, dot);
    if dot < s.len() {
        digits_advance(s, dot + 1);
        name_advances(s, past_digits(s, dot + 1));
    }
}

/// A token is one character or more, and what is wrong with one is inside it.
pub proof fn token_advances(s: Seq<char>, p: int)
    requires
        0 <= p < s.len(),
    ensures
        p < token_at(s, p).1 <= s.len(),
        points_inside(token_at(s, p).0, s, p, token_at(s, p).1),
{
    let c = s[p];
    assert(bytes_before(s, p) == bytes_before(s, p));
    if c == '"' {
        string_advances(s, p, p + 1, seq![], seq![]);
    } else if c == '\'' {
        character_advances(s, p);
    } else if is_digit(c) {
        number_advances(s, p);
    } else if starts_name(c) {
        name_advances(s, p + 1);
    }
}

/// Read a source, or say everything that is wrong with how it is written.
pub fn lex(src: &str) -> (result: Result<Vec<Token>, Vec<Diagnostic>>)
    requires
        encode_utf8(src@).len() <= isize::MAX,
    ensures
        match result {
            Ok(tokens) => {
                &&& lexed(src@).errors.len() == 0
                &&& token_views(tokens@) == lexed(src@).tokens.push(end_token(src@))
            },
            Err(errors) => {
                &&& errors@.len() > 0
                &&& diagnostic_views(errors@) == lexed(src@).errors
            },
        },
{
    let mut lexer = Lexer::new(src);
    lexer.run()
}

} // verus!
