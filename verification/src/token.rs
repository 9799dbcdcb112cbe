//! What the lexer hands the parser.

use vstd::prelude::*;
use vstd::std_specs::cmp::PartialEqSpecImpl;

use crate::diag::Span;

verus! {

/// A string literal, decoded: the characters it stands for, and where each of
/// them was written.
///
/// `offsets` holds one more than `chars` once the literal is closed: the place
/// of the closing quote, so that the place *after* the last character is known
/// too. Two literals are the same literal when they hold the same characters,
/// wherever they were written.
#[derive(Debug)]
pub struct StrLit {
    pub chars: Vec<char>,
    pub offsets: Vec<usize>,
}

impl StrLit {
    /// Put a character on the end, written at byte `at`.
    pub fn push(&mut self, c: char, at: usize)
        ensures
            final(self).chars@ == old(self).chars@.push(c),
            final(self).offsets@ == old(self).offsets@.push(at),
    {
        self.chars.push(c);
        self.offsets.push(at);
    }

    /// Note where the closing quote was written.
    pub fn close(&mut self, at: usize)
        ensures
            final(self).chars@ == old(self).chars@,
            final(self).offsets@ == old(self).offsets@.push(at),
    {
        self.offsets.push(at);
    }
}

impl Default for StrLit {
    fn default() -> (lit: StrLit)
        ensures
            lit.chars@ == Seq::<char>::empty(),
            lit.offsets@ == Seq::<usize>::empty(),
    {
        StrLit { chars: Vec::new(), offsets: Vec::new() }
    }
}

impl PartialEq for StrLit {
    fn eq(&self, other: &StrLit) -> (same: bool) {
        if self.chars.len() != other.chars.len() {
            return false;
        }
        let mut i: usize = 0;
        while i < self.chars.len()
            invariant
                i <= self.chars.len(),
                self.chars.len() == other.chars.len(),
                forall|k: int| 0 <= k < i ==> self.chars@[k] == other.chars@[k],
            decreases self.chars.len() - i,
        {
            if self.chars[i] != other.chars[i] {
                return false;
            }
            i += 1;
        }
        assert(self.chars@ =~= other.chars@);
        true
    }
}

impl PartialEqSpecImpl for StrLit {
    open spec fn obeys_eq_spec() -> bool {
        true
    }

    open spec fn eq_spec(&self, other: &StrLit) -> bool {
        self.chars@ == other.chars@
    }
}

/// Every kind of token there is.
#[derive(Debug, PartialEq)]
pub enum TokenKind {
    LParen,
    RParen,
    LBrace,
    RBrace,
    LBracket,
    RBracket,
    Semi,
    Comma,
    Dot,
    Colon,
    ColonColon,
    Eq,
    EqEq,
    FatArrow,
    Lt,
    Le,
    Gt,
    Ge,
    Bang,
    BangEq,
    AmpAmp,
    PipePipe,
    Plus,
    Minus,
    Arrow,
    Star,
    Slash,
    Percent,
    Int(i64),
    /// The bits of the double the literal is nearest to.
    Float(u64),
    Bool(bool),
    Str(StrLit),
    Char(char),
    Ident(String),
    KwInt,
    KwString,
    KwBool,
    KwFloat,
    KwChar,
    KwPrint,
    KwPrintln,
    KwIf,
    KwElse,
    KwWhile,
    KwFor,
    KwFn,
    KwReturn,
    KwBreak,
    KwContinue,
    KwEnum,
    KwMatch,
    KwClass,
    /// Past the last byte.
    Eof,
}

/// A [`TokenKind`] as what it says. One that is always written the same way is
/// its spelling.
#[verifier::ext_equal]
pub enum TokenView {
    Fixed(Seq<char>),
    Int(int),
    Float(u64),
    Bool(bool),
    Str { chars: Seq<char>, offsets: Seq<int> },
    Char(char),
    Ident(Seq<char>),
    Eof,
}

/// Byte offsets as numbers.
pub open spec fn places(offsets: Seq<usize>) -> Seq<int> {
    offsets.map_values(|offset: usize| offset as int)
}

impl TokenKind {
    /// How a token is written, or what one of its kind is called where it is
    /// not always written the same way.
    pub open spec fn spelling(self) -> Seq<char> {
        match self {
            TokenKind::LParen => "("@,
            TokenKind::RParen => ")"@,
            TokenKind::LBrace => "{"@,
            TokenKind::RBrace => "}"@,
            TokenKind::LBracket => "["@,
            TokenKind::RBracket => "]"@,
            TokenKind::Semi => ";"@,
            TokenKind::Comma => ","@,
            TokenKind::Dot => "."@,
            TokenKind::Colon => ":"@,
            TokenKind::ColonColon => "::"@,
            TokenKind::Eq => "="@,
            TokenKind::EqEq => "=="@,
            TokenKind::FatArrow => "=>"@,
            TokenKind::Lt => "<"@,
            TokenKind::Le => "<="@,
            TokenKind::Gt => ">"@,
            TokenKind::Ge => ">="@,
            TokenKind::Bang => "!"@,
            TokenKind::BangEq => "!="@,
            TokenKind::AmpAmp => "&&"@,
            TokenKind::PipePipe => "||"@,
            TokenKind::Plus => "+"@,
            TokenKind::Minus => "-"@,
            TokenKind::Arrow => "->"@,
            TokenKind::Star => "*"@,
            TokenKind::Slash => "/"@,
            TokenKind::Percent => "%"@,
            TokenKind::KwInt => "int"@,
            TokenKind::KwString => "string"@,
            TokenKind::KwBool => "bool"@,
            TokenKind::KwFloat => "float"@,
            TokenKind::KwChar => "char"@,
            TokenKind::KwPrint => "print"@,
            TokenKind::KwPrintln => "println"@,
            TokenKind::KwIf => "if"@,
            TokenKind::KwElse => "else"@,
            TokenKind::KwWhile => "while"@,
            TokenKind::KwFor => "for"@,
            TokenKind::KwFn => "fn"@,
            TokenKind::KwReturn => "return"@,
            TokenKind::KwBreak => "break"@,
            TokenKind::KwContinue => "continue"@,
            TokenKind::KwEnum => "enum"@,
            TokenKind::KwMatch => "match"@,
            TokenKind::KwClass => "class"@,
            TokenKind::Int(_) => "an integer"@,
            TokenKind::Float(_) => "a floating-point number"@,
            TokenKind::Bool(_) => "a boolean"@,
            TokenKind::Str(_) => "a string"@,
            TokenKind::Char(_) => "a character"@,
            TokenKind::Ident(_) => "an identifier"@,
            TokenKind::Eof => "end of file"@,
        }
    }

    pub fn text(&self) -> (text: &'static str)
        ensures
            text@ == self.spelling(),
    {
        match self {
            TokenKind::LParen => "(",
            TokenKind::RParen => ")",
            TokenKind::LBrace => "{",
            TokenKind::RBrace => "}",
            TokenKind::LBracket => "[",
            TokenKind::RBracket => "]",
            TokenKind::Semi => ";",
            TokenKind::Comma => ",",
            TokenKind::Dot => ".",
            TokenKind::Colon => ":",
            TokenKind::ColonColon => "::",
            TokenKind::Eq => "=",
            TokenKind::EqEq => "==",
            TokenKind::FatArrow => "=>",
            TokenKind::Lt => "<",
            TokenKind::Le => "<=",
            TokenKind::Gt => ">",
            TokenKind::Ge => ">=",
            TokenKind::Bang => "!",
            TokenKind::BangEq => "!=",
            TokenKind::AmpAmp => "&&",
            TokenKind::PipePipe => "||",
            TokenKind::Plus => "+",
            TokenKind::Minus => "-",
            TokenKind::Arrow => "->",
            TokenKind::Star => "*",
            TokenKind::Slash => "/",
            TokenKind::Percent => "%",
            TokenKind::KwInt => "int",
            TokenKind::KwString => "string",
            TokenKind::KwBool => "bool",
            TokenKind::KwFloat => "float",
            TokenKind::KwChar => "char",
            TokenKind::KwPrint => "print",
            TokenKind::KwPrintln => "println",
            TokenKind::KwIf => "if",
            TokenKind::KwElse => "else",
            TokenKind::KwWhile => "while",
            TokenKind::KwFor => "for",
            TokenKind::KwFn => "fn",
            TokenKind::KwReturn => "return",
            TokenKind::KwBreak => "break",
            TokenKind::KwContinue => "continue",
            TokenKind::KwEnum => "enum",
            TokenKind::KwMatch => "match",
            TokenKind::KwClass => "class",
            TokenKind::Int(_) => "an integer",
            TokenKind::Float(_) => "a floating-point number",
            TokenKind::Bool(_) => "a boolean",
            TokenKind::Str(_) => "a string",
            TokenKind::Char(_) => "a character",
            TokenKind::Ident(_) => "an identifier",
            TokenKind::Eof => "end of file",
        }
    }
}

impl View for TokenKind {
    type V = TokenView;

    open spec fn view(&self) -> TokenView {
        match *self {
            TokenKind::Int(n) => TokenView::Int(n as int),
            TokenKind::Float(bits) => TokenView::Float(bits),
            TokenKind::Bool(b) => TokenView::Bool(b),
            TokenKind::Str(lit) => TokenView::Str {
                chars: lit.chars@,
                offsets: places(lit.offsets@),
            },
            TokenKind::Char(c) => TokenView::Char(c),
            TokenKind::Ident(name) => TokenView::Ident(name@),
            TokenKind::Eof => TokenView::Eof,
            _ => TokenView::Fixed(self.spelling()),
        }
    }
}

/// A token, and the run of bytes it was written in.
#[derive(Debug, PartialEq)]
pub struct Token {
    pub kind: TokenKind,
    pub span: Span,
}

/// The tokens, as what each says and where it stands.
pub open spec fn token_views(tokens: Seq<Token>) -> Seq<(TokenView, Span)> {
    tokens.map_values(|token: Token| (token.kind@, token.span))
}

} // verus!
