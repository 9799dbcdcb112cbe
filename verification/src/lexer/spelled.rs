//! How each token is written.

use vstd::prelude::*;

use crate::token::{TokenKind, TokenView};
use crate::vocabulary::{keyword_of, reserved};

verus! {

/// **Every token is written its own way**, and stands for what is written that way; one
/// that is not always written the same is called what it is.
pub proof fn tokens_are_written_their_own_way(kind: TokenKind)
    ensures
        match kind {
            TokenKind::LParen => kind.spelling() == "("@ && kind@ == TokenView::Fixed("("@),
            TokenKind::RParen => kind.spelling() == ")"@ && kind@ == TokenView::Fixed(")"@),
            TokenKind::LBrace => kind.spelling() == "{"@ && kind@ == TokenView::Fixed("{"@),
            TokenKind::RBrace => kind.spelling() == "}"@ && kind@ == TokenView::Fixed("}"@),
            TokenKind::LBracket => kind.spelling() == "["@ && kind@ == TokenView::Fixed("["@),
            TokenKind::RBracket => kind.spelling() == "]"@ && kind@ == TokenView::Fixed("]"@),
            TokenKind::Semi => kind.spelling() == ";"@ && kind@ == TokenView::Fixed(";"@),
            TokenKind::Comma => kind.spelling() == ","@ && kind@ == TokenView::Fixed(","@),
            TokenKind::Dot => kind.spelling() == "."@ && kind@ == TokenView::Fixed("."@),
            TokenKind::Colon => kind.spelling() == ":"@ && kind@ == TokenView::Fixed(":"@),
            TokenKind::ColonColon => kind.spelling() == "::"@ && kind@ == TokenView::Fixed("::"@),
            TokenKind::Eq => kind.spelling() == "="@ && kind@ == TokenView::Fixed("="@),
            TokenKind::EqEq => kind.spelling() == "=="@ && kind@ == TokenView::Fixed("=="@),
            TokenKind::FatArrow => kind.spelling() == "=>"@ && kind@ == TokenView::Fixed("=>"@),
            TokenKind::Lt => kind.spelling() == "<"@ && kind@ == TokenView::Fixed("<"@),
            TokenKind::Le => kind.spelling() == "<="@ && kind@ == TokenView::Fixed("<="@),
            TokenKind::Gt => kind.spelling() == ">"@ && kind@ == TokenView::Fixed(">"@),
            TokenKind::Ge => kind.spelling() == ">="@ && kind@ == TokenView::Fixed(">="@),
            TokenKind::Bang => kind.spelling() == "!"@ && kind@ == TokenView::Fixed("!"@),
            TokenKind::BangEq => kind.spelling() == "!="@ && kind@ == TokenView::Fixed("!="@),
            TokenKind::AmpAmp => kind.spelling() == "&&"@ && kind@ == TokenView::Fixed("&&"@),
            TokenKind::PipePipe => kind.spelling() == "||"@ && kind@ == TokenView::Fixed("||"@),
            TokenKind::Plus => kind.spelling() == "+"@ && kind@ == TokenView::Fixed("+"@),
            TokenKind::Minus => kind.spelling() == "-"@ && kind@ == TokenView::Fixed("-"@),
            TokenKind::Arrow => kind.spelling() == "->"@ && kind@ == TokenView::Fixed("->"@),
            TokenKind::Star => kind.spelling() == "*"@ && kind@ == TokenView::Fixed("*"@),
            TokenKind::Slash => kind.spelling() == "/"@ && kind@ == TokenView::Fixed("/"@),
            TokenKind::Percent => kind.spelling() == "%"@ && kind@ == TokenView::Fixed("%"@),
            TokenKind::KwInt => kind.spelling() == "int"@ && kind@ == TokenView::Fixed("int"@),
            TokenKind::KwString => kind.spelling() == "string"@ && kind@ == TokenView::Fixed("string"@),
            TokenKind::KwBool => kind.spelling() == "bool"@ && kind@ == TokenView::Fixed("bool"@),
            TokenKind::KwFloat => kind.spelling() == "float"@ && kind@ == TokenView::Fixed("float"@),
            TokenKind::KwChar => kind.spelling() == "char"@ && kind@ == TokenView::Fixed("char"@),
            TokenKind::KwPrint => kind.spelling() == "print"@ && kind@ == TokenView::Fixed("print"@),
            TokenKind::KwPrintln => kind.spelling() == "println"@ && kind@ == TokenView::Fixed("println"@),
            TokenKind::KwIf => kind.spelling() == "if"@ && kind@ == TokenView::Fixed("if"@),
            TokenKind::KwElse => kind.spelling() == "else"@ && kind@ == TokenView::Fixed("else"@),
            TokenKind::KwWhile => kind.spelling() == "while"@ && kind@ == TokenView::Fixed("while"@),
            TokenKind::KwFor => kind.spelling() == "for"@ && kind@ == TokenView::Fixed("for"@),
            TokenKind::KwFn => kind.spelling() == "fn"@ && kind@ == TokenView::Fixed("fn"@),
            TokenKind::KwReturn => kind.spelling() == "return"@ && kind@ == TokenView::Fixed("return"@),
            TokenKind::KwBreak => kind.spelling() == "break"@ && kind@ == TokenView::Fixed("break"@),
            TokenKind::KwContinue => kind.spelling() == "continue"@ && kind@ == TokenView::Fixed("continue"@),
            TokenKind::KwEnum => kind.spelling() == "enum"@ && kind@ == TokenView::Fixed("enum"@),
            TokenKind::KwMatch => kind.spelling() == "match"@ && kind@ == TokenView::Fixed("match"@),
            TokenKind::KwClass => kind.spelling() == "class"@ && kind@ == TokenView::Fixed("class"@),
            TokenKind::Int(_) => kind.spelling() == "an integer"@,
            TokenKind::Float(_) => kind.spelling() == "a floating-point number"@,
            TokenKind::Bool(_) => kind.spelling() == "a boolean"@,
            TokenKind::Str(_) => kind.spelling() == "a string"@,
            TokenKind::Char(_) => kind.spelling() == "a character"@,
            TokenKind::Ident(_) => kind.spelling() == "an identifier"@,
            TokenKind::Eof => kind.spelling() == "end of file"@,
        },
        kind matches TokenKind::Int(n) ==> kind@ == TokenView::Int(n as int),
        kind matches TokenKind::Float(bits) ==> kind@ == TokenView::Float(bits),
        kind matches TokenKind::Bool(b) ==> kind@ == TokenView::Bool(b),
        kind matches TokenKind::Char(c) ==> kind@ == TokenView::Char(c),
        kind matches TokenKind::Ident(name) ==> kind@ == TokenView::Ident(name@),
{
}

/// **The words of the language are these and no others.**
pub proof fn words_are_reserved(word: Seq<char>)
    ensures
        reserved(word) <==> (word == "int"@ || word == "string"@ || word == "bool"@ || word
            == "float"@ || word == "char"@ || word == "print"@ || word == "println"@ || word
            == "if"@ || word == "else"@ || word == "while"@ || word == "for"@ || word == "fn"@
            || word == "return"@ || word == "break"@ || word == "continue"@ || word == "enum"@
            || word == "match"@ || word == "class"@),
        keyword_of("true"@) == Some(TokenView::Bool(true)),
        keyword_of("false"@) == Some(TokenView::Bool(false)),
        reserved(word) ==> keyword_of(word) == Some(TokenView::Fixed(word)),
        !reserved(word) && word != "true"@ && word != "false"@ ==> keyword_of(word) is None,
{
    reveal_strlit("true");
    reveal_strlit("false");
    assert("true"@.len() != "false"@.len());
    words_differ(word);
}

proof fn words_differ(word: Seq<char>)
    ensures
        reserved(word) ==> word != "true"@ && word != "false"@,
{
    reveal_strlit("true");
    reveal_strlit("false");
    reveal_strlit("int");
    reveal_strlit("string");
    reveal_strlit("bool");
    reveal_strlit("float");
    reveal_strlit("char");
    reveal_strlit("print");
    reveal_strlit("println");
    reveal_strlit("if");
    reveal_strlit("else");
    reveal_strlit("while");
    reveal_strlit("for");
    reveal_strlit("fn");
    reveal_strlit("return");
    reveal_strlit("break");
    reveal_strlit("continue");
    reveal_strlit("enum");
    reveal_strlit("match");
    reveal_strlit("class");
    if reserved(word) {
        assert("true"@[0] == 't' && "false"@[0] == 'f' && "false"@[1] == 'a');
        if word.len() > 1 {
            assert(word[0] != 't');
            assert(!(word[0] == 'f' && word[1] == 'a'));
        }
    }
}

} // verus!
