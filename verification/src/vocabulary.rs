//! The words of the language.

use vstd::prelude::*;

use crate::token::{TokenKind, TokenView};

verus! {

/// Whether a word is reserved, other than the two truth values.
pub open spec fn reserved(word: Seq<char>) -> bool {
    ||| word == "int"@
    ||| word == "string"@
    ||| word == "bool"@
    ||| word == "float"@
    ||| word == "char"@
    ||| word == "print"@
    ||| word == "println"@
    ||| word == "if"@
    ||| word == "else"@
    ||| word == "while"@
    ||| word == "for"@
    ||| word == "fn"@
    ||| word == "return"@
    ||| word == "break"@
    ||| word == "continue"@
    ||| word == "enum"@
    ||| word == "match"@
    ||| word == "class"@
}

/// The token a word is, where the language gives the word a meaning of its own.
pub open spec fn keyword_of(word: Seq<char>) -> Option<TokenView> {
    if word == "true"@ {
        Some(TokenView::Bool(true))
    } else if word == "false"@ {
        Some(TokenView::Bool(false))
    } else if reserved(word) {
        Some(TokenView::Fixed(word))
    } else {
        None
    }
}

/// The token `word` is, or `None` where it is a name like any other. Only the
/// exact spelling counts: a longer word that starts like one is a name.
pub fn keyword(word: &str) -> (kind: Option<TokenKind>)
    ensures
        match kind {
            Some(kind) => keyword_of(word@) == Some(kind@),
            None => keyword_of(word@) is None,
        },
{
    if word.eq("true") {
        Some(TokenKind::Bool(true))
    } else if word.eq("false") {
        Some(TokenKind::Bool(false))
    } else if word.eq("int") {
        Some(TokenKind::KwInt)
    } else if word.eq("string") {
        Some(TokenKind::KwString)
    } else if word.eq("bool") {
        Some(TokenKind::KwBool)
    } else if word.eq("float") {
        Some(TokenKind::KwFloat)
    } else if word.eq("char") {
        Some(TokenKind::KwChar)
    } else if word.eq("print") {
        Some(TokenKind::KwPrint)
    } else if word.eq("println") {
        Some(TokenKind::KwPrintln)
    } else if word.eq("if") {
        Some(TokenKind::KwIf)
    } else if word.eq("else") {
        Some(TokenKind::KwElse)
    } else if word.eq("while") {
        Some(TokenKind::KwWhile)
    } else if word.eq("for") {
        Some(TokenKind::KwFor)
    } else if word.eq("fn") {
        Some(TokenKind::KwFn)
    } else if word.eq("return") {
        Some(TokenKind::KwReturn)
    } else if word.eq("break") {
        Some(TokenKind::KwBreak)
    } else if word.eq("continue") {
        Some(TokenKind::KwContinue)
    } else if word.eq("enum") {
        Some(TokenKind::KwEnum)
    } else if word.eq("match") {
        Some(TokenKind::KwMatch)
    } else if word.eq("class") {
        Some(TokenKind::KwClass)
    } else {
        None
    }
}

} // verus!
