//! What source text reads as, and what is said of text that does not read.

use tinyc::diag::{Diagnostic, Span};
use tinyc::lexer::lex;
use tinyc::token::{StrLit, Token, TokenKind};

fn kinds(src: &str) -> Vec<TokenKind> {
    lex(src).unwrap().into_iter().map(|t| t.kind).collect()
}

/// The characters a literal is expected to have produced.
fn chars(text: &str) -> StrLit {
    StrLit { chars: text.chars().collect(), offsets: Vec::new() }
}

/// Every diagnostic a malformed source produces, in order.
fn errors(src: &str) -> Vec<Diagnostic> {
    lex(src).unwrap_err()
}

/// The single diagnostic a malformed source produces.
///
/// Most of these sources hold one mistake, and asserting that they produce
/// one diagnostic is half of what the test is saying: the lexer carries on
/// after a bad token, so a second message would mean it had invented a
/// second mistake out of the first.
fn error(src: &str) -> Diagnostic {
    let errors = errors(src);
    assert_eq!(errors.len(), 1, "expected exactly one error, got {errors:#?}");
    errors.into_iter().next().expect("just asserted there is one")
}

#[test]
fn lexes_a_declaration() {
    assert_eq!(
        kinds("int x = 10;"),
        vec![
            TokenKind::KwInt,
            TokenKind::Ident("x".into()),
            TokenKind::Eq,
            TokenKind::Int(10),
            TokenKind::Semi,
            TokenKind::Eof,
        ]
    );
}

#[test]
fn lexes_a_float_declaration() {
    assert_eq!(
        kinds("float x = 4.5;"),
        vec![
            TokenKind::KwFloat,
            TokenKind::Ident("x".into()),
            TokenKind::Eq,
            TokenKind::Float(f64::to_bits(4.5)),
            TokenKind::Semi,
            TokenKind::Eof,
        ]
    );
}

/// The literal is rounded to the nearest `float` **once**, and however many
/// digits it takes to say which one that is.
///
/// The digits past what an `f64` can hold are the whole point here, so the
/// lint that would trim them is off: `rustc` rounds the Rust literal by the
/// same rule the lexer must, and the test is that the two agree.
#[test]
#[allow(clippy::excessive_precision)]
fn a_float_literal_is_rounded_once() {
    assert_eq!(kinds("0.1")[0], TokenKind::Float(f64::to_bits(0.1)));
    assert_eq!(kinds("10564161.55614565165161")[0], TokenKind::Float(f64::to_bits(10564161.55614565165161)));
    // Rounding an integer part and a fraction apart and adding them rounds
    // three times, and lands one step below the right answer here.
    assert_eq!(kinds("3.691709654685621")[0], TokenKind::Float(f64::to_bits(3.691709654685621)));
    assert_ne!(kinds("3.691709654685621")[0], TokenKind::Float(f64::to_bits(3.6917096546856207)));
    // And more fraction digits than a `u64` could hold is precision, not
    // size: π to thirty places is a number, not a mistake.
    assert_eq!(
        kinds("3.141592653589793238462643383279")[0],
        TokenKind::Float(f64::to_bits(std::f64::consts::PI))
    );
}

/// The two ways a number can be malformed, and the one way it can be too
/// large to name. Each says which kind of literal it was reading.
#[test]
fn a_malformed_number_says_what_was_wrong() {
    assert_eq!(error("1.").message, "a floating-point literal needs a digit after the `.`");
    assert_eq!(error("1.5f").message, "invalid suffix on floating-point literal");
    assert_eq!(error("1e9").message, "invalid suffix on integer literal");
    assert_eq!(error("99999999999999999999").message, "integer literal is too large");
    let huge = format!("{}.0", "9".repeat(400));
    assert_eq!(error(&huge).message, "floating-point literal is too large");
}

#[test]
fn spans_cover_the_token() {
    let tokens = lex("int  x = 10;").unwrap();
    assert_eq!(tokens[1].span, Span::new(5, 1)); // x
    assert_eq!(tokens[3].span, Span::new(9, 2)); // 10
}

#[test]
fn skips_line_comments() {
    assert_eq!(kinds("// hi\n;"), vec![TokenKind::Semi, TokenKind::Eof]);
}

#[test]
fn decodes_escapes() {
    assert_eq!(kinds(r#""a\n\"b""#), vec![TokenKind::Str(chars("a\n\"b")), TokenKind::Eof]);
}

#[test]
fn lexes_the_bool_keyword_and_its_literals() {
    assert_eq!(
        kinds("bool b = true;"),
        vec![
            TokenKind::KwBool,
            TokenKind::Ident("b".into()),
            TokenKind::Eq,
            TokenKind::Bool(true),
            TokenKind::Semi,
            TokenKind::Eof,
        ]
    );
    assert_eq!(kinds("false"), vec![TokenKind::Bool(false), TokenKind::Eof]);
}

#[test]
fn two_character_operators_win_over_their_prefixes() {
    assert_eq!(
        kinds("<= < == = >= > != ! -> -"),
        vec![
            TokenKind::Le,
            TokenKind::Lt,
            TokenKind::EqEq,
            TokenKind::Eq,
            TokenKind::Ge,
            TokenKind::Gt,
            TokenKind::BangEq,
            TokenKind::Bang,
            TokenKind::Arrow,
            TokenKind::Minus,
            TokenKind::Eof,
        ]
    );
}

#[test]
fn a_lone_bang_is_the_negation_operator() {
    // `!` and `!=` share a first character, so the two-character form has to
    // win when it is really there and lose when it is not.
    assert_eq!(
        kinds("!x != !y"),
        vec![
            TokenKind::Bang,
            TokenKind::Ident("x".into()),
            TokenKind::BangEq,
            TokenKind::Bang,
            TokenKind::Ident("y".into()),
            TokenKind::Eof,
        ]
    );
}

#[test]
fn lexes_the_logical_operators() {
    assert_eq!(
        kinds("a && b || c"),
        vec![
            TokenKind::Ident("a".into()),
            TokenKind::AmpAmp,
            TokenKind::Ident("b".into()),
            TokenKind::PipePipe,
            TokenKind::Ident("c".into()),
            TokenKind::Eof,
        ]
    );
}

#[test]
fn a_single_ampersand_or_pipe_is_an_error() {
    // Neither is an operator on its own, so the doubled spelling is the only
    // thing they can have been meant as.
    for (src, doubled) in [("a & b", "&&"), ("a | b", "||")] {
        let error = error(src);
        assert!(error.message.contains("unexpected character"), "{src}: {}", error.message);
        assert!(
            error.label.as_deref().unwrap().contains(doubled),
            "{src}: {:?}",
            error.label
        );
        assert_eq!(error.span, Span::new(2, 1), "{src}");
    }
}

#[test]
fn lexes_the_enum_and_match_punctuation() {
    assert_eq!(
        kinds("Color::Red => "),
        vec![
            TokenKind::Ident("Color".into()),
            TokenKind::ColonColon,
            TokenKind::Ident("Red".into()),
            TokenKind::FatArrow,
            TokenKind::Eof,
        ]
    );
}

#[test]
fn an_equals_has_three_spellings_and_the_longest_wins() {
    assert_eq!(
        kinds("== => ="),
        vec![TokenKind::EqEq, TokenKind::FatArrow, TokenKind::Eq, TokenKind::Eof]
    );
}

#[test]
fn a_colon_is_doubled_only_when_it_really_is() {
    // A single `:` introduces a base class and separates a field from its
    // value, so the qualifier has to win only when the second one is there.
    assert_eq!(
        kinds("Circle : Shape"),
        vec![
            TokenKind::Ident("Circle".into()),
            TokenKind::Colon,
            TokenKind::Ident("Shape".into()),
            TokenKind::Eof,
        ]
    );
    assert_eq!(
        kinds("a::b"),
        vec![
            TokenKind::Ident("a".into()),
            TokenKind::ColonColon,
            TokenKind::Ident("b".into()),
            TokenKind::Eof,
        ]
    );
}

#[test]
fn lexes_a_field_access() {
    assert_eq!(
        kinds("self.r"),
        vec![
            TokenKind::Ident("self".into()),
            TokenKind::Dot,
            TokenKind::Ident("r".into()),
            TokenKind::Eof,
        ]
    );
}

#[test]
fn a_doubled_operator_is_one_token_not_two() {
    // `&&&` is `&&` followed by a lone `&`, which stops the lexer.
    assert_eq!(kinds("&&"), vec![TokenKind::AmpAmp, TokenKind::Eof]);
    assert!(error("&&&").message.contains("unexpected character `&`"));
}

#[test]
fn lexes_control_flow_keywords_and_braces() {
    assert_eq!(
        kinds("if else while for { }"),
        vec![
            TokenKind::KwIf,
            TokenKind::KwElse,
            TokenKind::KwWhile,
            TokenKind::KwFor,
            TokenKind::LBrace,
            TokenKind::RBrace,
            TokenKind::Eof,
        ]
    );
}

#[test]
fn only_the_exact_spellings_are_reserved() {
    // The keyword match runs on the whole identifier, not on a prefix.
    assert_eq!(kinds("trueish"), vec![TokenKind::Ident("trueish".into()), TokenKind::Eof]);
    assert_eq!(kinds("_true"), vec![TokenKind::Ident("_true".into()), TokenKind::Eof]);
}

#[test]
fn reports_unterminated_string_at_the_quote() {
    let errors = lex("string s = \"oops;\n").unwrap_err();
    assert_eq!(errors[0].span, Span::new(11, 1));
}

#[test]
fn reports_integer_overflow() {
    let errors = lex("int x = 99999999999999999999;").unwrap_err();
    assert!(errors[0].message.contains("too large"));
}

#[test]
fn lexes_a_function_declaration() {
    assert_eq!(
        kinds("fn add(int a, int b) -> int { return a + b; }"),
        vec![
            TokenKind::KwFn,
            TokenKind::Ident("add".into()),
            TokenKind::LParen,
            TokenKind::KwInt,
            TokenKind::Ident("a".into()),
            TokenKind::Comma,
            TokenKind::KwInt,
            TokenKind::Ident("b".into()),
            TokenKind::RParen,
            TokenKind::Arrow,
            TokenKind::KwInt,
            TokenKind::LBrace,
            TokenKind::KwReturn,
            TokenKind::Ident("a".into()),
            TokenKind::Plus,
            TokenKind::Ident("b".into()),
            TokenKind::Semi,
            TokenKind::RBrace,
            TokenKind::Eof
        ]
    )
}

// -- token vocabulary --------------------------------------------------

#[test]
fn lexes_every_punctuation_token() {
    assert_eq!(
        kinds("( ) { } ; = + - * / % , !"),
        vec![
            TokenKind::LParen,
            TokenKind::RParen,
            TokenKind::LBrace,
            TokenKind::RBrace,
            TokenKind::Semi,
            TokenKind::Eq,
            TokenKind::Plus,
            TokenKind::Minus,
            TokenKind::Star,
            TokenKind::Slash,
            TokenKind::Percent,
            TokenKind::Comma,
            TokenKind::Bang,
            TokenKind::Eof,
        ]
    );
}

#[test]
fn lexes_every_keyword() {
    assert_eq!(
        kinds("int string bool float print if else while for fn return break continue enum match"),
        vec![
            TokenKind::KwInt,
            TokenKind::KwString,
            TokenKind::KwBool,
            TokenKind::KwFloat,
            TokenKind::KwPrint,
            TokenKind::KwIf,
            TokenKind::KwElse,
            TokenKind::KwWhile,
            TokenKind::KwFor,
            TokenKind::KwFn,
            TokenKind::KwReturn,
            TokenKind::KwBreak,
            TokenKind::KwContinue,
            TokenKind::KwEnum,
            TokenKind::KwMatch,
            TokenKind::Eof,
        ]
    );
}

#[test]
fn a_minus_is_an_arrow_only_when_a_greater_than_follows_it() {
    // The cases the sweep above cannot express: a `-` followed by something
    // other than `>`, and a `>` that is not adjacent to it.
    assert_eq!(kinds("-"), vec![TokenKind::Minus, TokenKind::Eof]);
    assert_eq!(kinds("-->"), vec![TokenKind::Minus, TokenKind::Arrow, TokenKind::Eof]);
    assert_eq!(kinds("- >"), vec![TokenKind::Minus, TokenKind::Gt, TokenKind::Eof]);
}

#[test]
fn a_negative_number_is_a_minus_and_a_literal() {
    // The lexer never produces a negative `Int`; unary minus is the parser's
    // job, which is also why `i64::MIN` cannot be written literally.
    assert_eq!(kinds("-1"), vec![TokenKind::Minus, TokenKind::Int(1), TokenKind::Eof]);
}

// -- identifiers -------------------------------------------------------

#[test]
fn a_keyword_is_never_recognised_as_a_prefix() {
    // Each of these starts with a keyword's spelling but is longer, so the
    // match on the whole identifier has to fall through to `Ident`.
    for name in [
        "fnx", "returns", "printer", "intx", "forth", "elsewhere", "boolean", "breaks",
        "continued", "enums", "matches",
    ] {
        assert_eq!(
            kinds(name),
            vec![TokenKind::Ident(name.into()), TokenKind::Eof],
            "`{name}` should be an identifier"
        );
    }
}

#[test]
fn identifiers_may_hold_underscores_and_digits() {
    // A digit may continue an identifier but may not start one, or `1a`
    // would lex as a name instead of a malformed literal.
    assert_eq!(
        kinds("_ _x1 a_b_2"),
        vec![
            TokenKind::Ident("_".into()),
            TokenKind::Ident("_x1".into()),
            TokenKind::Ident("a_b_2".into()),
            TokenKind::Eof,
        ]
    );
}

#[test]
fn identifiers_may_be_non_ascii() {
    // `is_ident_start` asks for `is_alphabetic`, not `is_ascii_alphabetic`.
    assert_eq!(kinds("café"), vec![TokenKind::Ident("café".into()), TokenKind::Eof]);
}

// -- integer literals --------------------------------------------------

#[test]
fn lexes_the_largest_int() {
    assert_eq!(kinds("9223372036854775807"), vec![TokenKind::Int(i64::MAX), TokenKind::Eof]);
}

#[test]
fn the_smallest_int_cannot_be_written_as_a_literal() {
    // `-9223372036854775808` is two tokens, and the literal half overflows
    // on its own. A known limitation, pinned here so it changes on purpose.
    assert!(error("9223372036854775808").message.contains("too large"));
}

#[test]
fn leading_zeros_are_accepted() {
    assert_eq!(kinds("007"), vec![TokenKind::Int(7), TokenKind::Eof]);
}

#[test]
fn rejects_a_suffix_on_an_integer_literal() {
    // The whole malformed token is consumed, so the caret covers `123abc`
    // instead of stopping at the first letter.
    let error = error("123abc");
    assert!(error.message.contains("invalid suffix"), "{}", error.message);
    assert_eq!(error.span, Span::new(0, 6));
}

// -- string literals ---------------------------------------------------

#[test]
fn decodes_every_escape() {
    assert_eq!(
        kinds(r#""\n\t\r\0\\\"""#),
        vec![TokenKind::Str(chars("\n\t\r\0\\\"")), TokenKind::Eof]
    );
}

#[test]
fn an_empty_string_is_valid() {
    assert_eq!(kinds(r#""""#), vec![TokenKind::Str(StrLit::default()), TokenKind::Eof]);
}

#[test]
fn a_string_holds_characters_not_bytes() {
    // The source's UTF-8 is decoded here and nowhere else, so `é` is one
    // character from this point on however many bytes it took to write.
    let token = kinds(r#""héllo""#);
    assert_eq!(token, vec![TokenKind::Str(chars("héllo")), TokenKind::Eof]);
    let TokenKind::Str(decoded) = &token[0] else { panic!("a string literal") };
    assert_eq!(decoded.chars.len(), 5, "five characters, six bytes");
}

// -- character literals ------------------------------------------------

#[test]
fn lexes_a_character_literal() {
    assert_eq!(kinds("'a'"), vec![TokenKind::Char('a'), TokenKind::Eof]);
    assert_eq!(kinds("'é'"), vec![TokenKind::Char('é'), TokenKind::Eof]);
    assert_eq!(kinds(r"'\n'"), vec![TokenKind::Char('\n'), TokenKind::Eof]);
    assert_eq!(kinds(r"'\''"), vec![TokenKind::Char('\''), TokenKind::Eof]);
}

#[test]
fn rejects_a_character_literal_holding_more_than_one() {
    // `'ab'` is a string somebody quoted the wrong way, and saying so is
    // more useful than keeping the first character.
    let error = error("'ab'");
    assert!(error.message.contains("more than one character"), "{}", error.message);
    assert_eq!(error.span, Span::new(0, 4), "the whole literal is underlined");
    assert!(error.note.is_some(), "the note points at double quotes");
}

#[test]
fn rejects_an_empty_character_literal() {
    let error = error("''");
    assert!(error.message.contains("empty character literal"), "{}", error.message);
}

#[test]
fn rejects_an_unterminated_character_literal() {
    let error = error("'a\n");
    assert!(error.message.contains("unterminated character literal"), "{}", error.message);
    assert_eq!(error.span, Span::new(0, 1), "the caret goes on the quote");
}

#[test]
fn char_is_a_keyword() {
    assert_eq!(
        kinds("char c"),
        vec![TokenKind::KwChar, TokenKind::Ident("c".to_string()), TokenKind::Eof]
    );
}

#[test]
fn a_comment_marker_inside_a_string_is_just_text() {
    assert_eq!(
        kinds(r#""// not a comment""#),
        vec![TokenKind::Str(chars("// not a comment")), TokenKind::Eof]
    );
}

#[test]
fn rejects_an_unknown_escape_and_lists_the_supported_ones() {
    let error = error(r#""a\q""#);
    assert!(error.message.contains(r"unknown escape sequence `\q`"), "{}", error.message);
    assert_eq!(error.span, Span::new(2, 2)); // the `\q`, not the whole string
    assert!(error.note.is_some(), "the note lists the escapes that do work");
}

#[test]
fn reports_an_unterminated_string_at_end_of_file() {
    // The other way a string can run out: not a newline, just no more input.
    assert_eq!(error(r#""abc"#).span, Span::new(0, 1));
}

// -- trivia ------------------------------------------------------------

#[test]
fn a_comment_may_run_to_the_end_of_the_file() {
    // `skip_trivia` stops on `None` as well as on a newline.
    assert_eq!(kinds("1 // hi"), vec![TokenKind::Int(1), TokenKind::Eof]);
}

#[test]
fn a_single_slash_is_division() {
    assert_eq!(
        kinds("1 / 2"),
        vec![TokenKind::Int(1), TokenKind::Slash, TokenKind::Int(2), TokenKind::Eof]
    );
}

#[test]
fn a_percent_is_the_remainder_operator() {
    // Nothing else starts with `%`, so it needs no lookahead at all.
    assert_eq!(
        kinds("7 % 2"),
        vec![TokenKind::Int(7), TokenKind::Percent, TokenKind::Int(2), TokenKind::Eof]
    );
}

#[test]
fn whitespace_between_tokens_is_optional() {
    assert_eq!(
        kinds("fn f(){return 1;}"),
        vec![
            TokenKind::KwFn,
            TokenKind::Ident("f".into()),
            TokenKind::LParen,
            TokenKind::RParen,
            TokenKind::LBrace,
            TokenKind::KwReturn,
            TokenKind::Int(1),
            TokenKind::Semi,
            TokenKind::RBrace,
            TokenKind::Eof,
        ]
    );
}

// -- spans and end of file ---------------------------------------------

#[test]
fn an_empty_source_is_just_end_of_file() {
    let tokens = lex("").unwrap();
    assert_eq!(tokens.len(), 1);
    assert_eq!(tokens[0].kind, TokenKind::Eof);
    assert_eq!(tokens[0].span, Span::new(0, 0));
}

#[test]
fn end_of_file_is_an_empty_span_after_the_last_byte() {
    // Parser errors are reported at this span, so it has to stay inside the
    // file for `line_col` to find a line for it.
    let tokens = lex("x").unwrap();
    assert_eq!(tokens.last().unwrap().span, Span::new(1, 0));
}

#[test]
fn spans_stay_byte_offsets_after_non_ascii_text() {
    // `é` is two bytes but one character. Spans count bytes; only the
    // rendering in `diag` converts them to a character column.
    let tokens = lex("int café = 1;").unwrap();
    assert_eq!(tokens[1].span, Span::new(4, 5)); // café: 4 chars, 5 bytes
    assert_eq!(tokens[2].span, Span::new(10, 1)); // =
}


// -- running out mid-token ---------------------------------------------

#[test]
fn a_character_literal_that_runs_out_at_the_end_of_the_file() {
    // The newline case is covered above; this is the other way a literal
    // can stop, and it reaches a different arm — there is no character
    // after the one that was allowed, not even a wrong one.
    for src in ["'a", "'ab", "'"] {
        let error = error(src);
        assert!(
            error.message.contains("unterminated character literal"),
            "`{src}`: {}",
            error.message
        );
    }
}

#[test]
fn a_backslash_at_the_end_of_the_file_leaves_the_literal_unterminated() {
    // `escape` answers `None` when the file ends inside it, and what is
    // unterminated is the *literal* rather than the escape — so this is the
    // message either kind of literal reports.
    assert!(error(r#""abc\"#).message.contains("unterminated string literal"));
    assert!(error(r"'\").message.contains("unterminated character literal"));
}

#[test]
fn a_string_may_hold_a_quote_of_the_other_kind_escaped_or_not() {
    // `\'` is accepted in a string even though nothing there needs it, so
    // that the two literals take the same escapes.
    assert_eq!(kinds(r#""it\'s""#), vec![TokenKind::Str(chars("it's")), TokenKind::Eof]);
    assert_eq!(kinds(r#""it's""#), vec![TokenKind::Str(chars("it's")), TokenKind::Eof]);
    // ... and a character literal takes `\"` for the same reason.
    assert_eq!(kinds(r#"'\"'"#), vec![TokenKind::Char('"'), TokenKind::Eof]);
}

#[test]
fn the_nul_character_can_be_written_in_both_literals() {
    assert_eq!(kinds(r"'\0'"), vec![TokenKind::Char('\0'), TokenKind::Eof]);
    assert_eq!(kinds(r#""a\0b""#), vec![TokenKind::Str(chars("a\0b")), TokenKind::Eof]);
}

#[test]
fn a_string_literal_may_not_run_past_the_end_of_its_line() {
    // A real newline ends it; `\n` is how one is put *in* it.
    let found = errors("\"a\nb\"");
    assert!(found[0].message.contains("unterminated string literal"), "{found:#?}");
    // Two, and both are real: the quote on the second line opens a literal
    // that is not closed either. That the lexer reads the second line at all
    // is the recovery working.
    assert_eq!(found.len(), 2, "{found:#?}");
    assert_eq!(kinds(r#""a\nb""#), vec![TokenKind::Str(chars("a\nb")), TokenKind::Eof]);
}

// -- carrying on after a bad token -------------------------------------

/// Every mistake in one pass, rather than one recompile each.
#[test]
fn a_bad_token_does_not_hide_the_ones_after_it() {
    let found = errors("int a = 1 @ 2;\nbool b = true & false;\nint c = 99999999999999999999;");
    let messages: Vec<&str> = found.iter().map(|d| d.message.as_str()).collect();
    assert_eq!(
        messages,
        vec![
            "unexpected character `@`",
            "unexpected character `&`",
            "integer literal is too large",
        ],
        "{found:#?}"
    );
    // In source order, which is the order they were made in.
    assert!(found.windows(2).all(|p| p[0].span.offset < p[1].span.offset), "{found:#?}");
}

/// A stray character costs the character, and a broken token costs its line.
///
/// The difference is the whole of the recovery rule: one character consumed
/// means the lexer never got *into* anything, so the next character is a
/// token like any other. More than one means it stopped somewhere inside,
/// and what follows is not worth reading as tokens nobody wrote.
#[test]
fn what_a_mistake_costs_depends_on_how_far_it_got() {
    // The `2` after the `@` is still lexed, on the same line.
    assert_eq!(errors("@ 2\n@ 3").len(), 2);
    // Where an unclosed literal takes the rest of its line with it, so the
    // `@` hiding behind the quote is never reported.
    let swallowed = errors("\"unclosed @ @ @\nint x = 1;");
    assert_eq!(swallowed.len(), 1, "{swallowed:#?}");
    assert!(swallowed[0].message.contains("unterminated"), "{swallowed:#?}");
}

#[test]
fn a_file_of_nothing_but_mistakes_still_ends() {
    // Every one is a character the lexer consumed, so this cannot fail to
    // make progress — but it is the shape that would loop for ever if it
    // ever stopped consuming, so it is worth a test of its own.
    let found = errors("@#$^~`?@#$^~`?");
    assert_eq!(found.len(), 14, "{found:#?}");
}

// -- trivia the lexer does not have ------------------------------------

#[test]
fn there_are_no_block_comments() {
    // `/*` is a division followed by a multiplication, and saying so here
    // is what keeps a program that expects otherwise from being read wrong.
    assert_eq!(
        kinds("1 /* 2"),
        vec![TokenKind::Int(1), TokenKind::Slash, TokenKind::Star, TokenKind::Int(2),
             TokenKind::Eof]
    );
}

#[test]
fn a_carriage_return_is_whitespace_like_any_other() {
    // A file with Windows line endings has one before every newline, so a
    // lexer that did not skip it would fail on half the world's files.
    assert_eq!(
        kinds("int\r\nx\r\n"),
        vec![TokenKind::KwInt, TokenKind::Ident("x".into()), TokenKind::Eof]
    );
    // Including at the end of a comment, which stops at the newline.
    assert_eq!(kinds("// hi\r\n1"), vec![TokenKind::Int(1), TokenKind::Eof]);
}
// -- malformed input ---------------------------------------------------

#[test]
fn rejects_an_unexpected_character() {
    let error = error("int x = @;");
    assert!(error.message.contains("unexpected character `@`"), "{}", error.message);
    assert_eq!(error.span, Span::new(8, 1));
}

#[test]
fn a_name_may_be_written_in_any_letters_and_hold_any_numeral() {
    assert_eq!(kinds("größe")[0], TokenKind::Ident("größe".into()));
    assert_eq!(kinds("x²")[0], TokenKind::Ident("x²".into()));
    assert!(lex("²").is_err(), "a numeral is not how a name starts");
    assert!(lex("→").is_err(), "an arrow is no letter");
}

#[test]
fn every_keyword_is_a_token_of_its_own_and_every_prefix_of_one_a_name() {
    for word in ["while", "match", "continue", "println", "class"] {
        assert!(!matches!(kinds(word)[0], TokenKind::Ident(_)), "{word}");
        let prefix = &word[..word.len() - 1];
        if prefix != "printl" || tinyc::vocabulary::keyword(prefix).is_none() {
            assert_eq!(kinds(prefix)[0], TokenKind::Ident(prefix.into()), "{word}");
        }
    }
}

#[test]
fn tokens_come_in_the_order_they_were_written_and_do_not_overlap() {
    let tokens = lex("int a = 1;\nif (a <= 2) { println(\"é %d\", a); } // done").unwrap();
    assert!(tokens.windows(2).all(|p| p[0].span.offset + p[0].span.len <= p[1].span.offset));
}

#[test]
fn what_a_fixed_token_is_spelled_like_reads_as_it() {
    for token in lex("( ) { } [ ] ; , . : :: = == => < <= > >= ! != && || + - -> * / %").unwrap() {
        if token.kind != TokenKind::Eof {
            assert_eq!(kinds(&token.kind.text())[0], token.kind);
        }
    }
}

#[test]
fn two_sources_joined_by_a_newline_read_as_each_of_them() {
    let sources = ["int größe = 1", "", "x // it ends here", "\"a\\n%d\" <", "= 2.5;", "'é'"];
    for a in sources {
        for b in sources {
            let mut tokens = lex(a).unwrap();
            tokens.pop();
            let moved = a.len() + 1;
            for token in lex(b).unwrap() {
                let span = Span::new(token.span.offset + moved, token.span.len);
                let kind = match token.kind {
                    TokenKind::Str(text) => TokenKind::Str(StrLit {
                        chars: text.chars,
                        offsets: text.offsets.iter().map(|at| at + moved).collect(),
                    }),
                    kind => kind,
                };
                tokens.push(Token { kind, span });
            }
            let joined = lex(&format!("{a}\n{b}")).unwrap();
            assert_eq!(format!("{joined:?}"), format!("{tokens:?}"), "{a:?} and {b:?}");
        }
    }
}
