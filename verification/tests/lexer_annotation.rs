use squiller::lexer::annotation::{Lexer, Token};
use squiller::Span;

fn check_tokens(input: &str, expected_tokens: &[(Token, &str)]) {
    let span = Span {
        start: 0,
        end: input.len(),
    };
    let mut lexer = Lexer::new(input);
    lexer.run(span);

    for (i, expected) in expected_tokens.iter().enumerate() {
        assert!(
            lexer.tokens().len() > i,
            "Lexer has too few tokens, expected {} but got {}.",
            expected_tokens.len(),
            lexer.tokens().len(),
        );
        let actual = &lexer.tokens()[i];
        let actual_str = &input[actual.1.start..actual.1.end];
        assert_eq!(
            (actual.0, actual_str),
            *expected,
            "Mismatch at token {}.",
            i,
        );
    }
}

#[test]
fn annotation_test_lex_no_arguments() {
    check_tokens(
        " @query get_foo() -> i64;",
        &[
            (Token::Marker, "@query"),
            (Token::Ident, "get_foo"),
            (Token::LParen, "("),
            (Token::RParen, ")"),
            (Token::Arrow, "->"),
            (Token::Ident, "i64"),
            (Token::Semicolon, ";"),
        ],
    );
}

#[test]
fn annotation_test_lex_generic_return_type() {
    check_tokens(
        "@query get_foo ( ) -> User?;",
        &[
            (Token::Marker, "@query"),
            (Token::Ident, "get_foo"),
            (Token::LParen, "("),
            (Token::RParen, ")"),
            (Token::Arrow, "->"),
            (Token::Ident, "User"),
            (Token::Question, "?"),
            (Token::Semicolon, ";"),
        ],
    );
}

#[test]
fn annotation_test_lex_tuple_return_type() {
    check_tokens(
        "@query get_name_and_age() -> (String, i64);",
        &[
            (Token::Marker, "@query"),
            (Token::Ident, "get_name_and_age"),
            (Token::LParen, "("),
            (Token::RParen, ")"),
            (Token::Arrow, "->"),
            (Token::LParen, "("),
            (Token::Ident, "String"),
            (Token::Comma, ","),
            (Token::Ident, "i64"),
            (Token::RParen, ")"),
            (Token::Semicolon, ";"),
        ],
    );
}

#[test]
fn annotation_test_lex_single_simple_argument() {
    check_tokens(
        "@query get_user_by_name(name: &str) -> User;",
        &[
            (Token::Marker, "@query"),
            (Token::Ident, "get_user_by_name"),
            (Token::LParen, "("),
            (Token::Ident, "name"),
            (Token::Colon, ":"),
            (Token::Ident, "&str"),
            (Token::RParen, ")"),
            (Token::Arrow, "->"),
            (Token::Ident, "User"),
            (Token::Semicolon, ";"),
        ],
    );
}

#[test]
fn annotation_test_lex_double_simple_argument() {
    check_tokens(
        // Spice it up a bit, also omit the spaces.
        "@query get_nearest_beacon(lng:f64,lat:f64)->i64;",
        &[
            (Token::Marker, "@query"),
            (Token::Ident, "get_nearest_beacon"),
            (Token::LParen, "("),
            (Token::Ident, "lng"),
            (Token::Colon, ":"),
            (Token::Ident, "f64"),
            (Token::Comma, ","),
            (Token::Ident, "lat"),
            (Token::Colon, ":"),
            (Token::Ident, "f64"),
            (Token::RParen, ")"),
            (Token::Arrow, "->"),
            (Token::Ident, "i64"),
            (Token::Semicolon, ";"),
        ],
    );
}

#[test]
fn lex_bogus_input_with_at() {
    // The fuzzer found this input to cause OOM, this is a regression test.
    let input = "-@";
    check_tokens(input, &[(Token::Minus, "-"), (Token::Marker, "@")]);
}

#[test]
fn lex_subset_of_input_shoud_keep_token_end_in_bounds() {
    let input = "\"a\"";
    let span = Span { start: 1, end: 2 };
    let mut lexer = Lexer::new(input);
    lexer.run(span);

    assert_eq!(lexer.tokens().len(), 1);
    let (token, token_span) = lexer.tokens()[0];

    assert_eq!(token, Token::Ident);
    assert_eq!(token_span, span);
}

#[test]
fn lex_question_mark_is_token() {
    // This is a regression test for a bug in parsing ? as a token, when
    // that was first added.
    let input = "i64?";
    check_tokens(input, &[(Token::Ident, "i64"), (Token::Question, "?")]);
}

#[test]
fn lex_annotation_test_lex_no_arguments() {
    check_tokens(
        " @query get_foo() -> i64;",
        &[
            (Token::Marker, "@query"),
            (Token::Ident, "get_foo"),
            (Token::LParen, "("),
            (Token::RParen, ")"),
            (Token::Arrow, "->"),
            (Token::Ident, "i64"),
            (Token::Semicolon, ";"),
        ],
    );
}

#[test]
fn lex_annotation_test_lex_tuple_return_type() {
    check_tokens(
        "@query get_name_and_age() -> (String, i64);",
        &[
            (Token::Marker, "@query"),
            (Token::Ident, "get_name_and_age"),
            (Token::LParen, "("),
            (Token::RParen, ")"),
            (Token::Arrow, "->"),
            (Token::LParen, "("),
            (Token::Ident, "String"),
            (Token::Comma, ","),
            (Token::Ident, "i64"),
            (Token::RParen, ")"),
            (Token::Semicolon, ";"),
        ],
    );
}

#[test]
fn lex_annotation_test_lex_single_simple_argument() {
    check_tokens(
        "@query get_user_by_name(name: &str) -> User;",
        &[
            (Token::Marker, "@query"),
            (Token::Ident, "get_user_by_name"),
            (Token::LParen, "("),
            (Token::Ident, "name"),
            (Token::Colon, ":"),
            (Token::Ident, "&str"),
            (Token::RParen, ")"),
            (Token::Arrow, "->"),
            (Token::Ident, "User"),
            (Token::Semicolon, ";"),
        ],
    );
}

#[test]
fn lex_annotation_test_lex_double_simple_argument() {
    check_tokens(
        // Spice it up a bit, also omit the spaces.
        "@query get_nearest_beacon(lng:f64,lat:f64)->i64;",
        &[
            (Token::Marker, "@query"),
            (Token::Ident, "get_nearest_beacon"),
            (Token::LParen, "("),
            (Token::Ident, "lng"),
            (Token::Colon, ":"),
            (Token::Ident, "f64"),
            (Token::Comma, ","),
            (Token::Ident, "lat"),
            (Token::Colon, ":"),
            (Token::Ident, "f64"),
            (Token::RParen, ")"),
            (Token::Arrow, "->"),
            (Token::Ident, "i64"),
            (Token::Semicolon, ";"),
        ],
    );
}
