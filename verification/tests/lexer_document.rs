use squiller::lexer::document::{Lexer, Token};
use squiller::Span;

fn test_tokens(input: &str, expected_tokens: &[(Token, &str)]) {
    let tokens = Lexer::new(input).run().expect("Failed to lex at all.");

    for (i, expected) in expected_tokens.iter().enumerate() {
        assert!(
            tokens.len() > i,
            "Lexer has too few tokens, expected {} but got {}.",
            expected_tokens.len(),
            tokens.len(),
        );
        let actual = &tokens[i];
        let actual_str = &input[actual.1.start..actual.1.end];
        assert_eq!(
            (actual.0, actual_str),
            *expected,
            "Mismatch at token {}.",
            i,
        );
    }
}

#[test]
fn it_lexes_simple_tokens() {
    let input = r#"
        -- Comment
        SELECT 'a' FROM "b" WHERE :c = 1;
        "#;
    test_tokens(
        input,
        &[
            (Token::Space, "\n        "),
            (Token::CommentStart, "--"),
            (Token::CommentInner, " Comment"),
            (Token::Space, "\n        "),
            (Token::Ident, "SELECT"),
            (Token::Space, " "),
            (Token::SingleQuoted, "'a'"),
            (Token::Space, " "),
            (Token::Ident, "FROM"),
            (Token::Space, " "),
            (Token::DoubleQuoted, "\"b\""),
            (Token::Space, " "),
            (Token::Ident, "WHERE"),
            (Token::Space, " "),
            (Token::Param, ":c"),
            (Token::Space, " "),
            (Token::Punct, "="),
            (Token::Space, " "),
            (Token::Ident, "1"),
            (Token::Semicolon, ";"),
        ],
    );
}

#[test]
fn it_lexes_inline_comments() {
    let input = r#"
        SELECT /* hello */ FROM
        "#;
    test_tokens(
        input,
        &[
            (Token::Space, "\n        "),
            (Token::Ident, "SELECT"),
            (Token::Space, " "),
            (Token::CommentStart, "/*"),
            (Token::CommentInner, " hello "),
            (Token::CommentEnd, "*/"),
            (Token::Space, " "),
            (Token::Ident, "FROM"),
            (Token::Space, "\n        "),
        ],
    );
}

#[test]
fn it_lexes_semicolons_after_inline_comments() {
    let input = "SELECT /* */;";
    test_tokens(
        input,
        &[
            (Token::Ident, "SELECT"),
            (Token::Space, " "),
            (Token::CommentStart, "/*"),
            (Token::CommentInner, " "),
            (Token::CommentEnd, "*/"),
            (Token::Semicolon, ";"),
        ],
    );
}

#[test]
fn ascii_control_bytes_result_in_error() {
    let input = "\x01";
    let error = Lexer::new(input).run().err().unwrap();
    assert_eq!(error.span, Span { start: 0, end: 1 });
    assert!(error.message.contains("Control characters"));
}

#[test]
fn non_ascii_sequences_result_in_error() {
    let input = "Älmhult";
    let error = Lexer::new(input).run().err().unwrap();
    assert_eq!(error.span.resolve(input), "Ä");
    assert_eq!(error.span, Span { start: 0, end: 2 });
    assert!(error.message.contains("Non-ascii"));
}

#[test]
fn unmatched_quotes_result_in_error() {
    let input = "an 'unclosed";
    let error = Lexer::new(input).run().err().unwrap();
    assert_eq!(
        error.span,
        Span {
            start: 3,
            end: input.len()
        }
    );
    assert_eq!(error.span.resolve(input), "'unclosed");
}

#[test]
fn unmatched_inline_comment_reports_error_at_comment_start() {
    let input = "select /* unclosed";
    let error = Lexer::new(input).run().err().unwrap();
    assert_eq!(
        error.span,
        Span {
            start: "select ".len(),
            end: input.len()
        }
    );
    assert_eq!(error.span.resolve(input), "/* unclosed");
}
