use squiller::parser::document::Parser;
use squiller::ast::{
    Annotation, ArgType, ComplexType, Fragment, PrimitiveType, Query, ResultType, Section,
    SimpleType, Statement, StatementType, TypedIdent,
};
use squiller::error::{Diagnostic, Error};
use squiller::lexer::document::Lexer;
use squiller::Span;

fn with_document_parser<F: FnOnce(&mut Parser)>(input: &str, f: F) {
    let tokens = Lexer::new(input).run().expect("Failed to lex the input.");
    let mut parser = Parser::new(input, &tokens);
    f(&mut parser)
}

#[test]
fn parse_section_handles_newline_in_annotation() {
    let input = "
    -- @query multiline_signature(
    --   key: str,
    --   value: str,
    -- ) ->* i64
    SELECT * FROM kv;
    ";
    with_document_parser(input, |p| {
        let result = p.parse_section().unwrap().resolve(input);
        let expected = Section::Query(Query {
            docs: vec![],
            annotation: Annotation {
                name: "multiline_signature",
                arguments: ArgType::Args(vec![
                    TypedIdent {
                        ident: "key",
                        type_: SimpleType::Primitive {
                            inner: "str",
                            type_: PrimitiveType::Str,
                        },
                    },
                    TypedIdent {
                        ident: "value",
                        type_: SimpleType::Primitive {
                            inner: "str",
                            type_: PrimitiveType::Str,
                        },
                    },
                ]),
                result_type: ResultType::Iterator(ComplexType::Simple(SimpleType::Primitive {
                    inner: "i64",
                    type_: PrimitiveType::I64,
                })),
            },
            statement_type: StatementType::Single,
            statements: vec![Statement {
                fragments: vec![Fragment::Verbatim("SELECT * FROM kv;")],
            }],
        });
        assert_eq!(result, expected);
    });
}

#[test]
fn parse_section_handles_multi_statement_query() {
    let input = "
    -- @begin drop_schema()
    DROP TABLE albums;
    DROP TABLE artists;
    -- @end drop_schema
    ";
    with_document_parser(input, |p| {
        let result = p.parse_section().unwrap().resolve(input);
        let expected = Section::Query(Query {
            docs: vec![],
            annotation: Annotation {
                name: "drop_schema",
                arguments: ArgType::Args(vec![]),
                result_type: ResultType::Unit,
            },
            statement_type: StatementType::Multi,
            statements: vec![
                Statement {
                    fragments: vec![Fragment::Verbatim("DROP TABLE albums;")],
                },
                Statement {
                    fragments: vec![Fragment::Verbatim("DROP TABLE artists;")],
                },
            ],
        });
        assert_eq!(result, expected);
    });
}

#[test]
fn unmatched_paren_at_statement_end_causes_error() {
    let input = "
    -- @query q()
    SELECT ( FROM t;
    ";
    with_document_parser(input, |p| {
        let result = p.parse_section();
        assert!(result.is_err());
        let err: Diagnostic = result.err().unwrap().into();
        assert!(err.message().contains("Expected ')'"));
    });
}

#[test]
fn empty_type_annotation_is_error() {
    let input = r#"
    -- @query q()
    SELECT id /* : */ FROM t;
    "#;
    with_document_parser(input, |p| {
        let err = p.parse_section().err().unwrap();
        let wider_span = Span {
            start: err.span.start - 2,
            end: err.span.end + 2,
        };
        assert_eq!(wider_span.resolve(input), " : */");
    });
}

#[test]
fn it_parses_a_type_annotation() {
    let input = "
    -- @query q()
    SELECT name /* : str */ FROM t;
    ";
    with_document_parser(input, |p| {
        let result = p.parse_section().unwrap();
        let query = match result {
            Section::Query(q) => q,
            _ => panic!("Expected query."),
        };
        let statements = query.resolve(input).statements;
        let fragments = &statements[0].fragments[..];
        let expected = [
            Fragment::Verbatim("SELECT "),
            Fragment::TypedIdent(
                "name /* : str */",
                TypedIdent {
                    ident: "name",
                    type_: SimpleType::Primitive {
                        inner: "str",
                        type_: PrimitiveType::Str,
                    },
                },
            ),
            Fragment::Verbatim(" FROM t;"),
        ];
        assert_eq!(fragments, expected);
    });
}

#[test]
fn it_parses_a_sinple_comment_without_newline() {
    // The fuzzer found this input to cause OOM. The problem was not in the
    // parser, but still, let's add this as a regression test.
    let input = "---@";
    with_document_parser(input, |p| {
        let result = p.parse_section().unwrap();
        assert_eq!(result.resolve(input), Section::Verbatim("---@"));
    });
}

#[test]
fn handles_typed_params_with_annotation_in_inline_comment() {
    let input = "/* @query q() */ SELECT a from b where c = :c /* :str */;";
    with_document_parser(input, |p| {
        let result = p.parse_section().unwrap().resolve(input);
        let expected = Section::Query(Query {
            docs: vec![],
            annotation: Annotation {
                name: "q",
                arguments: ArgType::Args(vec![]),
                result_type: ResultType::Unit,
            },
            statement_type: StatementType::Single,
            statements: vec![Statement {
                fragments: vec![
                    Fragment::Verbatim("SELECT a from b where c = "),
                    Fragment::TypedParam(
                        ":c /* :str */",
                        TypedIdent {
                            ident: ":c",
                            type_: SimpleType::Primitive {
                                inner: "str",
                                type_: PrimitiveType::Str,
                            },
                        },
                    ),
                    Fragment::Verbatim(";"),
                ],
            }],
        });
        assert_eq!(result, expected);
    });
}

#[test]
fn it_does_not_crash_on_invalid_type_annotation_after_ident() {
    // The fuzzer found this input to trigger an assertion failure.
    let input = "--@query q()\nx--:T";
    with_document_parser(input, |p| {
        let result = p.parse_section();
        assert!(result.is_err());
    });
}

#[test]
fn it_does_not_crash_on_invalid_type_annotation_after_param() {
    // The fuzzer found this input to trigger an assertion failure.
    let input = "--@query q()\n:x--:T";
    with_document_parser(input, |p| {
        let result = p.parse_section();
        assert!(result.is_err());
    });
}

#[test]
fn parse_statement_tiles_the_statement() {
    let input = "select a /* :i64 */ from t where b = :b /* :str */; select 2;";
    with_document_parser(input, |p| {
        let statement = p.parse_statement().unwrap();
        let spans: Vec<Span> = statement.fragments.iter().map(|f| f.span()).collect();
        assert_eq!(spans[0].start, 0);
        for pair in spans.windows(2) {
            assert_eq!(pair[0].end, pair[1].start);
        }
        assert!(matches!(statement.fragments.last(), Some(Fragment::Verbatim(_))));
        assert_eq!(spans.last().unwrap().end, input.find(';').unwrap() + 1);
        assert_eq!(statement.fragments.len(), 5);

        // The parser is behind the semicolon, at the next statement.
        let second = p.parse_statement().unwrap().resolve(input);
        assert_eq!(second.fragments, vec![Fragment::Verbatim(" select 2;")]);
    });
}

#[test]
fn refused_statement_leaves_the_parser_at_the_fault() {
    // The bracket that the refused one was compared with is taken off, the
    // outer one is still open.
    let input = "select ((a];";
    with_document_parser(input, |p| {
        let error = p.parse_statement().err().unwrap();
        assert_eq!(error.message, "Expected ')'.");
        assert_eq!(error.span, Span { start: 10, end: 11 });
        let open = p.ensure_bracket_stack_empty().err().unwrap();
        assert_eq!(open.span, Span { start: 10, end: 11 });
        assert_eq!(open.note, Some(("Unmatched '(' opened here.", Span { start: 7, end: 8 })));
    });

    // At an unclosed bracket before the semicolon, all brackets stay open.
    let input = "select (a;";
    with_document_parser(input, |p| {
        let error = p.parse_statement().err().unwrap();
        assert_eq!(error.message, "Expected ')'.");
        let open = p.ensure_bracket_stack_empty().err().unwrap();
        assert_eq!(open.span, Span { start: 9, end: 10 });
    });

    // A type comment that is refused leaves the parser at the comment.
    let input = "select a /* :int */ from t;";
    with_document_parser(input, |p| {
        let error = p.parse_statement().err().unwrap();
        assert_eq!(error.span.resolve(input), "int");
        assert!(p.ensure_bracket_stack_empty().is_ok());
    });
}
