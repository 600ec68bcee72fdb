use squiller::parser::annotation::Parser;
use squiller::ast::{
    Annotation, ArgType, ComplexType, PrimitiveType, ResultType, SimpleType, StatementType,
    TypedIdent,
};
use squiller::lexer::annotation::Lexer;
use squiller::Span;

fn with_parser<F: FnOnce(&mut Parser)>(input: &str, f: F) {
    let all_span = Span {
        start: 0,
        end: input.len(),
    };
    let mut lexer = Lexer::new(input);
    lexer.run(all_span);
    let tokens = lexer.into_tokens();
    let mut parser = Parser::new(input, &tokens);
    f(&mut parser)
}

#[test]
fn test_parse_simple_type_primitive() {
    let input = "i64";
    with_parser(input, |p| {
        let result = p.parse_simple_type().unwrap().resolve(input);
        let expected = SimpleType::Primitive {
            inner: "i64",
            type_: PrimitiveType::I64,
        };
        assert_eq!(result, expected);
    });

    let input = "str";
    with_parser(input, |p| {
        let result = p.parse_simple_type().unwrap().resolve(input);
        let expected = SimpleType::Primitive {
            inner: "str",
            type_: PrimitiveType::Str,
        };
        assert_eq!(result, expected);
    });

    let input = "bytes";
    with_parser(input, |p| {
        let result = p.parse_simple_type().unwrap().resolve(input);
        let expected = SimpleType::Primitive {
            inner: "bytes",
            type_: PrimitiveType::Bytes,
        };
        assert_eq!(result, expected);
    });
}

#[test]
fn test_parse_simple_type_option() {
    let input = "i64?";
    with_parser(input, |p| {
        let result = p.parse_simple_type().unwrap().resolve(input);
        let expected = SimpleType::Option {
            inner: "i64",
            outer: "i64?",
            type_: PrimitiveType::I64,
        };
        assert_eq!(result, expected);
    });

    let input = "i64 ?";
    with_parser(input, |p| {
        let result = p.parse_simple_type().unwrap().resolve(input);
        let expected = SimpleType::Option {
            inner: "i64",
            outer: "i64 ?",
            type_: PrimitiveType::I64,
        };
        assert_eq!(result, expected);
    });

    // Try a few syntax errors as well.
    with_parser("(i64)?", |p| assert!(p.parse_simple_type().is_err()));
    with_parser("(i64?)", |p| assert!(p.parse_simple_type().is_err()));
}

#[test]
fn test_parse_complex_type_tuple() {
    let input = "()";
    with_parser(input, |p| {
        let result = p.parse_complex_type().unwrap().resolve(input);
        let expected = ComplexType::Tuple("()", Vec::new());
        assert_eq!(result, expected);
    });

    let input = "(i64)";
    with_parser(input, |p| {
        let result = p.parse_complex_type().unwrap().resolve(input);
        let expected = ComplexType::Tuple(
            "(i64)",
            vec![SimpleType::Primitive {
                inner: "i64",
                type_: PrimitiveType::I64,
            }],
        );
        assert_eq!(result, expected);
    });

    // Test for trailing comma too.
    let input = "(i64,)";
    with_parser(input, |p| {
        let result = p.parse_complex_type().unwrap().resolve(input);
        let expected = ComplexType::Tuple(
            "(i64,)",
            vec![SimpleType::Primitive {
                inner: "i64",
                type_: PrimitiveType::I64,
            }],
        );
        assert_eq!(result, expected);
    });

    let input = "(i64, str)";
    with_parser(input, |p| {
        let result = p.parse_complex_type().unwrap().resolve(input);
        let expected = ComplexType::Tuple(
            "(i64, str)",
            vec![
                SimpleType::Primitive {
                    inner: "i64",
                    type_: PrimitiveType::I64,
                },
                SimpleType::Primitive {
                    inner: "str",
                    type_: PrimitiveType::Str,
                },
            ],
        );
        assert_eq!(result, expected);
    });

    // Also confirm that the following are parse errors.
    let invalid_inputs: &[&'static str] = &["(,)", "(f32, <)", "(", "(f32", "(f32,"];
    for input in invalid_inputs {
        with_parser(input, |p| assert!(p.parse_complex_type().is_err()));
    }
}

#[test]
fn annotation_test_parse_typed_ident() {
    let input = "id: i64";
    with_parser(input, |p| {
        let result = p.parse_typed_ident().unwrap().resolve(input);
        let expected = TypedIdent {
            ident: "id",
            type_: SimpleType::Primitive {
                inner: "i64",
                type_: PrimitiveType::I64,
            },
        };
        assert_eq!(result, expected);
    });
}

#[test]
fn test_parse_annotation_basic() {
    let input = "@query drop_table_users()";
    with_parser(input, |p| {
        let result = p.parse_annotation().unwrap();
        let expected = Annotation {
            name: "drop_table_users",
            arguments: ArgType::Args(vec![]),
            result_type: ResultType::Unit,
        };
        assert_eq!(result.0.resolve(input), expected);
        assert_eq!(result.1, StatementType::Single);
    });
}

#[test]
fn test_parse_annotation_begin_multi_statement() {
    let input = "@begin init_schema()";
    with_parser(input, |p| {
        let result = p.parse_annotation().unwrap();
        let expected = Annotation {
            name: "init_schema",
            arguments: ArgType::Args(vec![]),
            result_type: ResultType::Unit,
        };
        assert_eq!(result.0.resolve(input), expected);
        assert_eq!(result.1, StatementType::Multi);
    });
}

#[test]
fn test_parse_annotation_query_argument() {
    // Test with wonky whitespace, and a trailing comma.
    let inputs: &[&'static str] = &[
        "@query delete_user_by_id(id: i64)",
        "@query delete_user_by_id(id: i64,)",
        "@query delete_user_by_id( id : i64 )",
    ];
    for input in inputs {
        with_parser(input, |p| {
            let result = p.parse_annotation().unwrap();
            let expected = Annotation {
                name: "delete_user_by_id",
                arguments: ArgType::Args(vec![TypedIdent {
                    ident: "id",
                    type_: SimpleType::Primitive {
                        inner: "i64",
                        type_: PrimitiveType::I64,
                    },
                }]),
                result_type: ResultType::Unit,
            };
            assert_eq!(result.0.resolve(input), expected);
            assert_eq!(result.1, StatementType::Single);
        });
    }
}

#[test]
fn test_parse_annotation_arguments_trailing_comma() {
    // Test both with and without trailing comma. Also we play with the
    // whitespace a bit here.
    let inputs: &[&'static str] = &[
        "@query get_widgets_in_range (low : i64 , high : i64 , )",
        "@query get_widgets_in_range(low:i64,high:i64,)",
    ];
    for input in inputs {
        with_parser(input, |p| {
            let result = p.parse_annotation().unwrap();
            let expected = Annotation {
                name: "get_widgets_in_range",
                arguments: ArgType::Args(vec![
                    TypedIdent {
                        ident: "low",
                        type_: SimpleType::Primitive {
                            inner: "i64",
                            type_: PrimitiveType::I64,
                        },
                    },
                    TypedIdent {
                        ident: "high",
                        type_: SimpleType::Primitive {
                            inner: "i64",
                            type_: PrimitiveType::I64,
                        },
                    },
                ]),
                result_type: ResultType::Unit,
            };
            assert_eq!(result.0.resolve(input), expected);
            assert_eq!(result.1, StatementType::Single);
        });
    }
}

#[test]
fn test_parse_annotation_result_type() {
    let input = "@query get_next_id() ->1 i64";
    with_parser(input, |p| {
        let result = p.parse_annotation().unwrap();
        let expected = Annotation {
            name: "get_next_id",
            arguments: ArgType::Args(vec![]),
            result_type: ResultType::Single(ComplexType::Simple(SimpleType::Primitive {
                inner: "i64",
                type_: PrimitiveType::I64,
            })),
        };
        assert_eq!(result.0.resolve(input), expected);
        assert_eq!(result.1, StatementType::Single);
    });
}

#[test]
fn test_error_on_unexpected_end_is_past_end() {
    let input = "id";
    with_parser(input, |p| {
        let err = p.parse_typed_ident().err().unwrap();
        assert_eq!(err.span, Span { start: 2, end: 2 });
    });

    let input = "id:";
    with_parser(input, |p| {
        let err = p.parse_typed_ident().err().unwrap();
        assert_eq!(err.span, Span { start: 3, end: 3 });
    });
}

#[test]
fn refused_type_leaves_the_parser_in_place() {
    // The first word names no type. Had it been consumed, the second
    // attempt would read the type behind it.
    let input = "string i64";
    with_parser(input, |p| {
        let first = p.parse_primitive_type().err().unwrap();
        assert_eq!(first.span, Span { start: 0, end: 6 });
        assert_eq!(first.message, "Unknown type, did you mean 'str'?");
        let second = p.parse_simple_type().err().unwrap();
        assert_eq!(second.span, Span { start: 0, end: 6 });
        let third = p.parse_complex_type().err().unwrap();
        assert_eq!(third.span, Span { start: 0, end: 6 });
    });

    // A typed identifier is refused at the token that does not fit.
    let input = "a: string i64";
    with_parser(input, |p| {
        let first = p.parse_typed_ident().err().unwrap();
        assert_eq!(first.span, Span { start: 3, end: 9 });
        let (span, _) = p.parse_primitive_type().err().map(|e| (e.span, 0)).unwrap();
        assert_eq!(span, Span { start: 3, end: 9 });
    });
}
