use squiller::typecheck::QueryChecker;
use squiller::ast::{
    ArgType, ComplexType, PrimitiveType, Query, ResultType, Section, SimpleType, TypedIdent,
};
use squiller::error::Result;
use squiller::lexer::document::Lexer;
use squiller::parser::document::Parser;
use squiller::Span;

fn check_and_resolve_query(input: &str) -> Result<Query<Span>> {
    let lexer = Lexer::new(&input);
    let tokens = lexer.run()?;
    let mut parser = Parser::new(&input, &tokens);
    let mut doc = parser.parse_document()?;

    assert_eq!(
        doc.sections.len(),
        1,
        "Input should consist of a single section."
    );
    let query = match doc.sections.pop().unwrap() {
        Section::Verbatim(..) => panic!("Expected input to be a single query."),
        Section::Query(q) => q,
    };

    Ok(QueryChecker::check_and_resolve(&input, query)?)
}

#[test]
fn fill_input_struct_populates_top_level() {
    let input = "\
      -- @query f(user: User) ->1 i64
      select
        max(karma)
      from
        users
      where
        id = :id /* :i64 */
        and name = :name /* :str */
      ;";

    let expected = ArgType::Struct {
        var_name: "user",
        struct_name: "User",
        fields: vec![
            TypedIdent {
                ident: "id",
                type_: SimpleType::Primitive {
                    inner: "i64",
                    type_: PrimitiveType::I64,
                },
            },
            TypedIdent {
                ident: "name",
                type_: SimpleType::Primitive {
                    inner: "str",
                    type_: PrimitiveType::Str,
                },
            },
        ],
    };

    let query = check_and_resolve_query(input).unwrap();
    assert_eq!(query.annotation.arguments.resolve(&input), expected);
}

#[test]
fn fill_output_struct_populates_top_level() {
    let input = "\
      -- @query get_admin() ->1 User
      select
        id   /* :i64 */,
        name /* :str */
      from
        users
      where
        id = 13
      ;";

    let query = check_and_resolve_query(input).unwrap();
    match query.annotation.result_type.resolve(&input) {
        ResultType::Single(ComplexType::Struct("User", fields)) => {
            let expected = [
                TypedIdent {
                    ident: "id",
                    type_: SimpleType::Primitive {
                        inner: "i64",
                        type_: PrimitiveType::I64,
                    },
                },
                TypedIdent {
                    ident: "name",
                    type_: SimpleType::Primitive {
                        inner: "str",
                        type_: PrimitiveType::Str,
                    },
                },
            ];
            assert_eq!(&fields, &expected);
        }
        _ => panic!("Incorrect result type."),
    }
}

#[test]
fn fill_output_struct_populates_inner_types() {
    let input = "\
      -- @query iterate_parents() ->* Node
      select
        id        /* :i64 */,
        parent_id /* :i64? */
      from
        nodes
      ;";

    let query = check_and_resolve_query(input).unwrap();
    match query.annotation.result_type.resolve(&input) {
        ResultType::Iterator(inner) => match inner {
            ComplexType::Struct("Node", fields) => {
                let expected = [
                    TypedIdent {
                        ident: "id",
                        type_: SimpleType::Primitive {
                            inner: "i64",
                            type_: PrimitiveType::I64,
                        },
                    },
                    TypedIdent {
                        ident: "parent_id",
                        type_: SimpleType::Option {
                            outer: "i64?",
                            inner: "i64",
                            type_: PrimitiveType::I64,
                        },
                    },
                ];
                assert_eq!(&fields, &expected);
            }
            _ => panic!("Incorrect result type."),
        },
        _ => panic!("Incorrect result type."),
    }
}
