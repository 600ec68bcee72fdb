use squiller::ast::{
    ArgType, ComplexType, Fragment, PrimitiveType, Query, ResultType, Section, SimpleType,
    StatementType, TypedIdent,
};
use squiller::error::{Diagnostic, Error};
use squiller::{NamedDocument, Span};

fn process(input: &str) -> Result<NamedDocument<'_>, Diagnostic> {
    NamedDocument::process_input("input.sql", input.as_bytes())
}

fn single_query<'a>(named: &'a NamedDocument<'a>) -> Query<&'a str> {
    let queries = named.document.iter_queries();
    assert_eq!(queries.len(), 1);
    queries[0].resolve(named.input)
}

fn primitive(name: &'static str, type_: PrimitiveType) -> SimpleType<&'static str> {
    SimpleType::Primitive { inner: name, type_ }
}

fn typed(ident: &'static str, name: &'static str, type_: PrimitiveType) -> TypedIdent<&'static str> {
    TypedIdent { ident, type_: primitive(name, type_) }
}

#[test]
fn accepts_query_with_argument_list() {
    let input = "-- @query insert_user(name: str, email: str) ->1 i64\n\
                 insert into users (name, email) values (:name, :email) returning id;\n";
    let named = process(input).unwrap();
    assert_eq!(named.fname, "input.sql");
    assert_eq!(named.input, input);
    let query = single_query(&named);
    assert_eq!(query.annotation.name, "insert_user");
    assert_eq!(
        query.annotation.arguments,
        ArgType::Args(vec![
            typed("name", "str", PrimitiveType::Str),
            typed("email", "str", PrimitiveType::Str),
        ]),
    );
    assert_eq!(
        query.annotation.result_type,
        ResultType::Single(ComplexType::Simple(primitive("i64", PrimitiveType::I64))),
    );
    assert_eq!(query.statement_type, StatementType::Single);
    assert_eq!(query.statements.len(), 1);
    assert_eq!(
        query.statements[0].fragments,
        vec![
            Fragment::Verbatim("insert into users (name, email) values ("),
            Fragment::Param(":name"),
            Fragment::Verbatim(", "),
            Fragment::Param(":email"),
            Fragment::Verbatim(") returning id;"),
        ],
    );
}

#[test]
fn accepts_query_with_struct_result() {
    let input = "-- @query select_user_by_id(id: i64) ->1 User\n\
                 select id /* :i64 */, name /* :str */, email /* :str */\n  \
                 from users where id = :id;\n";
    let named = process(input).unwrap();
    let query = single_query(&named);
    assert_eq!(
        query.annotation.result_type,
        ResultType::Single(ComplexType::Struct(
            "User",
            vec![
                typed("id", "i64", PrimitiveType::I64),
                typed("name", "str", PrimitiveType::Str),
                typed("email", "str", PrimitiveType::Str),
            ],
        )),
    );
}

#[test]
fn accepts_query_with_struct_argument() {
    let input = "-- @query upsert(user: User)\n\
                 insert into users (name, email) values (:name /* :str */, :email /* :str */);\n";
    let named = process(input).unwrap();
    let query = single_query(&named);
    assert_eq!(
        query.annotation.arguments,
        ArgType::Struct {
            var_name: "user",
            struct_name: "User",
            fields: vec![
                typed("name", "str", PrimitiveType::Str),
                typed("email", "str", PrimitiveType::Str),
            ],
        },
    );
    assert_eq!(query.annotation.result_type, ResultType::Unit);
}

#[test]
fn rejects_bare_arrow() {
    let input = "-- @query q() -> i64\nselect 1;\n";
    let err = process(input).err().unwrap();
    assert!(matches!(err, Diagnostic::Parse(..)));
    assert_eq!(err.span().resolve(input), "->");
    assert!(err.message().contains("->?"));
    assert!(err.message().contains("->1"));
    assert!(err.message().contains("->*"));
}

#[test]
fn rejects_unbalanced_bracket() {
    let input = "-- @query q()\nselect ( from t;\n";
    let err = process(input).err().unwrap();
    assert!(matches!(err, Diagnostic::Parse(..)));
    assert_eq!(err.message(), "Expected ')'.");
    assert_eq!(err.span().resolve(input), ";");
    let (note, note_span) = err.note().unwrap();
    assert_eq!(note, "Unmatched '(' opened here.");
    assert_eq!(note_span, Span { start: 21, end: 22 });
    assert_eq!(note_span.resolve(input), "(");
}

#[test]
fn rejects_unknown_parameter() {
    let input = "-- @query q(id: i64)\nselect * from t where id = :id and email = :email;\n";
    let err = process(input).err().unwrap();
    assert!(matches!(err, Diagnostic::Type(..)));
    assert_eq!(err.span().resolve(input), ":email");
    assert_eq!(err.message(), "Undefined query parameter.");
    assert_eq!(
        err.hint(),
        Some("Define the parameter in the query signature, or add a type annotation here."),
    );
    assert_eq!(err.note(), None);
}

#[test]
fn whitespace_only_is_one_verbatim_section() {
    let input = " \n\t \n\n  ";
    let named = process(input).unwrap();
    assert_eq!(
        named.document.resolve(input).sections,
        vec![Section::Verbatim(" \n\t \n\n  ")],
    );
}

#[test]
fn empty_input_has_no_sections() {
    let named = process("").unwrap();
    assert_eq!(named.document.sections.len(), 0);
    assert_eq!(named.document.iter_queries().len(), 0);
}

#[test]
fn blank_line_ends_verbatim_section() {
    let input = "create table t (id int);\n\ncreate table u (id int);\n";
    let named = process(input).unwrap();
    assert_eq!(
        named.document.resolve(input).sections,
        vec![
            Section::Verbatim("create table t (id int);\n\n"),
            Section::Verbatim("create table u (id int);\n"),
        ],
    );
}

#[test]
fn typed_parameter_that_disagrees_with_argument_is_rejected() {
    let input = "-- @query q(id: i64)\nselect * from t where id = :id /* :str */;\n";
    let err = process(input).err().unwrap();
    assert!(matches!(err, Diagnostic::Type(..)));
    assert_eq!(err.message(), "Parameter type differs from an earlier definition.");
    assert_eq!(err.span().resolve(input), "str");
    let (note, note_span) = err.note().unwrap();
    assert_eq!(note, "First defined here.");
    assert_eq!(note_span.resolve(input), "i64");
}

#[test]
fn typed_parameter_that_agrees_with_argument_still_needs_a_struct() {
    let input = "-- @query q(id: i64)\nselect * from t where id = :id /* :i64 */;\n";
    let err = process(input).err().unwrap();
    assert!(matches!(err, Diagnostic::Type(..)));
    assert_eq!(err.message(), "Cannot create a field, query has no struct parameter.");
    assert_eq!(err.span().resolve(input), ":id");
}

#[test]
fn invalid_utf8_is_marked() {
    let input = b"select \xff from t;";
    let err = NamedDocument::process_input("input.sql", input).err().unwrap();
    assert!(matches!(err, Diagnostic::Parse(..)));
    assert_eq!(err.message(), "This input is not valid UTF-8.");
    assert_eq!(err.span(), Span { start: 7, end: 8 });
}

#[test]
fn truncated_utf8_is_marked_without_length() {
    let input = b"ab\xe2\x82";
    let err = squiller::str_from_utf8(input).err().unwrap();
    assert_eq!(err.span, Span { start: 2, end: 2 });
    assert_eq!(squiller::str_from_utf8(b"caf\xc3\xa9").unwrap(), "café");
}
