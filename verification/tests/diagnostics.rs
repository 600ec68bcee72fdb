use squiller::ast::{Section, SimpleType};
use squiller::error::{
    highlight_span_in_line, report, snippet, Diagnostic, Error, ParseError, TypeError,
};
use squiller::lexer::annotation::Lexer as AnnotationLexer;
use squiller::lexer::document::Lexer;
use squiller::lexer::document::Token::{
    CommentEnd, CommentInner, CommentStart, DoubleQuoted, Ident, Param, Punct, Semicolon,
    SingleQuoted,
};
use squiller::parser::annotation::Parser as AnnotationParser;
use squiller::parser::document::Parser;
use squiller::{NamedDocument, Span};

fn lex_error(input: &str) -> ParseError {
    Lexer::new(input).run().err().unwrap()
}

fn annotation_error(input: &str) -> ParseError {
    let mut lexer = AnnotationLexer::new(input);
    lexer.run(Span { start: 0, end: input.len() });
    let tokens = lexer.into_tokens();
    let mut parser = AnnotationParser::new(input, &tokens);
    parser.parse_annotation().err().unwrap()
}

fn type_error_message(input: &str) -> &'static str {
    let mut lexer = AnnotationLexer::new(input);
    lexer.run(Span { start: 0, end: input.len() });
    let tokens = lexer.into_tokens();
    let mut parser = AnnotationParser::new(input, &tokens);
    parser.parse_simple_type().err().unwrap().message
}

fn document_error(input: &str) -> ParseError {
    let tokens = Lexer::new(input).run().unwrap();
    let mut parser = Parser::new(input, &tokens);
    parser.parse_document().err().unwrap()
}

fn process_error(input: &str) -> Diagnostic {
    NamedDocument::process_input("q.sql", input.as_bytes()).err().unwrap()
}

#[test]
fn lexer_reports_each_of_its_errors() {
    let err = lex_error("a \x01\x02 b\n\x03");
    assert_eq!(err.message, "Control characters are not supported here.");
    // The error is as long as there are control bytes from its start on,
    // the line feed among them.
    assert_eq!(err.span, Span { start: 2, end: 6 });

    let err = lex_error("select é, ü");
    assert_eq!(err.message, "Non-ascii characters are not supported here.");
    assert_eq!(err.span, Span { start: 7, end: 11 });

    let err = lex_error("select \"name");
    assert_eq!(err.message, "Unexpected end of input, string literal is not closed.");
    assert_eq!(err.span, Span { start: 7, end: 12 });

    let err = lex_error("select 'it\\'s");
    assert_eq!(err.message, "Unexpected end of input, string literal is not closed.");
    assert_eq!(err.span, Span { start: 7, end: 13 });

    let err = lex_error("a /* b *");
    assert_eq!(err.message, "Unclosed /* */ comment.");
    assert_eq!(err.span, Span { start: 2, end: 8 });
    assert_eq!(err.note, None);
}

#[test]
fn lexer_accepts_anything_in_strings_and_comments() {
    let input = "select 'é\x01', \"ü\" -- ñ\x02\n/* ö */ from _t where a<>:b1_c and 2x = ::text or c = :d;";
    let tokens = Lexer::new(input).run().unwrap();
    let kinds: Vec<_> = tokens
        .iter()
        .filter(|t| t.0 != squiller::lexer::document::Token::Space)
        .map(|t| (t.0, t.1.resolve(input)))
        .collect();
    assert_eq!(
        kinds,
        vec![
            (Ident, "select"),
            (SingleQuoted, "'é\x01'"),
            (Punct, ","),
            (DoubleQuoted, "\"ü\""),
            (CommentStart, "--"),
            (CommentInner, " ñ\x02"),
            (CommentStart, "/*"),
            (CommentInner, " ö "),
            (CommentEnd, "*/"),
            (Ident, "from"),
            (Punct, "_"),
            (Ident, "t"),
            (Ident, "where"),
            (Ident, "a"),
            // A colon behind other punctuation is part of that punctuation.
            (Punct, "<>:"),
            (Ident, "b1_c"),
            (Ident, "and"),
            (Ident, "2x"),
            (Punct, "="),
            (Punct, "::"),
            (Ident, "text"),
            (Ident, "or"),
            (Ident, "c"),
            (Punct, "="),
            (Param, ":d"),
            (Semicolon, ";"),
        ],
    );
}

#[test]
fn annotation_parser_reports_each_of_its_errors() {
    let cases: &[(&str, &str, &str)] = &[
        ("query q()", "Invalid annotation, expected '@query' or '@begin' here.", "query"),
        ("@select q()", "Invalid annotation, expected '@query' or '@begin' here.", "@select"),
        ("@query ()", "Expected an identifier here.", "("),
        ("@query q", "Expected a '(' here to start the query arguments.", ""),
        ("@query q(:", "Expected an identifier here.", ":"),
        ("@query q(a i64)", "Expected a ':' here before the start of the type.", "i64"),
        ("@query q(a: )", "Expected a type here.", ")"),
        ("@query q(a:", "Unexpected end of input, expected a type here.", ""),
        (
            "@query q(a: i64 b: i64)",
            "Unexpected token in query arguments, expected ')' or ',' here.",
            "b",
        ),
        (
            "@query q(a: i64",
            "Unexpected end of input, expected ')' to close the query arguments.",
            "",
        ),
        (
            "@query q(a: (i64, str))",
            "Tuples can only be used in result types, not in arguments.",
            "(i64, str)",
        ),
        (
            "@query q(a: i64, b: (i64))",
            "Tuples can only be used in result types, not in arguments.",
            "(i64)",
        ),
        (
            "@query q(a: i64, u: User)",
            "Struct arguments can only be used in queries that take a single argument.",
            "User",
        ),
        (
            "@query q() i64",
            "Expected either the end of the annotation and start of the query, or '->' followed by a cardinality and result type.",
            "i64",
        ),
        ("@query q() ->1", "Unexpected end of input, expected a type here.", ""),
        ("@query q() ->* (i64 str)", "Unexpected token inside a tuple, expected ',' or ')' here.", "str"),
        ("@query q() ->? (i64", "Unexpected end of input, a tuple is not closed.", ""),
        ("@query q() ->1 ?", "Expected a type here.", "?"),
        ("@query q() ->1 (?)", "Expected a primitive type here.", "?"),
        (
            "@query q() ->1 (i64,",
            "Unexpected end of input, expected a primitive type here.",
            "",
        ),
    ];
    for (input, message, place) in cases {
        let err = annotation_error(input);
        assert_eq!(err.message, *message, "for {}", input);
        assert_eq!(err.span.resolve(input), *place, "for {}", input);
    }
    let err = annotation_error("@query q(a: i64");
    assert_eq!(err.span, Span { start: 15, end: 15 });
    assert_eq!(err.note, Some(("Unmatched '(' opened here.", Span { start: 8, end: 9 })));
}

#[test]
fn unknown_types_get_a_suggestion() {
    assert_eq!(type_error_message("String"), "Unknown type, did you mean 'str'?");
    assert_eq!(type_error_message("STR"), "Unknown type, did you mean 'str'?");
    assert_eq!(type_error_message("int"), "Unknown type, did you mean 'i32' or 'i64'?");
    assert_eq!(type_error_message("BigInt"), "Unknown type, did you mean 'i32' or 'i64'?");
    assert_eq!(type_error_message("u8"), "Unknown type, did you mean 'i32' or 'i64'?");
    assert_eq!(type_error_message("I64"), "Unknown type, did you mean 'i32' or 'i64'?");
    assert_eq!(type_error_message("double"), "Unknown type, did you mean 'f32' or 'f64'?");
    assert_eq!(type_error_message("Float8"), "Unknown type, did you mean 'f32' or 'f64'?");
    assert_eq!(
        type_error_message("nullable"),
        "Unknown type, did you mean to put '?' behind a type to make it optional?",
    );
    assert_eq!(
        type_error_message("Optional"),
        "Unknown type, did you mean to put '?' behind a type to make it optional?",
    );
    assert_eq!(type_error_message("uuid"), "Unknown type, expected a primitive type here.");
    assert_eq!(type_error_message("Bytes"), "Unknown type, expected a primitive type here.");
}

#[test]
fn all_primitive_types_are_known() {
    for (name, type_) in [
        ("str", squiller::ast::PrimitiveType::Str),
        ("i32", squiller::ast::PrimitiveType::I32),
        ("i64", squiller::ast::PrimitiveType::I64),
        ("f32", squiller::ast::PrimitiveType::F32),
        ("f64", squiller::ast::PrimitiveType::F64),
        ("bytes", squiller::ast::PrimitiveType::Bytes),
    ] {
        let mut lexer = AnnotationLexer::new(name);
        lexer.run(Span { start: 0, end: name.len() });
        let tokens = lexer.into_tokens();
        let mut parser = AnnotationParser::new(name, &tokens);
        let parsed = parser.parse_primitive_type().unwrap();
        assert_eq!(parsed, (Span { start: 0, end: name.len() }, type_));
        let simple = SimpleType::Primitive { inner: parsed.0, type_ };
        assert_eq!(simple.inner_type(), type_);
        assert_eq!(simple.span(), parsed.0);
        let option = SimpleType::Option { outer: Span { start: 0, end: 9 }, inner: parsed.0, type_ };
        assert_eq!(option.span(), Span { start: 0, end: 9 });
        assert!(!simple.is_equal_to(&option));
        assert!(option.is_equal_to(&option));
    }
}

#[test]
fn document_parser_reports_each_of_its_errors() {
    let cases: &[(&str, &str, &str, Option<(&str, &str)>)] = &[
        ("-- @query q()\nselect 1 )", "Found unmatched ')'.", ")", None),
        ("-- @query q()\nselect 1 ]", "Found unmatched ']'.", "]", None),
        ("-- @query q()\nselect 1 }", "Found unmatched '}'.", "}", None),
        (
            "-- @query q()\nselect ( 1 ];",
            "Expected ')'.",
            "]",
            Some(("Unmatched '(' opened here.", "(")),
        ),
        (
            "-- @query q()\nselect [ 1 };",
            "Expected ']'.",
            "}",
            Some(("Unmatched '[' opened here.", "[")),
        ),
        (
            "-- @query q()\nselect { 1 );",
            "Expected '}'.",
            ")",
            Some(("Unmatched '{' opened here.", "{")),
        ),
        (
            "-- @query q()\nselect { 1 ;",
            "Expected '}'.",
            ";",
            Some(("Unmatched '{' opened here.", "{")),
        ),
        (
            "-- @query q()\nselect 1",
            "Unexpected end of input, annotated query does not end with ';'.",
            "",
            None,
        ),
        ("-- @query q()\n", "Unexpected end of input, expected query after annotation.", "", None),
        (
            "-- @query q()\nselect , /* :i64 */ 1;",
            "Invalid type annotation, expected an identifier or parameter before the annotation.",
            " :i64 ",
            None,
        ),
        (
            "-- @query q()\nselect a /* : */;",
            "Empty type annotation, expected a type after the ':'.",
            " ",
            None,
        ),
        (
            "-- @begin q()\nselect 1;\n",
            "Expected a SQL statement here.",
            "",
            None,
        ),
    ];
    for (input, message, place, note) in cases {
        let err = document_error(input);
        assert_eq!(err.message, *message, "for {}", input);
        assert_eq!(err.span.resolve(input), *place, "for {}", input);
        let note = note.map(|(text, at)| (text, at));
        assert_eq!(err.note.map(|(text, at)| (text, at.resolve(input))), note, "for {}", input);
    }
}

#[test]
fn unclosed_bracket_at_the_end_points_at_the_outermost() {
    let input = "-- @query q()\nselect ( [ 1 ;";
    let err = document_error(input);
    assert_eq!(err.message, "Expected ')'.");
    assert_eq!(err.span.resolve(input), ";");
    assert_eq!(err.note, Some(("Unmatched '(' opened here.", Span { start: 21, end: 22 })));
}

#[test]
fn type_resolver_reports_each_of_its_errors() {
    let cases: &[(&str, &str, &str, Option<&str>, bool)] = &[
        (
            "-- @query q(a: i64, a: str)\nselect :a;",
            "Redefinition of argument.",
            "a: str",
            Some("a: i64"),
            false,
        ),
        (
            "-- @query q() ->1 T\nselect a /* :i64 */, a /* :i64 */;",
            "Redefinition of query output.",
            "a /* :i64 */;",
            Some("a /* :i64 */, a"),
            false,
        ),
        ("-- @query q()\nselect :a;", "Undefined query parameter.", ":a;", None, true),
        (
            "-- @query q(t: T)\nselect 1;",
            "Annotation contains a struct argument, but the query body contains no typed query parameters.",
            "T)",
            None,
            true,
        ),
        (
            "-- @query q()\nselect :a /* :i64 */;",
            "Cannot create a field, query has no struct parameter.",
            ":a /*",
            None,
            true,
        ),
        (
            "-- @query q() ->1 T\nselect 1;",
            "The annotation specifies a struct as result type, but the query body contains no annotated outputs.",
            "T\n",
            None,
            true,
        ),
        (
            "-- @query q() ->1 i64\nselect a /* :i64 */;",
            "Cannot create a field, query does not return a struct.",
            "a /*",
            None,
            true,
        ),
        (
            "-- @query q()\nselect a /* :i64 */;",
            "Cannot create a field, query does not return a struct.",
            "a /*",
            None,
            true,
        ),
    ];
    for (input, message, from, note_from, has_hint) in cases {
        let err = process_error(input);
        assert!(matches!(err, Diagnostic::Type(..)), "for {}", input);
        assert_eq!(err.message(), *message, "for {}", input);
        assert!(input[err.span().start..].starts_with(from), "for {}", input);
        match note_from {
            Some(text) => {
                let (note, place) = err.note().unwrap();
                assert_eq!(note, "First defined here.");
                assert!(input[place.start..].starts_with(text), "for {}", input);
            }
            None => assert_eq!(err.note(), None),
        }
        assert_eq!(err.hint().is_some(), *has_hint, "for {}", input);
    }
    let err = process_error("-- @query q() ->1 i64\nselect a /* :i64 */;");
    assert_eq!(
        err.hint(),
        Some("Annotated outputs in the query body become fields of a struct, so this query would need to return a struct."),
    );
}

#[test]
fn type_errors_are_built_as_asked() {
    let at = Span { start: 1, end: 2 };
    let other = Span { start: 3, end: 5 };
    let plain = TypeError::new(at, "Plain.");
    assert_eq!((plain.span(), plain.message(), plain.note(), plain.hint()), (at, "Plain.", None, None));
    let noted = TypeError::with_note(at, "Noted.", other, "See here.");
    assert_eq!(noted.note(), Some(("See here.", other)));
    assert_eq!(noted.hint(), None);
    let hinted = TypeError::with_hint(at, "Hinted.", "Try this.");
    assert_eq!(hinted.note(), None);
    assert_eq!(hinted.hint(), Some("Try this."));
    let diagnostic = Diagnostic::from(hinted);
    assert_eq!(diagnostic.message(), "Hinted.");
    assert_eq!(diagnostic.hint(), Some("Try this."));
    let parse = Diagnostic::from(ParseError { span: other, message: "Parse.", note: Some(("Note.", at)) });
    assert_eq!(parse.span(), other);
    assert_eq!(parse.note(), Some(("Note.", at)));
    assert_eq!(parse.hint(), None);
    assert_eq!(other.len(), 2);
    assert_eq!(other.trim_start(1), Span { start: 4, end: 5 });
}

#[test]
fn snippet_shows_line_and_column() {
    let text = snippet("a.sql", 12, 7, "select x from y", 7, 3, "<c>");
    assert_eq!(
        text,
        "  --> a.sql:12:7\n   |\n12 | select x from y\n   |        <c>^~~\x1b[0m\n",
    );
    let text = snippet("b.sql", 100000, 0, "", 0, 1, "");
    assert_eq!(text, "      --> b.sql:100000:0\n       |\n100000 | \n       | ^\x1b[0m\n");
    let text = snippet("c", 0, 10, "x", 0, 0, "");
    assert_eq!(text, " --> c:0:10\n  |\n0 | x\n  | ^\x1b[0m\n");
}

#[test]
fn highlight_measures_the_displayed_width() {
    // Two wide characters take four columns and six bytes.
    let input = "a\nselect 'ＡＢ' x\nb".as_bytes();
    let span = Span { start: 18, end: 19 };
    assert_eq!(&input[18..19], b"x");
    let text = highlight_span_in_line("w.sql", input, span, "");
    assert_eq!(text, " --> w.sql:2:16\n  |\n2 | select 'ＡＢ' x\n  |               ^\x1b[0m\n");
    // A mark over the wide characters is four columns wide.
    let span = Span { start: 10, end: 16 };
    let text = highlight_span_in_line("w.sql", input, span, "");
    assert_eq!(text, " --> w.sql:2:8\n  |\n2 | select 'ＡＢ' x\n  |         ^~~~\x1b[0m\n");
}

#[test]
fn highlight_stops_at_the_end_of_the_line() {
    let input = b"a 'b\nc' d";
    let span = Span { start: 2, end: 7 };
    let text = highlight_span_in_line("m.sql", input, span, "");
    assert_eq!(text, " --> m.sql:1:2\n  |\n1 | a 'b\n  |   ^~\x1b[0m\n");
}

#[test]
fn highlight_replaces_what_is_no_utf8() {
    let input = b"ab\xffcd";
    let span = Span { start: 2, end: 3 };
    let text = highlight_span_in_line("u.sql", input, span, "");
    assert_eq!(text, " --> u.sql:1:2\n  |\n1 | ab\u{fffd}cd\n  |   ^\x1b[0m\n");
}

#[test]
fn report_shows_error_note_and_hint() {
    let input = "-- @query q()\nselect ( 1 ];";
    let err = process_error(input);
    let text = report(&err, "q.sql", input.as_bytes());
    assert_eq!(
        text,
        " --> q.sql:2:11\n  |\n2 | select ( 1 ];\n  |            \x1b[31;1m^\x1b[0m\n\
         \x1b[31;1mError:\x1b[0m Expected ')'.\n\
         \n --> q.sql:2:7\n  |\n2 | select ( 1 ];\n  |        \x1b[33;1m^\x1b[0m\n\
         \x1b[33;1mNote:\x1b[0m Unmatched '(' opened here.\n",
    );
    let input = "-- @query q()\nselect :a;";
    let err = process_error(input);
    let text = report(&err, "q.sql", input.as_bytes());
    assert_eq!(
        text,
        " --> q.sql:2:7\n  |\n2 | select :a;\n  |        \x1b[31;1m^~\x1b[0m\n\
         \x1b[31;1mError:\x1b[0m Undefined query parameter.\n\
         \n\x1b[33;1mHint:\x1b[0m Define the parameter in the query signature, or add a type annotation here.\n",
    );
}

#[test]
fn comments_before_an_annotation_are_its_docs() {
    let input = "-- Get a thing.\n-- It is nice.\n-- @query q()\n-- ->1 i64\nselect 1;";
    let named = NamedDocument::process_input("q.sql", input.as_bytes()).unwrap();
    let sections = named.document.resolve(input).sections;
    assert_eq!(sections.len(), 1);
    match &sections[0] {
        Section::Query(query) => {
            assert_eq!(query.docs, vec![" Get a thing.", " It is nice."]);
            assert_eq!(query.annotation.name, "q");
            assert!(query.annotation.result_type.get().is_some());
        }
        _ => panic!("Expected a query."),
    }
}

#[test]
fn result_type_gives_its_row_type() {
    let input = "-- @query q() ->* (i64, str?)\nselect 1, 'a';";
    let mut named = NamedDocument::process_input("q.sql", input.as_bytes()).unwrap();
    match &mut named.document.sections[0] {
        Section::Query(query) => {
            let row = query.annotation.result_type.get_mut().unwrap();
            match row {
                squiller::ast::ComplexType::Tuple(span, elements) => {
                    assert_eq!(span.resolve(input), "(i64, str?)");
                    assert_eq!(elements.len(), 2);
                    elements.pop();
                }
                _ => panic!("Expected a tuple."),
            }
            match query.annotation.result_type.get() {
                Some(squiller::ast::ComplexType::Tuple(_, elements)) => assert_eq!(elements.len(), 1),
                _ => panic!("Expected a tuple."),
            }
        }
        _ => panic!("Expected a query."),
    }
}

#[test]
fn highlight_shows_an_empty_line_as_empty() {
    let input = b"a\n\nb\n";
    let span = Span { start: 2, end: 2 };
    let text = highlight_span_in_line("e.sql", input, span, "");
    assert_eq!(text, " --> e.sql:2:0\n  |\n2 | \n  | ^\x1b[0m\n");
    // The line feed that ends a line belongs to that line.
    let span = Span { start: 1, end: 2 };
    let text = highlight_span_in_line("e.sql", input, span, "");
    assert_eq!(text, " --> e.sql:1:1\n  |\n1 | a\n  |  ^\x1b[0m\n");
}
