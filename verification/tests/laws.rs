use squiller::ast::{ArgType, ComplexType, Fragment, ResultType, Section};
use squiller::error::{Diagnostic, Error};
use squiller::lexer::document::{Lexer, Token};
use squiller::parser::document::Parser;
use squiller::typecheck::check_document;
use squiller::{NamedDocument, Span};

const USERS: &str = "\
-- Users and their karma.

-- Look up one user.
-- @query select_user(id: i64) ->? User
select id /* :i64 */, name /* :str */, max(karma) as m -- not typed
from users where id = :id and (tags[1] = '{a;b}' or \"x\" = ';');

/* @begin touch(user: User) */
update users set seen = now() where id = :id /* :i64 */;
update users set name = :name /* :str? */ where id = :id /* :i64 */;
/* @end touch */
";

#[test]
fn tokens_tile_the_input() {
    let tokens = Lexer::new(USERS).run().unwrap();
    let mut at = 0;
    let mut text = String::new();
    for (_, span) in &tokens {
        assert_eq!(span.start, at);
        assert!(span.start <= span.end);
        text.push_str(span.resolve(USERS));
        at = span.end;
    }
    assert_eq!(at, USERS.len());
    assert_eq!(text, USERS);
}

#[test]
fn sections_and_fragments_tile_the_input() {
    let tokens = Lexer::new(USERS).run().unwrap();
    let mut parser = Parser::new(USERS, &tokens);
    let doc = parser.parse_document().unwrap();
    assert_eq!(doc.sections.len(), 5);
    let mut at = 0;
    let mut after_query = false;
    for section in &doc.sections {
        match section {
            Section::Verbatim(span) => {
                // What lies between the last statement of a query and the
                // next section belongs to the query: the end marker.
                if after_query {
                    assert!(at <= span.start);
                } else {
                    assert_eq!(span.start, at);
                }
                at = span.end;
                after_query = false;
            }
            Section::Query(query) => {
                after_query = true;
                for statement in &query.statements {
                    let first = statement.fragments[0].span();
                    assert!(at <= first.start);
                    at = first.start;
                    let mut text = String::new();
                    for fragment in &statement.fragments {
                        let span = fragment.span();
                        assert_eq!(span.start, at);
                        text.push_str(span.resolve(USERS));
                        at = span.end;
                    }
                    assert_eq!(text, &USERS[first.start..at]);
                    assert!(text.ends_with(';'));
                }
            }
        }
    }
    assert!(at <= USERS.len());
    match doc.sections[0] {
        Section::Verbatim(span) => assert_eq!(span.resolve(USERS), "-- Users and their karma.\n\n"),
        _ => panic!("Expected a verbatim section."),
    }
    match doc.sections[2] {
        Section::Verbatim(span) => assert_eq!(span.resolve(USERS), "\n\n"),
        _ => panic!("Expected a verbatim section."),
    }
    match doc.sections[4] {
        Section::Verbatim(span) => {
            assert_eq!(span.resolve(USERS), "*/\n");
            assert_eq!(span.end, USERS.len());
        }
        _ => panic!("Expected a verbatim section."),
    }
}

#[test]
fn brackets_in_accepted_statements_match() {
    let tokens = Lexer::new(USERS).run().unwrap();
    let mut parser = Parser::new(USERS, &tokens);
    let doc = parser.parse_document().unwrap();
    for query in doc.iter_queries() {
        for statement in &query.statements {
            let from = statement.fragments[0].span().start;
            let to = statement.fragments[statement.fragments.len() - 1].span().end;
            let mut open = Vec::new();
            for (token, span) in &tokens {
                if span.start < from || span.end > to {
                    continue;
                }
                match token {
                    Token::LParen | Token::LBracket | Token::LBrace => open.push(*token),
                    Token::RParen => assert_eq!(open.pop(), Some(Token::LParen)),
                    Token::RBracket => assert_eq!(open.pop(), Some(Token::LBracket)),
                    Token::RBrace => assert_eq!(open.pop(), Some(Token::LBrace)),
                    _ => {}
                }
            }
            assert!(open.is_empty());
        }
    }
}

#[test]
fn parameters_of_resolved_queries_are_defined() {
    let named = NamedDocument::process_input("users.sql", USERS.as_bytes()).unwrap();
    let queries = named.document.iter_queries();
    assert_eq!(queries.len(), 2);
    for query in queries {
        let query = query.resolve(USERS);
        let names: Vec<&str> = match &query.annotation.arguments {
            ArgType::Args(args) => args.iter().map(|ti| ti.ident).collect(),
            ArgType::Struct { fields, .. } => fields.iter().map(|ti| ti.ident).collect(),
        };
        let parameters = query.iter_parameters();
        assert!(!parameters.is_empty());
        for parameter in parameters {
            assert!(names.contains(&&parameter[1..]));
        }
    }
}

#[test]
fn typed_parameters_of_one_name_agree() {
    let named = NamedDocument::process_input("users.sql", USERS.as_bytes()).unwrap();
    for query in named.document.iter_queries() {
        let mut seen = Vec::new();
        for statement in &query.statements {
            for fragment in &statement.fragments {
                if let Fragment::TypedParam(_, ti) = fragment {
                    seen.push(*ti);
                }
            }
        }
        for one in &seen {
            for other in &seen {
                if one.ident.resolve(USERS) == other.ident.resolve(USERS) {
                    assert!(one.type_.is_equal_to(&other.type_));
                }
            }
        }
    }
    let differs = "-- @query q(u: U)\nselect :a /* :i64 */, :a /* :i64? */;";
    let err = NamedDocument::process_input("q.sql", differs.as_bytes()).err().unwrap();
    assert_eq!(err.message(), "Parameter type differs from an earlier definition.");
    assert_eq!(err.span().resolve(differs), "i64?");
    assert_eq!(err.note().unwrap().1.resolve(differs), "i64");
}

#[test]
fn struct_fields_are_the_typed_names_of_the_body() {
    let named = NamedDocument::process_input("users.sql", USERS.as_bytes()).unwrap();
    let queries = named.document.iter_queries();
    let select = queries[0].resolve(USERS);
    match select.annotation.result_type {
        ResultType::Option(ComplexType::Struct("User", ref fields)) => {
            let names: Vec<&str> = fields.iter().map(|ti| ti.ident).collect();
            assert_eq!(names, vec!["id", "name"]);
        }
        _ => panic!("Expected an optional struct."),
    }
    let touch = queries[1].resolve(USERS);
    match touch.annotation.arguments {
        ArgType::Struct { var_name: "user", struct_name: "User", ref fields } => {
            let names: Vec<&str> = fields.iter().map(|ti| ti.ident).collect();
            assert_eq!(names, vec!["id", "name"]);
            assert_eq!(fields[1].type_.span(), "str?");
        }
        _ => panic!("Expected a struct argument."),
    }
    assert_eq!(touch.iter_parameters(), vec![":id", ":name", ":id"]);
}

#[test]
fn check_document_keeps_verbatim_sections() {
    let input = "select 1;\n\n-- @query one() ->1 i64\nselect 1;\n";
    let tokens = Lexer::new(input).run().unwrap();
    let mut parser = Parser::new(input, &tokens);
    let doc = parser.parse_document().unwrap();
    let checked = check_document(input, doc).unwrap();
    assert_eq!(checked.sections.len(), 3);
    assert_eq!(checked.sections[0], Section::Verbatim(Span { start: 0, end: 11 }));
    assert!(matches!(checked.sections[1], Section::Query(..)));
    assert_eq!(checked.sections[2], Section::Verbatim(Span { start: 44, end: 45 }));
}

fn visible_tokens(sql: &str) -> Vec<(Token, String)> {
    Lexer::new(sql)
        .run()
        .unwrap()
        .iter()
        .filter(|t| t.0 != Token::Space)
        .map(|t| (t.0, t.1.resolve(sql).to_string()))
        .collect()
}

#[test]
fn relexing_the_sql_without_type_comments_gives_the_same_tokens() {
    let tokens = Lexer::new(USERS).run().unwrap();
    let mut parser = Parser::new(USERS, &tokens);
    let doc = parser.parse_document().unwrap();
    let mut checked = 0;
    for query in doc.iter_queries() {
        for statement in &query.statements {
            // The SQL as it is handed on: the identifiers without their
            // type comments.
            let mut sql = String::new();
            // The text of the statement with only the type comments cut
            // out of it.
            let mut cut = String::new();
            for fragment in &statement.fragments {
                match fragment {
                    Fragment::Verbatim(span) | Fragment::Param(span) => {
                        sql.push_str(span.resolve(USERS));
                        cut.push_str(span.resolve(USERS));
                    }
                    Fragment::TypedIdent(full, ti) | Fragment::TypedParam(full, ti) => {
                        sql.push_str(ti.ident.resolve(USERS));
                        let comment = tokens
                            .iter()
                            .find(|t| t.0 == Token::CommentStart && t.1.start >= ti.ident.end)
                            .unwrap();
                        assert!(comment.1.start < full.end);
                        let kept = Span { start: full.start, end: comment.1.start };
                        cut.push_str(kept.resolve(USERS));
                        assert!(kept.resolve(USERS)[ti.ident.end - full.start..].trim().is_empty());
                        checked += 1;
                    }
                }
            }
            assert_eq!(visible_tokens(&sql), visible_tokens(&cut));
        }
    }
    assert_eq!(checked, 5);
    assert_eq!(
        visible_tokens("select id , name from t where a = :b ;"),
        visible_tokens("select id, name from t where a = :b;"),
    );
}
