//! The parser of SQL documents.
//!
//! It splits the tokens of a document into sections, and the sections that
//! are annotated queries into statements and their fragments. As for the
//! annotation parser, specification functions over the bytes, the tokens and
//! a token index define what each parsing function returns.
use crate::ast::{
    Annotation, AnnotationView, Document, DocumentView, Fragment, Query, QueryView, Section,
    SectionView, Statement, StatementType, TypedIdent,
};
use crate::error::{PResult, ParseError};
use crate::lexer::annotation as ann;
use crate::lexer::annotation::{
    lemma_lex_annotation_spans, lemma_lex_annotation_valid, lex_annotation,
};
use crate::lexer::document::{contiguous, params_named, Token};
use crate::typecheck::{checkable, document_checkable, fragment_readable, statement_readable};
use crate::parser::annotation as parse_ann;
use crate::ast::resolvable_in;
use crate::error::located;
use crate::parser::layout::{
    document_tiles, lemma_document_tiles, lemma_section_spans, lemma_statement_in_order,
    section_spans, statement_spans,
};
use crate::parser::spans::{
    lemma_document_sound, lemma_section_from_sound, lemma_sound_sections_resolvable, section_sound,
    sections_sound, tokens_in_place,
};
use crate::parser::annotation::{annotation_at, simple_type_at};
use crate::text::{
    bytes_equal, count_byte, count_occurrences, find_byte, find_first, lemma_find_byte_finds,
    run_end, scan_run, ByteClass,
};
use crate::Span;
use vstd::prelude::*;
use vstd::slice::slice_subrange;
use vstd::string::StringSliceAdditionalSpecFns;

verus! {

/// Where an error is reported that is raised at token `at`: at that token,
/// or right behind the last token, or at the start of an empty input.
pub open spec fn error_span(tokens: Seq<(Token, Span)>, at: int) -> Span {
    if 0 <= at < tokens.len() {
        tokens[at].1
    } else if tokens.len() > 0 {
        Span { start: tokens.last().1.end, end: tokens.last().1.end }
    } else {
        Span { start: 0, end: 0 }
    }
}

/// The error with `message`, raised at token `at`.
pub open spec fn error_at(tokens: Seq<(Token, Span)>, at: int, message: &'static str) -> ParseError {
    ParseError { span: error_span(tokens, at), message, note: None }
}

/// Whether a token opens a bracket.
pub open spec fn is_opener(token: Token) -> bool {
    token == Token::LParen || token == Token::LBrace || token == Token::LBracket
}

/// Whether all tokens of a stack open a bracket.
pub open spec fn all_openers(stack: Seq<(Token, Span)>) -> bool {
    forall|i: int| 0 <= i < stack.len() ==> is_opener((#[trigger] stack[i]).0)
}

/// Whether a token closes a bracket.
pub open spec fn is_closer(token: Token) -> bool {
    token == Token::RParen || token == Token::RBrace || token == Token::RBracket
}

/// The token that closes what `opener` opens.
pub open spec fn closer_of(opener: Token) -> Token {
    match opener {
        Token::LParen => Token::RParen,
        Token::LBrace => Token::RBrace,
        _ => Token::RBracket,
    }
}

/// The error for a token at `at` that should have closed `opener`.
pub open spec fn unclosed_error(tokens: Seq<(Token, Span)>, at: int, opener: (Token, Span)) -> ParseError {
    match opener.0 {
        Token::LParen => ParseError {
            span: error_span(tokens, at),
            message: "Expected ')'.",
            note: Some(("Unmatched '(' opened here.", opener.1)),
        },
        Token::LBrace => ParseError {
            span: error_span(tokens, at),
            message: "Expected '}'.",
            note: Some(("Unmatched '{' opened here.", opener.1)),
        },
        _ => ParseError {
            span: error_span(tokens, at),
            message: "Expected ']'.",
            note: Some(("Unmatched '[' opened here.", opener.1)),
        },
    }
}

/// The error for a closing bracket at `at` that closes nothing.
pub open spec fn unmatched_error(tokens: Seq<(Token, Span)>, at: int) -> ParseError {
    match tokens[at].0 {
        Token::RParen => error_at(tokens, at, "Found unmatched ')'."),
        Token::RBrace => error_at(tokens, at, "Found unmatched '}'."),
        _ => error_at(tokens, at, "Found unmatched ']'."),
    }
}

/// The open brackets after the closing bracket at `at`, given those before it.
pub open spec fn close_bracket(tokens: Seq<(Token, Span)>, at: int, stack: Seq<(Token, Span)>) -> Result<
    Seq<(Token, Span)>,
    ParseError,
> {
    if stack.len() == 0 {
        Err(unmatched_error(tokens, at))
    } else if tokens[at].0 == closer_of(stack.last().0) {
        Ok(stack.drop_last())
    } else {
        Err(unclosed_error(tokens, at, stack.last()))
    }
}

/// Where the type starts in a comment that is a type comment: behind the
/// colon that is the first byte of the comment that is no whitespace.
pub open spec fn type_comment_start(bytes: Seq<u8>, comment: Span) -> Option<int> {
    let colon = run_end(bytes, comment.start as int, comment.end as int, ByteClass::Whitespace);
    if comment.start <= colon < comment.end <= bytes.len() && bytes[colon] == 0x3a {
        Some(colon + 1)
    } else {
        None
    }
}

/// The token that a type comment annotates: the first token that is no
/// whitespace, going back from token `i`, if it is an identifier or a parameter.
pub open spec fn annotated_token(tokens: Seq<(Token, Span)>, i: int) -> Option<int>
    decreases i + 1,
{
    if i < 0 || i >= tokens.len() {
        None
    } else if tokens[i].0 == Token::Space {
        annotated_token(tokens, i - 1)
    } else if tokens[i].0 == Token::Ident || tokens[i].0 == Token::Param {
        Some(i)
    } else {
        None
    }
}

/// The error for a type comment that annotates nothing.
pub open spec fn misplaced_annotation_error(tokens: Seq<(Token, Span)>, at: int) -> ParseError {
    error_at(
        tokens,
        at,
        "Invalid type annotation, expected an identifier or parameter before the annotation.",
    )
}

/// The index of the first token behind the comment whose inner token is at
/// `at`: the closing token of the comment is skipped, if it has one.
pub open spec fn behind_comment(tokens: Seq<(Token, Span)>, at: int) -> int {
    if at + 1 < tokens.len() && tokens[at + 1].0 == Token::CommentEnd {
        at + 2
    } else {
        at + 1
    }
}

/// The typed fragment that the type comment at token `at` makes, where the
/// type starts at byte `type_start` of the input: the annotated identifier
/// or parameter with its type. The fragment reaches from the annotated token
/// to the end of the comment.
pub open spec fn type_annotation_at(
    bytes: Seq<u8>,
    tokens: Seq<(Token, Span)>,
    at: int,
    type_start: int,
) -> Result<Fragment<Span>, ParseError> {
    let type_span = Span { start: type_start as usize, end: tokens[at].1.end };
    let type_tokens = lex_annotation(bytes, type_start, tokens[at].1.end as int, Seq::empty());
    if type_tokens.len() == 0 {
        Err(
            ParseError {
                span: type_span,
                message: "Empty type annotation, expected a type after the ':'.",
                note: None,
            },
        )
    } else {
        match simple_type_at(bytes, type_tokens, 0) {
            Err(e) => Err(e),
            Ok((type_, _)) => match annotated_token(tokens, at - 2) {
                None => Err(misplaced_annotation_error(tokens, at)),
                Some(target) => {
                    let full_span = Span {
                        start: tokens[target].1.start,
                        end: tokens[behind_comment(tokens, at) - 1].1.end,
                    };
                    let ident = TypedIdent { ident: tokens[target].1, type_ };
                    if tokens[target].0 == Token::Ident {
                        Ok(Fragment::TypedIdent(full_span, ident))
                    } else {
                        Ok(Fragment::TypedParam(full_span, ident))
                    }
                },
            },
        }
    }
}

/// Where the parser is inside a statement.
pub struct StatementState {
    /// The index of the token under the cursor.
    pub at: int,
    /// The brackets that are open.
    pub stack: Seq<(Token, Span)>,
    /// The fragments so far.
    pub fragments: Seq<Fragment<Span>>,
    /// Where the verbatim text starts that follows the last fragment.
    pub verbatim_from: usize,
}

/// The fragments with the verbatim text from `from` to `to` added, unless it is empty.
pub open spec fn with_verbatim(fragments: Seq<Fragment<Span>>, from: usize, to: usize) -> Seq<
    Fragment<Span>,
> {
    if from < to {
        fragments.push(Fragment::Verbatim(Span { start: from, end: to }))
    } else {
        fragments
    }
}

/// The state behind the type comment at `state.at`, given the typed
/// fragment `hole` that it makes. The verbatim text before the fragment is
/// added first. A typed parameter replaces the parameter that was added
/// when its token was read, and the verbatim text before it.
pub open spec fn after_annotation(
    tokens: Seq<(Token, Span)>,
    state: StatementState,
    hole: Fragment<Span>,
) -> Result<StatementState, ParseError> {
    let n = state.fragments.len() as int;
    let from = if hole is TypedParam && n >= 2 {
        state.fragments[n - 2].full_span().start
    } else {
        state.verbatim_from
    };
    let kept = if hole is TypedParam {
        state.fragments.subrange(0, n - 2)
    } else {
        state.fragments
    };
    if (hole is TypedParam && n < 2) || from > hole.full_span().start {
        Err(misplaced_annotation_error(tokens, state.at))
    } else {
        Ok(
            StatementState {
                at: behind_comment(tokens, state.at),
                stack: state.stack,
                fragments: with_verbatim(kept, from, hole.full_span().start).push(hole),
                verbatim_from: hole.full_span().end,
            },
        )
    }
}

/// The error at the end of a statement in which `opener` is still open.
pub open spec fn open_at_end_error(tokens: Seq<(Token, Span)>, at: int, opener: (Token, Span)) -> ParseError {
    unclosed_error(tokens, at, opener)
}

/// The statement that goes on from `state`: its fragments and the index of
/// the token behind its semicolon, or the first error.
pub open spec fn statement_from(bytes: Seq<u8>, tokens: Seq<(Token, Span)>, state: StatementState) -> Result<
    (Seq<Fragment<Span>>, int),
    ParseError,
>
    decreases tokens.len() - state.at,
{
    let at = state.at;
    if !(0 <= at < tokens.len()) {
        Err(
            error_at(
                tokens,
                at,
                "Unexpected end of input, annotated query does not end with ';'.",
            ),
        )
    } else {
        let (token, span) = tokens[at];
        if is_opener(token) {
            statement_from(
                bytes,
                tokens,
                StatementState { at: at + 1, stack: state.stack.push(tokens[at]), ..state },
            )
        } else if is_closer(token) {
            match close_bracket(tokens, at, state.stack) {
                Err(e) => Err(e),
                Ok(stack) => statement_from(
                    bytes,
                    tokens,
                    StatementState { at: at + 1, stack, ..state },
                ),
            }
        } else if token == Token::CommentInner {
            match type_comment_start(bytes, span) {
                None => statement_from(bytes, tokens, StatementState { at: at + 1, ..state }),
                Some(type_start) => match type_annotation_at(bytes, tokens, at, type_start) {
                    Err(e) => Err(e),
                    Ok(hole) => match after_annotation(tokens, state, hole) {
                        Err(e) => Err(e),
                        Ok(next) => statement_from(bytes, tokens, next),
                    },
                },
            }
        } else if token == Token::Param {
            statement_from(
                bytes,
                tokens,
                StatementState {
                    at: at + 1,
                    stack: state.stack,
                    fragments: state.fragments.push(
                        Fragment::Verbatim(Span { start: state.verbatim_from, end: span.start }),
                    ).push(Fragment::Param(span)),
                    verbatim_from: span.end,
                },
            )
        } else if token == Token::Semicolon {
            if state.stack.len() > 0 {
                Err(open_at_end_error(tokens, at, state.stack[0]))
            } else {
                Ok(
                    (
                        state.fragments.push(
                            Fragment::Verbatim(Span { start: state.verbatim_from, end: span.end }),
                        ),
                        at + 1,
                    ),
                )
            }
        } else {
            statement_from(bytes, tokens, StatementState { at: at + 1, ..state })
        }
    }
}

/// The open brackets after a closing bracket was refused: the innermost
/// one, with which it was compared, is taken off.
pub open spec fn unwound(stack: Seq<(Token, Span)>) -> Seq<(Token, Span)> {
    if stack.len() > 0 {
        stack.drop_last()
    } else {
        stack
    }
}

/// Where the parser rests when the statement that goes on from `state` is
/// refused: the index of the token that is refused, or of the type comment
/// that is, and the brackets that are open there.
pub open spec fn statement_rest(bytes: Seq<u8>, tokens: Seq<(Token, Span)>, state: StatementState) -> (
    int,
    Seq<(Token, Span)>,
)
    decreases tokens.len() - state.at,
{
    let at = state.at;
    if !(0 <= at < tokens.len()) {
        (at, state.stack)
    } else {
        let (token, span) = tokens[at];
        if is_opener(token) {
            statement_rest(
                bytes,
                tokens,
                StatementState { at: at + 1, stack: state.stack.push(tokens[at]), ..state },
            )
        } else if is_closer(token) {
            match close_bracket(tokens, at, state.stack) {
                Err(_) => (at, unwound(state.stack)),
                Ok(stack) => statement_rest(
                    bytes,
                    tokens,
                    StatementState { at: at + 1, stack, ..state },
                ),
            }
        } else if token == Token::CommentInner {
            match type_comment_start(bytes, span) {
                None => statement_rest(bytes, tokens, StatementState { at: at + 1, ..state }),
                Some(type_start) => match type_annotation_at(bytes, tokens, at, type_start) {
                    Err(_) => (at, state.stack),
                    Ok(hole) => match after_annotation(tokens, state, hole) {
                        Err(_) => (at, state.stack),
                        Ok(next) => statement_rest(bytes, tokens, next),
                    },
                },
            }
        } else if token == Token::Param {
            statement_rest(
                bytes,
                tokens,
                StatementState {
                    at: at + 1,
                    stack: state.stack,
                    fragments: state.fragments.push(
                        Fragment::Verbatim(Span { start: state.verbatim_from, end: span.start }),
                    ).push(Fragment::Param(span)),
                    verbatim_from: span.end,
                },
            )
        } else if token == Token::Semicolon {
            (at, state.stack)
        } else {
            statement_rest(bytes, tokens, StatementState { at: at + 1, ..state })
        }
    }
}

/// Where the parser rests when the statement that starts at token `at` is
/// refused.
pub open spec fn statement_rest_at(bytes: Seq<u8>, tokens: Seq<(Token, Span)>, at: int) -> (
    int,
    Seq<(Token, Span)>,
) {
    if !(0 <= at < tokens.len()) {
        (at, Seq::empty())
    } else {
        statement_rest(
            bytes,
            tokens,
            StatementState {
                at,
                stack: Seq::empty(),
                fragments: Seq::empty(),
                verbatim_from: tokens[at].1.start,
            },
        )
    }
}

/// The statement that starts at token `at`.
#[verifier::opaque]
pub open spec fn statement_at(bytes: Seq<u8>, tokens: Seq<(Token, Span)>, at: int) -> Result<
    (Seq<Fragment<Span>>, int),
    ParseError,
> {
    if !(0 <= at < tokens.len()) {
        Err(error_at(tokens, at, "Expected a SQL statement here."))
    } else {
        statement_from(
            bytes,
            tokens,
            StatementState {
                at,
                stack: Seq::empty(),
                fragments: Seq::empty(),
                verbatim_from: tokens[at].1.start,
            },
        )
    }
}

/// Whether the comment `comment` starts with the marker `@end`.
pub open spec fn is_end_marker(bytes: Seq<u8>, comment: Span) -> bool {
    let tokens = lex_annotation(bytes, comment.start as int, comment.end as int, Seq::empty());
    &&& tokens.len() > 0
    &&& tokens[0].0 == ann::Token::Marker
    &&& tokens[0].1.of(bytes) == "@end".spec_bytes()
}

/// Whether an `@end` marker follows from token `at` on, behind whitespace
/// only, and where parsing goes on: behind the comment with the marker, or
/// at `resume`, behind the whitespace that was skipped.
pub open spec fn end_marker_from(bytes: Seq<u8>, tokens: Seq<(Token, Span)>, at: int, resume: int) -> (
    bool,
    int,
)
    decreases tokens.len() - at,
{
    if !(0 <= at < tokens.len()) {
        (false, resume)
    } else if tokens[at].0 == Token::Space {
        end_marker_from(bytes, tokens, at + 1, at + 1)
    } else if tokens[at].0 == Token::CommentStart {
        end_marker_from(bytes, tokens, at + 1, resume)
    } else if tokens[at].0 == Token::CommentInner && is_end_marker(bytes, tokens[at].1) {
        (true, at + 1)
    } else {
        (false, resume)
    }
}

/// The statements of a block from token `at` on, behind the statements
/// `acc`, up to the `@end` marker.
pub open spec fn block_from(
    bytes: Seq<u8>,
    tokens: Seq<(Token, Span)>,
    at: int,
    acc: Seq<Seq<Fragment<Span>>>,
) -> Result<(Seq<Seq<Fragment<Span>>>, int), ParseError>
    decreases tokens.len() - at,
{
    let (found, next) = end_marker_from(bytes, tokens, at, at);
    if found {
        Ok((acc, next))
    } else {
        match statement_at(bytes, tokens, next) {
            Err(e) => Err(e),
            Ok((statement, behind)) => if at < behind <= tokens.len() {
                block_from(bytes, tokens, behind, acc.push(statement))
            } else {
                Ok((acc, next))
            },
        }
    }
}

/// Where the parser rests when the statements of a block from token `at`
/// on are refused.
pub open spec fn block_rest(bytes: Seq<u8>, tokens: Seq<(Token, Span)>, at: int) -> (
    int,
    Seq<(Token, Span)>,
)
    decreases tokens.len() - at,
{
    let (found, next) = end_marker_from(bytes, tokens, at, at);
    if found {
        (next, Seq::empty())
    } else {
        match statement_at(bytes, tokens, next) {
            Err(_) => statement_rest_at(bytes, tokens, next),
            Ok((_, behind)) => if at < behind <= tokens.len() {
                block_rest(bytes, tokens, behind)
            } else {
                (next, Seq::empty())
            },
        }
    }
}

/// The index of the first token from `at` on that is no part of a comment
/// and no whitespace.
pub open spec fn header_end(tokens: Seq<(Token, Span)>, at: int) -> int
    decreases tokens.len() - at,
{
    if !(0 <= at < tokens.len()) {
        at
    } else if tokens[at].0 == Token::Space || tokens[at].0 == Token::CommentStart || tokens[at].0
        == Token::CommentEnd || tokens[at].0 == Token::CommentInner {
        header_end(tokens, at + 1)
    } else {
        at
    }
}

/// The annotation whose first tokens are `collected`, and which may go on
/// in the comments from token `at` on: its value, and the index of the
/// first token that is no comment and no whitespace.
pub open spec fn header_from(
    bytes: Seq<u8>,
    tokens: Seq<(Token, Span)>,
    at: int,
    collected: Seq<(ann::Token, Span)>,
) -> Result<((AnnotationView<Span>, StatementType), int), ParseError>
    decreases tokens.len() - at,
{
    if !(0 <= at < tokens.len()) {
        Err(error_at(tokens, at, "Unexpected end of input, expected query after annotation."))
    } else if tokens[at].0 == Token::Space || tokens[at].0 == Token::CommentStart || tokens[at].0
        == Token::CommentEnd {
        header_from(bytes, tokens, at + 1, collected)
    } else if tokens[at].0 == Token::CommentInner {
        header_from(
            bytes,
            tokens,
            at + 1,
            lex_annotation(
                bytes,
                tokens[at].1.start as int,
                tokens[at].1.end as int,
                collected,
            ),
        )
    } else {
        match annotation_at(bytes, collected, 0) {
            Err(e) => Err(e),
            Ok((annotation, _)) => Ok((annotation, at)),
        }
    }
}

/// The query whose annotation starts with the tokens `collected`, from
/// token `at` on; `docs` are the comments before the annotation.
pub open spec fn query_from(
    bytes: Seq<u8>,
    tokens: Seq<(Token, Span)>,
    at: int,
    docs: Seq<Span>,
    collected: Seq<(ann::Token, Span)>,
) -> Result<(QueryView<Span>, int), ParseError> {
    match header_from(bytes, tokens, at, collected) {
        Err(e) => Err(e),
        Ok(((annotation, statement_type), first)) => match statement_at(bytes, tokens, first) {
            Err(e) => Err(e),
            Ok((statement, behind)) => match statement_type {
                StatementType::Single => Ok(
                    (
                        QueryView { docs, annotation, statement_type, statements: seq![statement] },
                        behind,
                    ),
                ),
                StatementType::Multi => match block_from(bytes, tokens, behind, seq![statement]) {
                    Err(e) => Err(e),
                    Ok((statements, end)) => Ok(
                        (QueryView { docs, annotation, statement_type, statements }, end),
                    ),
                },
            },
        },
    }
}

/// Where the parser rests when the query from token `at` on is refused: in
/// front of the statements if the annotation is, else where a statement is.
pub open spec fn query_rest(
    bytes: Seq<u8>,
    tokens: Seq<(Token, Span)>,
    at: int,
    collected: Seq<(ann::Token, Span)>,
) -> (int, Seq<(Token, Span)>) {
    match header_from(bytes, tokens, at, collected) {
        Err(_) => (header_end(tokens, at), Seq::empty()),
        Ok(((_, statement_type), first)) => match statement_at(bytes, tokens, first) {
            Err(_) => statement_rest_at(bytes, tokens, first),
            Ok((_, behind)) => match statement_type {
                StatementType::Single => (behind, Seq::empty()),
                StatementType::Multi => block_rest(bytes, tokens, behind),
            },
        },
    }
}

/// Whether the comment `comment` starts an annotation: its first token is a marker.
pub open spec fn starts_annotation(bytes: Seq<u8>, comment: Span) -> bool {
    let tokens = lex_annotation(bytes, comment.start as int, comment.end as int, Seq::empty());
    tokens.len() > 0 && tokens[0].0 == ann::Token::Marker
}

/// Whether the whitespace `space` holds a blank line: two line feeds or more.
pub open spec fn has_blank_line(bytes: Seq<u8>, space: Span) -> bool {
    count_byte(bytes, space.start as int, space.end as int, 0x0a) >= 2
}

/// The section that starts at token `first` and goes on at token `at`,
/// where `docs` are the comments read so far: what it is, and the index of
/// the first token behind it. A blank line ends a verbatim section; a
/// comment with an annotation makes the section a query.
pub open spec fn section_from(
    bytes: Seq<u8>,
    tokens: Seq<(Token, Span)>,
    first: int,
    at: int,
    docs: Seq<Span>,
) -> Result<(SectionView<Span>, int), ParseError>
    decreases tokens.len() - at,
{
    if !(0 <= first <= at < tokens.len()) {
        Ok(
            (
                SectionView::Verbatim(
                    Span { start: tokens[first].1.start, end: tokens[at - 1].1.end },
                ),
                at,
            ),
        )
    } else if tokens[at].0 == Token::Space && has_blank_line(bytes, tokens[at].1) {
        Ok(
            (
                SectionView::Verbatim(Span { start: tokens[first].1.start, end: tokens[at].1.end }),
                at + 1,
            ),
        )
    } else if tokens[at].0 == Token::CommentInner {
        if starts_annotation(bytes, tokens[at].1) {
            match query_from(
                bytes,
                tokens,
                at + 1,
                docs,
                lex_annotation(
                    bytes,
                    tokens[at].1.start as int,
                    tokens[at].1.end as int,
                    Seq::empty(),
                ),
            ) {
                Err(e) => Err(e),
                Ok((query, behind)) => Ok((SectionView::Query(query), behind)),
            }
        } else {
            section_from(bytes, tokens, first, at + 1, docs.push(tokens[at].1))
        }
    } else {
        section_from(bytes, tokens, first, at + 1, docs)
    }
}

/// Where the parser rests when the section that goes on at token `at` is
/// refused, which it is for its query.
pub open spec fn section_rest(bytes: Seq<u8>, tokens: Seq<(Token, Span)>, at: int) -> (
    int,
    Seq<(Token, Span)>,
)
    decreases tokens.len() - at,
{
    if !(0 <= at < tokens.len()) {
        (at, Seq::empty())
    } else if tokens[at].0 == Token::CommentInner && starts_annotation(bytes, tokens[at].1) {
        query_rest(
            bytes,
            tokens,
            at + 1,
            lex_annotation(bytes, tokens[at].1.start as int, tokens[at].1.end as int, Seq::empty()),
        )
    } else {
        section_rest(bytes, tokens, at + 1)
    }
}

/// The section that starts at token `at`.
pub open spec fn section_at(bytes: Seq<u8>, tokens: Seq<(Token, Span)>, at: int) -> Result<
    (SectionView<Span>, int),
    ParseError,
> {
    section_from(bytes, tokens, at, at, Seq::empty())
}

/// The sections from token `at` on, behind the sections `acc`.
pub open spec fn sections_from(
    bytes: Seq<u8>,
    tokens: Seq<(Token, Span)>,
    at: int,
    acc: Seq<SectionView<Span>>,
) -> Result<Seq<SectionView<Span>>, ParseError>
    decreases tokens.len() - at,
{
    if !(0 <= at < tokens.len()) {
        Ok(acc)
    } else {
        match section_at(bytes, tokens, at) {
            Err(e) => Err(e),
            Ok((section, behind)) => if at < behind <= tokens.len() {
                sections_from(bytes, tokens, behind, acc.push(section))
            } else {
                Ok(acc)
            },
        }
    }
}

/// Where the parser rests when the sections from token `at` on are refused.
pub open spec fn sections_rest(bytes: Seq<u8>, tokens: Seq<(Token, Span)>, at: int) -> (
    int,
    Seq<(Token, Span)>,
)
    decreases tokens.len() - at,
{
    if !(0 <= at < tokens.len()) {
        (at, Seq::empty())
    } else {
        match section_at(bytes, tokens, at) {
            Err(_) => section_rest(bytes, tokens, at),
            Ok((_, behind)) => if at < behind <= tokens.len() {
                sections_rest(bytes, tokens, behind)
            } else {
                (at, Seq::empty())
            },
        }
    }
}

/// The document that the tokens of an input spell.
pub open spec fn document_of(bytes: Seq<u8>, tokens: Seq<(Token, Span)>) -> Result<
    DocumentView<Span>,
    ParseError,
> {
    match sections_from(bytes, tokens, 0, Seq::empty()) {
        Err(e) => Err(e),
        Ok(sections) => Ok(DocumentView { sections }),
    }
}

} // verus!

verus! {

/// The model of a list of statements: the fragments of each.
pub open spec fn statements_view(statements: Seq<Statement<Span>>) -> Seq<Seq<Fragment<Span>>> {
    statements.map_values(|s: Statement<Span>| s@)
}

/// The model of a list of sections.
pub open spec fn sections_view(sections: Seq<Section<Span>>) -> Seq<SectionView<Span>> {
    sections.map_values(|s: Section<Span>| s@)
}

/// Document parser.
///
/// Parses a tokenized SQL document into a list of queries with their metadata.
pub struct Parser<'a> {
    input: &'a [u8],
    tokens: &'a [(Token, Span)],
    cursor: usize,
    /// The unclosed opening brackets (all of `()`, `[]`, `{}`) encountered.
    bracket_stack: Vec<(Token, Span)>,
}

impl<'a> Parser<'a> {
    /// The bytes of the input.
    pub closed spec fn bytes(&self) -> Seq<u8> {
        self.input@
    }

    /// The tokens that are parsed.
    pub closed spec fn toks(&self) -> Seq<(Token, Span)> {
        self.tokens@
    }

    /// The index of the token under the cursor.
    pub closed spec fn pos(&self) -> int {
        self.cursor as int
    }

    /// The brackets that are open at the cursor.
    pub closed spec fn stack(&self) -> Seq<(Token, Span)> {
        self.bracket_stack@
    }

    /// The parser can work: the tokens lie inside the input and follow each
    /// other without a gap, and what is on the bracket stack are opening
    /// brackets.
    pub open spec fn wf(&self) -> bool {
        &&& contiguous(self.toks(), self.bytes().len())
        &&& params_named(self.toks())
        &&& 0 <= self.pos() <= self.toks().len() <= usize::MAX
        &&& self.bytes().len() <= usize::MAX
        &&& all_openers(self.stack())
    }

    /// The parser is between two statements: no bracket is open.
    pub open spec fn idle(&self) -> bool {
        self.wf() && self.stack().len() == 0
    }

    /// The parser still reads the same input and tokens as `other`.
    pub open spec fn same_input(&self, other: &Self) -> bool {
        self.bytes() == other.bytes() && self.toks() == other.toks()
    }

    /// A parser at the first of the tokens, with no bracket open.
    pub fn new(input: &'a str, tokens: &'a [(Token, Span)]) -> (parser: Parser<'a>)
        ensures
            parser.bytes() == input.spec_bytes(),
            parser.toks() == tokens@,
            parser.pos() == 0,
            parser.stack().len() == 0,
            vstd::utf8::valid_utf8(parser.bytes()),
            parser.bytes().len() <= usize::MAX,
    {
        proof {
            vstd::utf8::encode_utf8_valid_utf8(input@);
        }
        let bytes = input.as_bytes();
        let _ = bytes.len();
        Parser { input: bytes, tokens: tokens, cursor: 0, bracket_stack: Vec::new() }
    }

    /// The span for an error at the current cursor location.
    fn error_location(&self) -> (span: Span)
        requires
            self.wf(),
        ensures
            span == error_span(self.toks(), self.pos()),
    {
        if self.cursor < self.tokens.len() {
            self.tokens[self.cursor].1
        } else if self.tokens.len() > 0 {
            let last: Span = self.tokens[self.tokens.len() - 1].1;
            Span { start: last.end, end: last.end }
        } else {
            Span { start: 0, end: 0 }
        }
    }

    /// Build a parse error at the current cursor location.
    fn error<T>(&self, message: &'static str) -> (r: PResult<T>)
        requires
            self.wf(),
        ensures
            r == Err::<T, ParseError>(error_at(self.toks(), self.pos(), message)),
    {
        let span = self.error_location();
        Err(ParseError { span, message, note: None })
    }

    /// Build a parse error at the current cursor location, and a note elsewhere.
    fn error_with_note<T>(&self, message: &'static str, note_span: Span, note: &'static str) -> (r:
        PResult<T>)
        requires
            self.wf(),
        ensures
            r == Err::<T, ParseError>(
                ParseError {
                    span: error_span(self.toks(), self.pos()),
                    message,
                    note: Some((note, note_span)),
                },
            ),
    {
        let span = self.error_location();
        Err(ParseError { span, message, note: Some((note, note_span)) })
    }

    /// Build the error for a bracket that is not closed where it should be.
    fn error_unclosed<T>(&self, opener: (Token, Span)) -> (r: PResult<T>)
        requires
            self.wf(),
            is_opener(opener.0),
        ensures
            r == Err::<T, ParseError>(unclosed_error(self.toks(), self.pos(), opener)),
    {
        match opener.0 {
            Token::LParen => self.error_with_note(
                "Expected ')'.",
                opener.1,
                "Unmatched '(' opened here.",
            ),
            Token::LBrace => self.error_with_note(
                "Expected '}'.",
                opener.1,
                "Unmatched '{' opened here.",
            ),
            _ => self.error_with_note("Expected ']'.", opener.1, "Unmatched '[' opened here."),
        }
    }

    /// Return the token under the cursor, if there is one.
    fn peek(&self) -> (token: Option<Token>)
        requires
            self.wf(),
        ensures
            token == if self.pos() < self.toks().len() {
                Some(self.toks()[self.pos()].0)
            } else {
                None
            },
    {
        if self.cursor < self.tokens.len() {
            Some(self.tokens[self.cursor].0)
        } else {
            None
        }
    }

    /// Advance the cursor by one token, consuming the token under the cursor.
    ///
    /// Returns the span of the consumed token.
    fn consume(&mut self) -> (span: Span)
        requires
            old(self).wf(),
            old(self).pos() < old(self).toks().len(),
        ensures
            final(self).wf(),
            final(self).same_input(old(self)),
            final(self).stack() == old(self).stack(),
            final(self).pos() == old(self).pos() + 1,
            span == old(self).toks()[old(self).pos()].1,
    {
        let result = self.tokens[self.cursor].1;
        self.cursor += 1;
        result
    }

    /// Push an opening bracket onto the stack of brackets when inside a query.
    ///
    /// Consumes the token under the cursor.
    fn push_bracket(&mut self)
        requires
            old(self).wf(),
            old(self).pos() < old(self).toks().len(),
            is_opener(old(self).toks()[old(self).pos()].0),
        ensures
            final(self).wf(),
            final(self).same_input(old(self)),
            final(self).stack() == old(self).stack().push(old(self).toks()[old(self).pos()]),
            final(self).pos() == old(self).pos() + 1,
    {
        let start_token = self.tokens[self.cursor];
        self.consume();
        self.bracket_stack.push(start_token);
    }

    /// Pop a closing bracket while verifying that it is the right one.
    ///
    /// Consumes the token under the cursor.
    fn pop_bracket(&mut self) -> (r: PResult<()>)
        requires
            old(self).wf(),
            old(self).pos() < old(self).toks().len(),
            is_closer(old(self).toks()[old(self).pos()].0),
        ensures
            final(self).wf(),
            final(self).same_input(old(self)),
            match close_bracket(old(self).toks(), old(self).pos(), old(self).stack()) {
                Ok(stack) => r is Ok && final(self).stack() == stack && final(self).pos() == old(
                    self,
                ).pos() + 1,
                Err(e) => r == Err::<(), ParseError>(e) && final(self).pos() == old(self).pos()
                    && final(self).stack() == unwound(old(self).stack()),
            },
    {
        let actual_end_token = self.tokens[self.cursor].0;
        let top = match self.bracket_stack.pop() {
            None => match actual_end_token {
                Token::RParen => return self.error("Found unmatched ')'."),
                Token::RBrace => return self.error("Found unmatched '}'."),
                _ => return self.error("Found unmatched ']'."),
            },
            Some(t) => t,
        };
        let expected_end_token = match top.0 {
            Token::LParen => Token::RParen,
            Token::LBrace => Token::RBrace,
            _ => Token::RBracket,
        };

        if actual_end_token == expected_end_token {
            self.consume();
            return Ok(());
        }
        self.error_unclosed(top)
    }

    /// Report an error if there are unclosed brackets.
    pub fn ensure_bracket_stack_empty(&self) -> (r: PResult<()>)
        requires
            self.wf(),
        ensures
            r == if self.stack().len() == 0 {
                Ok::<(), ParseError>(())
            } else {
                Err::<(), ParseError>(unclosed_error(self.toks(), self.pos(), self.stack()[0]))
            },
    {
        if self.bracket_stack.len() == 0 {
            return Ok(());
        }
        let outermost = self.bracket_stack[0];
        self.error_unclosed(outermost)
    }

    /// Parse all sections of the document, from the cursor on.
    pub fn parse_document(&mut self) -> (r: PResult<Document<Span>>)
        requires
            old(self).idle(),
        ensures
            final(self).same_input(old(self)),
            r is Err ==> final(self).wf() && (final(self).pos(), final(self).stack())
                == sections_rest(old(self).bytes(), old(self).toks(), old(self).pos()),
            match sections_from(old(self).bytes(), old(self).toks(), old(self).pos(), Seq::empty()) {
                Ok(sections) => r matches Ok(document) && document@ == (DocumentView { sections }),
                Err(e) => r == Err::<Document<Span>, ParseError>(e),
            },
            r matches Ok(document) ==> document_checkable(document@, final(self).bytes().len()),
            r matches Ok(document) ==> document_tiles(
                final(self).toks(),
                document@.sections,
                old(self).pos(),
            ),
            tokens_in_place(old(self).toks(), old(self).bytes()) ==> match r {
                Ok(document) => sections_sound(old(self).bytes(), document@.sections)
                    && document@.all(resolvable_in(old(self).bytes())),
                Err(e) => located(e, old(self).bytes().len()),
            },
    {
        proof {
            lemma_document_tiles(self.bytes(), self.toks(), self.pos());
            if tokens_in_place(self.toks(), self.bytes()) {
                lemma_document_sound(self.bytes(), self.toks(), self.pos());
                match sections_from(self.bytes(), self.toks(), self.pos(), Seq::empty()) {
                    Ok(sections) => {
                        lemma_sound_sections_resolvable(
                            self.bytes(),
                            DocumentView { sections },
                        );
                    },
                    Err(_) => {},
                }
            }
        }
        let mut sections: Vec<Section<Span>> = Vec::new();
        proof {
            assert(sections_view(sections@) =~= Seq::empty());
        }
        while self.cursor < self.tokens.len()
            invariant
                self.idle(),
                self.same_input(old(self)),
                forall|k: int|
                    0 <= k < sections@.len() ==> ((#[trigger] sections@[k])@ matches SectionView::Query(
                        query,
                    ) ==> checkable(query, self.bytes().len())),
                sections_from(self.bytes(), self.toks(), self.pos(), sections_view(sections@))
                    == sections_from(
                    old(self).bytes(),
                    old(self).toks(),
                    old(self).pos(),
                    Seq::empty(),
                ),
                sections_rest(self.bytes(), self.toks(), self.pos()) == sections_rest(
                    old(self).bytes(),
                    old(self).toks(),
                    old(self).pos(),
                ),
                tokens_in_place(old(self).toks(), old(self).bytes()) ==> match sections_from(
                    old(self).bytes(),
                    old(self).toks(),
                    old(self).pos(),
                    Seq::empty(),
                ) {
                    Ok(all) => sections_sound(old(self).bytes(), all) && (DocumentView {
                        sections: all,
                    }).all(resolvable_in(old(self).bytes())),
                    Err(e) => located(e, old(self).bytes().len()),
                },
            decreases self.toks().len() - self.pos(),
        {
            let ghost before = sections_view(sections@);
            let section = self.parse_section()?;
            let ghost added = section@;
            sections.push(section);
            proof {
                assert(sections_view(sections@) =~= before.push(added));
            }
        }
        let result = Document { sections };
        proof {
            assert forall|k: int| 0 <= k < result@.sections.len() implies ((
            #[trigger] result@.sections[k]) matches SectionView::Query(query) ==> checkable(
                query,
                self.bytes().len(),
            )) by {
                assert(result@.sections[k] == sections@[k]@);
            }
        }
        Ok(result)
    }

    /// Parse a single section from the document.
    pub fn parse_section(&mut self) -> (r: PResult<Section<Span>>)
        requires
            old(self).idle(),
            old(self).pos() < old(self).toks().len(),
        ensures
            final(self).same_input(old(self)),
            r is Ok ==> final(self).idle() && old(self).pos() < final(self).pos(),
            match section_at(old(self).bytes(), old(self).toks(), old(self).pos()) {
                Ok((section, behind)) => r matches Ok(s) && s@ == section && final(self).pos()
                    == behind,
                Err(e) => r == Err::<Section<Span>, ParseError>(e) && final(self).wf() && (
                    final(self).pos(),
                    final(self).stack(),
                ) == section_rest(old(self).bytes(), old(self).toks(), old(self).pos()),
            },
            r matches Ok(s) ==> (s@ matches SectionView::Query(query) ==> checkable(
                query,
                final(self).bytes().len(),
            )),
            r matches Ok(s) ==> section_spans(
                final(self).toks(),
                s@,
                old(self).pos(),
                final(self).pos(),
            ),
            tokens_in_place(old(self).toks(), old(self).bytes()) ==> match r {
                Ok(s) => section_sound(old(self).bytes(), s@),
                Err(e) => located(e, old(self).bytes().len()),
            },
    {
        proof {
            lemma_section_spans(self.bytes(), self.toks(), self.pos());
            if tokens_in_place(self.toks(), self.bytes()) {
                lemma_section_from_sound(
                    self.bytes(),
                    self.toks(),
                    self.pos(),
                    self.pos(),
                    Seq::empty(),
                );
            }
        }
        let section_start_span = self.tokens[self.cursor].1;
        let mut comments: Vec<Span> = Vec::new();
        let mut section_span = Span {
            start: section_start_span.start,
            end: section_start_span.end,
        };
        let ghost first = self.pos();

        while self.cursor < self.tokens.len()
            invariant
                self.idle(),
                self.same_input(old(self)),
                first == old(self).pos(),
                0 <= first <= self.pos(),
                first < self.toks().len(),
                section_span.start == self.toks()[first].1.start,
                self.pos() > first ==> section_span.end == self.toks()[self.pos() - 1].1.end,
                section_at(self.bytes(), self.toks(), first) matches Ok((section, behind))
                    ==> section_spans(self.toks(), section, first, behind),
                tokens_in_place(self.toks(), self.bytes()) ==> match section_at(
                    self.bytes(),
                    self.toks(),
                    first,
                ) {
                    Ok((section, _)) => section_sound(self.bytes(), section),
                    Err(e) => located(e, self.bytes().len()),
                },
                section_from(self.bytes(), self.toks(), first, self.pos(), comments@) == section_at(
                    self.bytes(),
                    self.toks(),
                    first,
                ),
                section_rest(self.bytes(), self.toks(), self.pos()) == section_rest(
                    self.bytes(),
                    self.toks(),
                    first,
                ),
            decreases self.toks().len() - self.pos(),
        {
            let (token, span) = self.tokens[self.cursor];
            section_span.end = span.end;
            self.consume();
            assert(span.within(self.bytes().len()));

            match token {
                Token::Space => {
                    let num_newlines: usize = count_occurrences(
                        self.input,
                        span.start,
                        span.end,
                        0x0a,
                    );
                    if num_newlines >= 2 {
                        // If there was a blank line, that marks the end of the
                        // section, and given that we did not yet switch to
                        // query parsing mode, this means it was a verbatim
                        // section.
                        return Ok(Section::Verbatim(section_span));
                    }
                },
                Token::CommentInner => {
                    // Potentially this comment could contain an annotation.
                    // Before we lex the entire thing, check if it contains the
                    // '@' marker.
                    proof {
                        lemma_annotation_needs_marker(self.bytes(), span);
                    }
                    if find_first(self.input, span.start, span.end, 0x40).is_some() {
                        let mut comment_lexer = ann::Lexer::over(self.input);
                        comment_lexer.run(span);
                        let is_annotation = {
                            let found = comment_lexer.tokens();
                            found.len() > 0 && found[0].0 == ann::Token::Marker
                        };
                        if is_annotation {
                            // If the comment starts with a marker, then this
                            // means we are inside a query section, and we
                            // continue parsing in query mode.
                            proof {
                                lemma_lex_annotation_valid(
                                    self.bytes(),
                                    span.start as int,
                                    span.end as int,
                                    Seq::empty(),
                                );
                            }
                            let query = self.parse_query(comments, comment_lexer)?;
                            return Ok(Section::Query(query));
                        }
                    }
                    // If it was not an annotation, we still record the comment,
                    // because if we later encounter an annotation, the
                    // preceding comments serve as the doc comment for the query.

                    comments.push(span);
                },
                _ => {},
            }
        }

        // If we reached the end of the document without producing a query,
        // then we must be in an unstructured section.
        Ok(Section::Verbatim(section_span))
    }

    /// Parse annotations inside a comment.
    ///
    /// When we enter this state, we already have one comment line that contains
    /// an annotation, but the annotation may be spread over multiple lines, so
    /// consume those up to the start of the query itself.
    fn parse_annotation(&mut self, comment_lexer: ann::Lexer<'a>) -> (r: PResult<
        (Annotation<Span>, StatementType),
    >)
        requires
            old(self).idle(),
            comment_lexer.bytes() == old(self).bytes(),
            comment_lexer.collected().len() > 0,
            ann::tokens_valid(comment_lexer.collected(), old(self).bytes().len()),
        ensures
            final(self).idle(),
            final(self).same_input(old(self)),
            r is Ok ==> old(self).pos() <= final(self).pos() < final(self).toks().len(),
            match header_from(
                old(self).bytes(),
                old(self).toks(),
                old(self).pos(),
                comment_lexer.collected(),
            ) {
                Ok((value, first)) => r matches Ok(a) && parse_ann::annotation_view(a) == value
                    && final(self).pos() == first,
                Err(e) => r == Err::<(Annotation<Span>, StatementType), ParseError>(e)
                    && final(self).pos() == header_end(old(self).toks(), old(self).pos()),
            },
            r matches Ok(a) ==> parse_ann::arguments_readable(
                a.0@.arguments,
                final(self).bytes().len(),
            ),
    {
        let mut lexer = comment_lexer;
        let ghost whole = header_from(
            self.bytes(),
            self.toks(),
            self.pos(),
            lexer.collected(),
        );
        loop
            invariant
                whole == header_from(
                    old(self).bytes(),
                    old(self).toks(),
                    old(self).pos(),
                    comment_lexer.collected(),
                ),
                self.idle(),
                self.same_input(old(self)),
                old(self).pos() <= self.pos(),
                lexer.bytes() == self.bytes(),
                lexer.collected().len() > 0,
                ann::tokens_valid(lexer.collected(), self.bytes().len()),
                header_from(self.bytes(), self.toks(), self.pos(), lexer.collected())
                    == whole,
                header_end(self.toks(), self.pos()) == header_end(
                    old(self).toks(),
                    old(self).pos(),
                ),
            decreases self.toks().len() - self.pos(),
        {
            match self.peek() {
                Some(Token::Space) | Some(Token::CommentStart) | Some(Token::CommentEnd) => {
                    self.consume();
                    continue ;
                },
                Some(Token::CommentInner) => {
                    let span = self.tokens[self.cursor].1;
                    assert(span.within(self.bytes().len()));
                    proof {
                        lemma_lex_annotation_valid(
                            self.bytes(),
                            span.start as int,
                            span.end as int,
                            lexer.collected(),
                        );
                    }
                    lexer.run(span);
                    self.consume();
                },
                None => {
                    return self.error("Unexpected end of input, expected query after annotation.")
                },
                _ => {
                    // If it's not a comment or whitespace, then this must be
                    // the start of the query itself, so the annotation ends
                    // here.
                    let mut parser = parse_ann::Parser::over(self.input, lexer.tokens());
                    return parser.parse_annotation();
                },
            }
        }
    }

    /// If next non-whitespace token is a comment with an `@end` marker, consume it.
    ///
    /// If something other than an `@end` marker is found, this leaves the
    /// cursor at the current token, and returns false. Any whitespace is
    /// consumed unconditionally.
    fn try_parse_end_marker(&mut self) -> (found: bool)
        requires
            old(self).idle(),
        ensures
            final(self).idle(),
            final(self).same_input(old(self)),
            old(self).pos() <= final(self).pos(),
            (found, final(self).pos()) == end_marker_from(
                old(self).bytes(),
                old(self).toks(),
                old(self).pos(),
                old(self).pos(),
            ),
    {
        let mut backtrack_to: usize = self.cursor;

        loop
            invariant_except_break
                end_marker_from(self.bytes(), self.toks(), self.pos(), backtrack_to as int)
                    == end_marker_from(
                    old(self).bytes(),
                    old(self).toks(),
                    old(self).pos(),
                    old(self).pos(),
                ),
            invariant
                self.idle(),
                self.same_input(old(self)),
                old(self).pos() <= backtrack_to <= self.pos(),
            ensures
                end_marker_from(
                    old(self).bytes(),
                    old(self).toks(),
                    old(self).pos(),
                    old(self).pos(),
                ) == (false, backtrack_to as int),
            decreases self.toks().len() - self.pos(),
        {
            match self.peek() {
                Some(Token::Space) => {
                    self.consume();
                    backtrack_to = self.cursor;
                    continue ;
                },
                Some(Token::CommentStart) => {
                    self.consume();
                    continue ;
                },
                Some(Token::CommentInner) => {
                    let mut comment_lexer = ann::Lexer::over(self.input);
                    let span = self.tokens[self.cursor].1;
                    assert(span.within(self.bytes().len()));
                    proof {
                        lemma_lex_annotation_valid(
                            self.bytes(),
                            span.start as int,
                            span.end as int,
                            Seq::empty(),
                        );
                    }
                    comment_lexer.run(span);

                    let is_end = {
                        let found = comment_lexer.tokens();
                        if found.len() > 0 && found[0].0 == ann::Token::Marker {
                            let mark = found[0].1;
                            bytes_equal(
                                slice_subrange(self.input, mark.start, mark.end),
                                "@end".as_bytes(),
                            )
                        } else {
                            false
                        }
                    };
                    if is_end {
                        self.consume();
                        return true;
                    }
                    break ;
                },
                Some(_) | None => break ,
            }
        }

        // We found something other than an end marker, backtrack.
        self.cursor = backtrack_to;
        false
    }

    /// Parse the type in a type comment, and find the token that it annotates.
    ///
    /// The cursor is on the inner token of the comment, and `type_span` is the
    /// part of that token behind the colon. Returns the typed fragment, which
    /// spans from the annotated token up to and including the comment.
    fn parse_type_annotation(&mut self, type_span: Span) -> (r: PResult<Fragment<Span>>)
        requires
            old(self).wf(),
            old(self).pos() < old(self).toks().len(),
            type_span.end == old(self).toks()[old(self).pos()].1.end,
            type_span.start <= type_span.end,
        ensures
            final(self).wf(),
            final(self).same_input(old(self)),
            final(self).stack() == old(self).stack(),
            match type_annotation_at(
                old(self).bytes(),
                old(self).toks(),
                old(self).pos(),
                type_span.start as int,
            ) {
                Ok(hole) => r == Ok::<Fragment<Span>, ParseError>(hole) && final(self).pos()
                    == behind_comment(old(self).toks(), old(self).pos()),
                Err(e) => r == Err::<Fragment<Span>, ParseError>(e) && final(self).pos() == old(
                    self,
                ).pos(),
            },
            r matches Ok(hole) ==> fragment_readable(hole, final(self).bytes().len()),
    {
        assert(self.toks()[self.pos()].1.within(self.bytes().len()));
        proof {
            lemma_lex_annotation_valid(
                self.bytes(),
                type_span.start as int,
                type_span.end as int,
                Seq::empty(),
            );
        }
        let mut lexer = ann::Lexer::over(self.input);
        lexer.run(type_span);

        if lexer.tokens().len() == 0 {
            let err = ParseError {
                span: type_span,
                message: "Empty type annotation, expected a type after the ':'.",
                note: None,
            };
            return Err(err);
        }
        let ghost type_tokens = lexer.collected();
        let mut parser = parse_ann::Parser::over(self.input, lexer.tokens());
        let type_ = parser.parse_simple_type()?;

        // Consume the CommentInner token that we are parsing the annotation from.
        let annotation_token_index: usize = self.cursor;
        self.consume();

        // The comment we were inside of could have been a /* */ style comment
        // with an end token. Consume that as well, if it's there.
        if let Some(Token::CommentEnd) = self.peek() {
            self.consume();
        }
        let end_span = self.tokens[self.cursor - 1].1;

        // Now that we have the annotation itself, we need to walk back to find
        // the token which is being annotated. We must be inside a comment, so
        // preceding this token must be a CommentStart token that we skip over.
        let mut i: usize = if annotation_token_index >= 1 {
            annotation_token_index - 1
        } else {
            0
        };
        while i > 0
            invariant_except_break
                annotated_token(self.toks(), i - 1) == annotated_token(
                    self.toks(),
                    annotation_token_index - 2,
                ),
            invariant
                self.wf(),
                self.same_input(old(self)),
                self.stack() == old(self).stack(),
                annotation_token_index == old(self).pos(),
                self.pos() == behind_comment(self.toks(), annotation_token_index as int),
                end_span == self.toks()[self.pos() - 1].1,
                i <= annotation_token_index < self.toks().len(),
                type_span.end == self.toks()[annotation_token_index as int].1.end,
                type_tokens == lex_annotation(
                    self.bytes(),
                    type_span.start as int,
                    type_span.end as int,
                    Seq::empty(),
                ),
                type_tokens.len() > 0,
                simple_type_at(self.bytes(), type_tokens, 0) matches Ok((t, _)) && t == type_,
            ensures
                annotated_token(self.toks(), annotation_token_index - 2) is None,
            decreases i,
        {
            i -= 1;
            let (prev_token, prev_span) = self.tokens[i];
            let ident = TypedIdent { ident: prev_span, type_: type_ };
            let full_span = Span { start: prev_span.start, end: end_span.end };
            match prev_token {
                Token::Space => {
                    continue ;
                },
                Token::Ident => {
                    return Ok(Fragment::TypedIdent(full_span, ident));
                },
                Token::Param => {
                    return Ok(Fragment::TypedParam(full_span, ident));
                },
                _ => break ,
            }
        }

        self.cursor = annotation_token_index;
        self.error(
            "Invalid type annotation, expected an identifier or parameter before the annotation.",
        )
    }

    /// Parse a single statement, until the closing semicolon.
    pub fn parse_statement(&mut self) -> (r: PResult<Statement<Span>>)
        requires
            old(self).idle(),
        ensures
            final(self).same_input(old(self)),
            r is Ok ==> final(self).idle() && old(self).pos() < final(self).pos(),
            match statement_at(old(self).bytes(), old(self).toks(), old(self).pos()) {
                Ok((fragments, behind)) => r matches Ok(s) && s@ == fragments && final(self).pos()
                    == behind,
                Err(e) => r == Err::<Statement<Span>, ParseError>(e) && final(self).wf() && (
                    final(self).pos(),
                    final(self).stack(),
                ) == statement_rest_at(old(self).bytes(), old(self).toks(), old(self).pos()),
            },
            r matches Ok(s) ==> statement_readable(s@, final(self).bytes().len()),
            r matches Ok(s) ==> statement_spans(
                old(self).toks(),
                s@,
                old(self).pos(),
                final(self).pos(),
            ),
    {
        proof {
            lemma_statement_in_order(self.bytes(), self.toks(), self.pos());
        }
        reveal(statement_at);
        if self.cursor >= self.tokens.len() {
            return self.error("Expected a SQL statement here.");
        }
        let fragment_start: usize = self.tokens[self.cursor].1.start;

        let mut fragments: Vec<Fragment<Span>> = Vec::new();
        let mut fragment = Span { start: fragment_start, end: fragment_start };
        let ghost whole = statement_at(self.bytes(), self.toks(), self.pos());
        let ghost rest = statement_rest_at(self.bytes(), self.toks(), self.pos());
        proof {
            assert(self.stack() =~= Seq::empty());
            assert(fragments@ =~= Seq::empty());
        }

        while self.cursor < self.tokens.len()
            invariant
                self.wf(),
                self.same_input(old(self)),
                old(self).pos() <= self.pos(),
                statement_readable(fragments@, self.bytes().len()),
                whole == statement_at(old(self).bytes(), old(self).toks(), old(self).pos()),
                whole matches Ok((all, behind)) ==> statement_spans(
                    old(self).toks(),
                    all,
                    old(self).pos(),
                    behind,
                ),
                statement_from(
                    self.bytes(),
                    self.toks(),
                    StatementState {
                        at: self.pos(),
                        stack: self.stack(),
                        fragments: fragments@,
                        verbatim_from: fragment.start,
                    },
                ) == whole,
                rest == statement_rest_at(old(self).bytes(), old(self).toks(), old(self).pos()),
                statement_rest(
                    self.bytes(),
                    self.toks(),
                    StatementState {
                        at: self.pos(),
                        stack: self.stack(),
                        fragments: fragments@,
                        verbatim_from: fragment.start,
                    },
                ) == rest,
            decreases self.toks().len() - self.pos(),
        {
            let (token, span) = self.tokens[self.cursor];
            assert(span.within(self.bytes().len()));
            match token {
                Token::LParen | Token::LBrace | Token::LBracket => {
                    self.push_bracket();
                },
                Token::RParen | Token::RBrace | Token::RBracket => {
                    self.pop_bracket()?;
                },
                Token::CommentInner => {
                    // If there is a comment, and it starts with a `:`,
                    // optionally preceded by whitespace, then we interpret that
                    // as a type comment. So first, check if we are in that case
                    // at all.
                    let colon_pos: usize = scan_run(
                        self.input,
                        span.start,
                        span.end,
                        ByteClass::Whitespace,
                    );
                    if colon_pos >= span.end || self.input[colon_pos] != 0x3a {
                        self.consume();
                        continue ;
                    }
                    // If we get here, then we define this to be a type comment.
                    // (Perhaps it's not preceded by a valid identifier or
                    // parameter, but then we define that as an error, instead
                    // of considering this a normal comment.)

                    let type_span = Span { start: colon_pos + 1, end: span.end };
                    let ghost state = StatementState {
                        at: self.pos(),
                        stack: self.stack(),
                        fragments: fragments@,
                        verbatim_from: fragment.start,
                    };
                    let annotation_token_index: usize = self.cursor;
                    let hole_fragment = self.parse_type_annotation(type_span)?;
                    let hole_span = hole_fragment.span();

                    match hole_fragment {
                        Fragment::TypedParam(..) => {
                            // If this type annotation turned out to annotate a
                            // parameter, then we replace the parameter fragment
                            // that we pushed previously with the new typed
                            // parameter fragment.
                            if fragments.len() < 2 {
                                self.cursor = annotation_token_index;
                                return self.error(
                                    "Invalid type annotation, expected an identifier or parameter before the annotation.",
                                );
                            }
                            let ghost before = fragments@;
                            fragments.pop();
                            let replaced = fragments.pop().unwrap();
                            proof {
                                assert(fragments@ =~= before.subrange(0, before.len() - 2));
                            }
                            fragment = replaced.span();
                        },
                        _ => {},
                    }
                    if fragment.start > hole_span.start {
                        self.cursor = annotation_token_index;
                        return self.error(
                            "Invalid type annotation, expected an identifier or parameter before the annotation.",
                        );
                    }
                    fragment.end = hole_span.start;
                    if fragment.len() > 0 {
                        fragments.push(Fragment::Verbatim(fragment));
                    }
                    fragments.push(hole_fragment);
                    fragment.start = hole_span.end;
                    fragment.end = hole_span.end;
                },
                Token::Param => {
                    fragment.end = span.start;
                    fragments.push(Fragment::Verbatim(fragment));
                    fragments.push(Fragment::Param(span));
                    fragment.start = span.end;
                    fragment.end = span.end;
                    self.consume();
                },
                Token::Semicolon => {
                    // The semicolon marks the end of the query.
                    self.ensure_bracket_stack_empty()?;

                    fragment.end = span.end;
                    fragments.push(Fragment::Verbatim(fragment));
                    self.consume();

                    let result = Statement { fragments };
                    return Ok(result);
                },
                _other_token => {
                    self.consume();
                },
            }
        }

        self.error("Unexpected end of input, annotated query does not end with ';'.")
    }

    /// Parse an annotated query: the rest of its annotation and its statements.
    fn parse_query(&mut self, comments: Vec<Span>, comment_lexer: ann::Lexer<'a>) -> (r: PResult<
        Query<Span>,
    >)
        requires
            old(self).idle(),
            comment_lexer.bytes() == old(self).bytes(),
            comment_lexer.collected().len() > 0,
            ann::tokens_valid(comment_lexer.collected(), old(self).bytes().len()),
        ensures
            final(self).same_input(old(self)),
            r is Ok ==> final(self).idle() && old(self).pos() < final(self).pos(),
            match query_from(
                old(self).bytes(),
                old(self).toks(),
                old(self).pos(),
                comments@,
                comment_lexer.collected(),
            ) {
                Ok((query, behind)) => r matches Ok(q) && q@ == query && final(self).pos()
                    == behind,
                Err(e) => r == Err::<Query<Span>, ParseError>(e) && final(self).wf() && (
                    final(self).pos(),
                    final(self).stack(),
                ) == query_rest(
                    old(self).bytes(),
                    old(self).toks(),
                    old(self).pos(),
                    comment_lexer.collected(),
                ),
            },
            r matches Ok(q) ==> checkable(q@, final(self).bytes().len()),
    {
        let (annotation, stmt_type) = self.parse_annotation(comment_lexer)?;

        let first = self.parse_statement()?;
        let ghost first_view = first@;
        let mut statements: Vec<Statement<Span>> = Vec::new();
        statements.push(first);
        proof {
            assert(statements_view(statements@) =~= seq![first_view]);
        }

        match stmt_type {
            StatementType::Single => {},
            StatementType::Multi => {
                let ghost whole = block_from(
                    self.bytes(),
                    self.toks(),
                    self.pos(),
                    statements_view(statements@),
                );
                let ghost rest = block_rest(self.bytes(), self.toks(), self.pos());
                loop
                    invariant_except_break
                        block_from(
                            self.bytes(),
                            self.toks(),
                            self.pos(),
                            statements_view(statements@),
                        ) == whole,
                        block_rest(self.bytes(), self.toks(), self.pos()) == rest,
                    invariant
                        whole is Err ==> rest == query_rest(
                            old(self).bytes(),
                            old(self).toks(),
                            old(self).pos(),
                            comment_lexer.collected(),
                        ),
                        self.idle(),
                        self.same_input(old(self)),
                        old(self).pos() < self.pos(),
                        stmt_type == StatementType::Multi,
                        forall|k: int|
                            0 <= k < statements@.len() ==> statement_readable(
                                (#[trigger] statements@[k])@,
                                self.bytes().len(),
                            ),
                        query_from(
                            old(self).bytes(),
                            old(self).toks(),
                            old(self).pos(),
                            comments@,
                            comment_lexer.collected(),
                        ) == (match whole {
                            Err(e) => Err(e),
                            Ok((statements, end)) => Ok(
                                (
                                    QueryView {
                                        docs: comments@,
                                        annotation: annotation@,
                                        statement_type: stmt_type,
                                        statements,
                                    },
                                    end,
                                ),
                            ),
                        }),
                    ensures
                        whole == Ok::<(Seq<Seq<Fragment<Span>>>, int), ParseError>(
                            (statements_view(statements@), self.pos()),
                        ),
                    decreases self.toks().len() - self.pos(),
                {
                    if self.try_parse_end_marker() {
                        break ;
                    }
                    let ghost before = statements_view(statements@);
                    let statement = self.parse_statement()?;
                    let ghost added = statement@;
                    statements.push(statement);
                    proof {
                        assert(statements_view(statements@) =~= before.push(added));
                    }
                }
            },
        }

        let result = Query { docs: comments, annotation, statement_type: stmt_type, statements };
        proof {
            assert forall|k: int| 0 <= k < result@.statements.len() implies statement_readable(
                #[trigger] result@.statements[k],
                self.bytes().len(),
            ) by {
                assert(result@.statements[k] == statements@[k]@);
            }
        }
        Ok(result)
    }
}

/// A comment that starts an annotation holds an `@`.
proof fn lemma_annotation_needs_marker(bytes: Seq<u8>, comment: Span)
    requires
        comment.within(bytes.len()),
        bytes.len() <= usize::MAX,
    ensures
        starts_annotation(bytes, comment) ==> find_byte(
            bytes,
            comment.start as int,
            comment.end as int,
            0x40,
        ) is Some,
{
    if starts_annotation(bytes, comment) {
        let tokens = lex_annotation(bytes, comment.start as int, comment.end as int, Seq::empty());
        lemma_lex_annotation_spans(bytes, comment.start as int, comment.end as int, Seq::empty());
        lemma_find_byte_finds(
            bytes,
            comment.start as int,
            comment.end as int,
            0x40,
            tokens[0].1.start as int,
        );
    }
}

} // verus!
