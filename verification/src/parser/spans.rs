//! Where the spans of a parsed document lie.
//!
//! Every span that the parsers put into the syntax tree lies inside the
//! input, and can be resolved in an input that is valid UTF-8: it starts
//! and ends between characters. Every error points into the input.
use crate::ast::{
    all_statement, resolvable_in, ComplexTypeView, Fragment, QueryView, SectionView, SimpleType,
    StatementType, TypedIdent,
};
use crate::error::{located, ParseError};
use crate::lexer::annotation as ann;
use crate::lexer::annotation::{lemma_lex_annotation_fit, lex_annotation, tokens_fit, Token};
use crate::lexer::document as doc;
use crate::lexer::document::{contiguous, lemma_sound_token_resolvable, token_sound, tokens_sound};
use crate::parser::annotation::{
    annotation_at, argument_list_at, arguments_at, complex_type_at, error_at, error_span,
    result_type_at, simple_arguments, simple_type_at, tuple_at, tuple_elements_at, typed_ident_at,
};
use crate::parser::document::{
    after_annotation, annotated_token, behind_comment, block_from, close_bracket, end_marker_from,
    has_blank_line, header_from, is_closer, is_opener, query_from, section_at, section_from,
    sections_from, starts_annotation, statement_at, statement_from, type_annotation_at,
    type_comment_start, with_verbatim, StatementState,
};
use crate::parser::layout::{
    lemma_annotated_token_before, lemma_offsets_ordered, lemma_type_annotation_span, offset_at,
};
use crate::text::{lemma_ascii_edge_is_boundary, lemma_run_end_bounds, ByteClass};
use crate::Span;
use vstd::prelude::*;
use vstd::utf8::valid_utf8;

verus! {

/// The span from the start of one token that fits to the end of a later
/// one can be resolved.
pub proof fn lemma_fit_between(
    bytes: Seq<u8>,
    tokens: Seq<(Token, Span)>,
    upto: int,
    i: int,
    j: int,
)
    requires
        valid_utf8(bytes),
        tokens_fit(tokens, bytes, upto),
        0 <= i <= j < tokens.len(),
    ensures
        (Span { start: tokens[i].1.start, end: tokens[j].1.end }).resolvable(bytes),
        tokens[i].1.resolvable(bytes),
{
    lemma_ascii_edge_is_boundary(bytes, tokens[i].1.start as int);
    lemma_ascii_edge_is_boundary(bytes, tokens[i].1.end as int);
    lemma_ascii_edge_is_boundary(bytes, tokens[j].1.end as int);
    assert(tokens[i].1.start < tokens[i].1.end);
    assert(tokens[j].1.start < tokens[j].1.end);
}

/// An error that is raised at a token points into the input.
pub proof fn lemma_error_at_located(
    bytes: Seq<u8>,
    tokens: Seq<(Token, Span)>,
    upto: int,
    at: int,
    message: &'static str,
)
    requires
        tokens_fit(tokens, bytes, upto),
        tokens.len() > 0,
    ensures
        located(error_at(tokens, at, message), bytes.len()),
        error_span(tokens, at).within(bytes.len()),
{
    if 0 <= at < tokens.len() {
        assert(tokens[at].1.start < tokens[at].1.end);
    } else {
        assert(tokens.last().1.start < tokens.last().1.end);
    }
}

/// The tokens fit an input that is valid UTF-8.
pub open spec fn fits(tokens: Seq<(Token, Span)>, bytes: Seq<u8>) -> bool {
    valid_utf8(bytes) && tokens.len() > 0 && exists|upto: int| tokens_fit(tokens, bytes, upto)
}

/// What the annotation parser makes of tokens that fit: a value whose
/// spans can all be resolved, or an error that points into the input.
pub open spec fn simple_sound(r: Result<(SimpleType<Span>, int), ParseError>, bytes: Seq<u8>) -> bool {
    match r {
        Ok((t, _)) => t.all(resolvable_in(bytes)),
        Err(e) => located(e, bytes.len()),
    }
}

/// A simple type that is parsed from tokens that fit can be resolved.
pub proof fn lemma_simple_type_at(bytes: Seq<u8>, tokens: Seq<(Token, Span)>, upto: int, at: int)
    requires
        valid_utf8(bytes),
        tokens_fit(tokens, bytes, upto),
        tokens.len() > 0,
    ensures
        simple_sound(simple_type_at(bytes, tokens, at), bytes),
        simple_type_at(bytes, tokens, at) matches Ok((_, next)) ==> 0 <= at < next <= tokens.len(),
{
    lemma_error_at_located(
        bytes,
        tokens,
        upto,
        at,
        "Unexpected end of input, expected a primitive type here.",
    );
    if 0 <= at < tokens.len() {
        lemma_fit_between(bytes, tokens, upto, at, at);
        if at + 1 < tokens.len() {
            lemma_fit_between(bytes, tokens, upto, at, at + 1);
        }
    }
}

/// A typed identifier that is parsed from tokens that fit can be resolved.
pub proof fn lemma_typed_ident_at(bytes: Seq<u8>, tokens: Seq<(Token, Span)>, upto: int, at: int)
    requires
        valid_utf8(bytes),
        tokens_fit(tokens, bytes, upto),
        tokens.len() > 0,
    ensures
        match typed_ident_at(bytes, tokens, at) {
            Ok((ti, _)) => ti.all(resolvable_in(bytes)),
            Err(e) => located(e, bytes.len()),
        },
{
    lemma_error_at_located(bytes, tokens, upto, at, "Expected an identifier here.");
    lemma_error_at_located(bytes, tokens, upto, at + 1, "Expected an identifier here.");
    lemma_simple_type_at(bytes, tokens, upto, at + 2);
    if 0 <= at < tokens.len() {
        lemma_fit_between(bytes, tokens, upto, at, at);
    }
}

/// The elements of a tuple that is parsed from tokens that fit can be resolved.
pub proof fn lemma_tuple_elements_at(
    bytes: Seq<u8>,
    tokens: Seq<(Token, Span)>,
    upto: int,
    at: int,
    acc: Seq<SimpleType<Span>>,
)
    requires
        valid_utf8(bytes),
        tokens_fit(tokens, bytes, upto),
        tokens.len() > 0,
        0 <= at,
        forall|i: int| 0 <= i < acc.len() ==> (#[trigger] acc[i]).all(resolvable_in(bytes)),
    ensures
        match tuple_elements_at(bytes, tokens, at, acc) {
            Ok((elements, next)) => at < next <= tokens.len() && forall|i: int|
                0 <= i < elements.len() ==> (#[trigger] elements[i]).all(resolvable_in(bytes)),
            Err(e) => located(e, bytes.len()),
        },
    decreases tokens.len() - at,
{
    if !crate::parser::annotation::is_token(tokens, at, Token::RParen) {
        lemma_simple_type_at(bytes, tokens, upto, at);
        match simple_type_at(bytes, tokens, at) {
            Err(_) => {},
            Ok((element, next)) => {
                lemma_error_at_located(bytes, tokens, upto, next, "Expected an identifier here.");
                let more = acc.push(element);
                assert forall|i: int| 0 <= i < more.len() implies (#[trigger] more[i]).all(
                    resolvable_in(bytes),
                ) by {
                    if i < acc.len() {
                        assert(more[i] == acc[i]);
                    }
                }
                if 0 <= next < tokens.len() {
                    if tokens[next].0 == Token::RParen {
                        lemma_tuple_elements_at(bytes, tokens, upto, next, more);
                    } else if tokens[next].0 == Token::Comma {
                        lemma_tuple_elements_at(bytes, tokens, upto, next + 1, more);
                    }
                }
            },
        }
    }
}

/// A complex type that is parsed from tokens that fit can be resolved.
pub proof fn lemma_complex_type_at(bytes: Seq<u8>, tokens: Seq<(Token, Span)>, upto: int, at: int)
    requires
        valid_utf8(bytes),
        tokens_fit(tokens, bytes, upto),
        tokens.len() > 0,
        0 <= at,
    ensures
        match complex_type_at(bytes, tokens, at) {
            Ok((t, next)) => at < next <= tokens.len() && t.all(resolvable_in(bytes)),
            Err(e) => located(e, bytes.len()),
        },
{
    lemma_error_at_located(bytes, tokens, upto, at, "Expected a type here.");
    if at < tokens.len() {
        lemma_fit_between(bytes, tokens, upto, at, at);
        if tokens[at].0 == Token::LParen {
            lemma_tuple_elements_at(bytes, tokens, upto, at + 1, Seq::empty());
            match tuple_at(bytes, tokens, at) {
                Err(_) => {},
                Ok((elements, next)) => {
                    lemma_fit_between(bytes, tokens, upto, at, next - 1);
                },
            }
        } else if tokens[at].0 == Token::Ident {
            lemma_simple_type_at(bytes, tokens, upto, at);
        }
    }
}

/// The arguments as they are read: the names and the types can be resolved.
pub open spec fn arguments_resolvable(
    arguments: Seq<(Span, ComplexTypeView<Span>)>,
    bytes: Seq<u8>,
) -> bool {
    forall|i: int|
        0 <= i < arguments.len() ==> (#[trigger] arguments[i]).0.resolvable(bytes)
            && arguments[i].1.all(resolvable_in(bytes))
}

/// The arguments that are read from tokens that fit can be resolved.
pub proof fn lemma_argument_list_at(
    bytes: Seq<u8>,
    tokens: Seq<(Token, Span)>,
    upto: int,
    at: int,
    open: Span,
    acc: Seq<(Span, ComplexTypeView<Span>)>,
)
    requires
        valid_utf8(bytes),
        tokens_fit(tokens, bytes, upto),
        tokens.len() > 0,
        0 <= at,
        open.within(bytes.len()),
        arguments_resolvable(acc, bytes),
    ensures
        match argument_list_at(bytes, tokens, at, open, acc) {
            Ok((arguments, next)) => at < next <= tokens.len() && arguments_resolvable(
                arguments,
                bytes,
            ),
            Err(e) => located(e, bytes.len()),
        },
    decreases tokens.len() - at,
{
    lemma_error_at_located(bytes, tokens, upto, at, "Expected an identifier here.");
    lemma_error_at_located(bytes, tokens, upto, at + 1, "Expected an identifier here.");
    if !crate::parser::annotation::is_token(tokens, at, Token::RParen)
        && crate::parser::annotation::is_token(tokens, at, Token::Ident)
        && crate::parser::annotation::is_token(tokens, at + 1, Token::Colon) {
        lemma_complex_type_at(bytes, tokens, upto, at + 2);
        lemma_fit_between(bytes, tokens, upto, at, at);
        match complex_type_at(bytes, tokens, at + 2) {
            Err(_) => {},
            Ok((type_, next)) => {
                lemma_error_at_located(bytes, tokens, upto, next, "Expected an identifier here.");
                let more = acc.push((tokens[at].1, type_));
                assert forall|i: int| 0 <= i < more.len() implies (#[trigger] more[i]).0.resolvable(
                    bytes,
                ) && more[i].1.all(resolvable_in(bytes)) by {
                    if i < acc.len() {
                        assert(more[i] == acc[i]);
                    }
                }
                if 0 <= next < tokens.len() && tokens[next].0 == Token::Comma {
                    lemma_argument_list_at(bytes, tokens, upto, next + 1, open, more);
                }
            },
        }
    }
}

/// Simple arguments keep the spans of the arguments as they were read.
pub proof fn lemma_simple_arguments(
    bytes: Seq<u8>,
    arguments: Seq<(Span, ComplexTypeView<Span>)>,
    i: int,
    acc: Seq<TypedIdent<Span>>,
)
    requires
        0 <= i,
        arguments_resolvable(arguments, bytes),
        forall|k: int| 0 <= k < acc.len() ==> (#[trigger] acc[k]).all(resolvable_in(bytes)),
    ensures
        match simple_arguments(arguments, i, acc) {
            Ok(simple) => forall|k: int|
                0 <= k < simple.len() ==> (#[trigger] simple[k]).all(resolvable_in(bytes)),
            Err(e) => located(e, bytes.len()),
        },
    decreases arguments.len() - i,
{
    if i < arguments.len() {
        assert(arguments[i].1.all(resolvable_in(bytes)));
        match arguments[i].1 {
            ComplexTypeView::Simple(type_) => {
                let more = acc.push(TypedIdent { ident: arguments[i].0, type_ });
                assert forall|k: int| 0 <= k < more.len() implies (#[trigger] more[k]).all(
                    resolvable_in(bytes),
                ) by {
                    if k < acc.len() {
                        assert(more[k] == acc[k]);
                    }
                }
                lemma_simple_arguments(bytes, arguments, i + 1, more);
            },
            _ => {},
        }
    }
}

/// The arguments that are parsed from tokens that fit can be resolved.
pub proof fn lemma_arguments_at(bytes: Seq<u8>, tokens: Seq<(Token, Span)>, upto: int, at: int)
    requires
        valid_utf8(bytes),
        tokens_fit(tokens, bytes, upto),
        tokens.len() > 0,
        0 <= at,
    ensures
        match arguments_at(bytes, tokens, at) {
            Ok((arguments, next)) => at < next <= tokens.len() && arguments.all(
                resolvable_in(bytes),
            ),
            Err(e) => located(e, bytes.len()),
        },
{
    lemma_error_at_located(bytes, tokens, upto, at, "Expected an identifier here.");
    if crate::parser::annotation::is_token(tokens, at, Token::LParen) {
        lemma_fit_between(bytes, tokens, upto, at, at);
        lemma_argument_list_at(bytes, tokens, upto, at + 1, tokens[at].1, Seq::empty());
        match argument_list_at(bytes, tokens, at + 1, tokens[at].1, Seq::empty()) {
            Err(_) => {},
            Ok((arguments, next)) => {
                lemma_simple_arguments(bytes, arguments, 0, Seq::empty());
                if arguments.len() == 1 {
                    assert(arguments[0].1.all(resolvable_in(bytes)));
                }
            },
        }
    }
}

/// A result type that is parsed from tokens that fit can be resolved.
pub proof fn lemma_result_type_at(bytes: Seq<u8>, tokens: Seq<(Token, Span)>, upto: int, at: int)
    requires
        valid_utf8(bytes),
        tokens_fit(tokens, bytes, upto),
        tokens.len() > 0,
        0 <= at,
    ensures
        match result_type_at(bytes, tokens, at) {
            Ok((result_type, _)) => result_type.all(resolvable_in(bytes)),
            Err(e) => located(e, bytes.len()),
        },
{
    lemma_error_at_located(bytes, tokens, upto, at, "Expected an identifier here.");
    lemma_complex_type_at(bytes, tokens, upto, at + 1);
}

/// All spans of an annotation
/// that is parsed from tokens that fit the input can be resolved, and an
/// error points into the input.
pub proof fn lemma_annotation_at(bytes: Seq<u8>, tokens: Seq<(Token, Span)>, upto: int, at: int)
    requires
        valid_utf8(bytes),
        tokens_fit(tokens, bytes, upto),
        tokens.len() > 0,
        0 <= at,
    ensures
        match annotation_at(bytes, tokens, at) {
            Ok(((annotation, _), _)) => annotation.all(resolvable_in(bytes)),
            Err(e) => located(e, bytes.len()),
        },
{
    reveal(annotation_at);
    lemma_error_at_located(bytes, tokens, upto, at, "Expected an identifier here.");
    lemma_error_at_located(bytes, tokens, upto, at + 1, "Expected an identifier here.");
    lemma_arguments_at(bytes, tokens, upto, at + 2);
    if at + 1 < tokens.len() {
        lemma_fit_between(bytes, tokens, upto, at + 1, at + 1);
    }
    match arguments_at(bytes, tokens, at + 2) {
        Err(_) => {},
        Ok((_, next)) => {
            lemma_result_type_at(bytes, tokens, upto, next);
        },
    }
}

/// The tokens of a document as the parser takes them: one behind the
/// other inside an input that is valid UTF-8, each of them sound.
pub open spec fn tokens_in_place(tokens: Seq<(doc::Token, Span)>, bytes: Seq<u8>) -> bool {
    &&& valid_utf8(bytes)
    &&& bytes.len() <= usize::MAX
    &&& contiguous(tokens, bytes.len())
    &&& tokens_sound(tokens, bytes)
}

/// The span from the start of one token of the document to the end of a
/// later one can be resolved.
pub proof fn lemma_between_tokens(bytes: Seq<u8>, tokens: Seq<(doc::Token, Span)>, i: int, j: int)
    requires
        tokens_in_place(tokens, bytes),
        0 <= i <= j < tokens.len(),
    ensures
        (Span { start: tokens[i].1.start, end: tokens[j].1.end }).resolvable(bytes),
        tokens[i].1.resolvable(bytes),
        tokens[j].1.resolvable(bytes),
{
    lemma_sound_token_resolvable(bytes, tokens[i]);
    lemma_sound_token_resolvable(bytes, tokens[j]);
    lemma_offsets_ordered(tokens, bytes.len(), i, j);
}

/// A fragment is sound: its spans can be resolved, and if it is a typed
/// parameter, its identifier is a colon with a name behind it.
pub open spec fn fragment_sound(bytes: Seq<u8>, fragment: Fragment<Span>) -> bool {
    &&& fragment.all(resolvable_in(bytes))
    &&& fragment matches Fragment::TypedParam(_, ti) ==> ti.ident.start < ti.ident.end
        && bytes[ti.ident.start as int] == 0x3a
}

/// All fragments are sound.
pub open spec fn fragments_sound(bytes: Seq<u8>, fragments: Seq<Fragment<Span>>) -> bool {
    forall|i: int| 0 <= i < fragments.len() ==> fragment_sound(bytes, #[trigger] fragments[i])
}

/// The fragment that a type comment makes is sound, and an error points
/// into the input.
pub proof fn lemma_type_annotation_sound(
    bytes: Seq<u8>,
    tokens: Seq<(doc::Token, Span)>,
    at: int,
    type_start: int,
)
    requires
        tokens_in_place(tokens, bytes),
        0 <= at < tokens.len(),
        type_comment_start(bytes, tokens[at].1) == Some(type_start),
    ensures
        match type_annotation_at(bytes, tokens, at, type_start) {
            Ok(hole) => fragment_sound(bytes, hole),
            Err(e) => located(e, bytes.len()),
        },
{
    let comment = tokens[at].1;
    assert(token_sound(bytes, tokens[at]));
    lemma_run_end_bounds(bytes, comment.start as int, comment.end as int, ByteClass::Whitespace);
    assert(bytes[type_start - 1] == 0x3a);
    lemma_lex_annotation_fit(bytes, type_start, comment.end as int, Seq::empty(), 0);
    let type_tokens = lex_annotation(bytes, type_start, comment.end as int, Seq::empty());
    if type_tokens.len() > 0 {
        assert(type_start < comment.end) by {
            if type_start >= comment.end {
                assert(type_tokens =~= Seq::empty());
            }
        }
        lemma_simple_type_at(bytes, type_tokens, comment.end as int, 0);
        lemma_annotated_token_before(tokens, at - 2);
        lemma_type_annotation_span(bytes, tokens, at, type_start);
        match annotated_token(tokens, at - 2) {
            Some(target) => {
                lemma_between_tokens(bytes, tokens, target, behind_comment(tokens, at) - 1);
                assert(token_sound(bytes, tokens[target]));
            },
            None => {},
        }
    }
}

/// The state of a statement in which all spans are in place: the fragments
/// are sound, the verbatim text starts between two characters and no later
/// than the token under the cursor, and the open brackets are tokens.
pub open spec fn state_sound(
    bytes: Seq<u8>,
    tokens: Seq<(doc::Token, Span)>,
    state: StatementState,
) -> bool {
    &&& 0 <= state.at <= tokens.len()
    &&& fragments_sound(bytes, state.fragments)
    &&& vstd::utf8::is_char_boundary(bytes, state.verbatim_from as int)
    &&& state.verbatim_from <= offset_at(tokens, state.at)
    &&& forall|i: int| 0 <= i < state.stack.len() ==> (#[trigger] state.stack[i]).1.within(bytes.len())
}

/// One more sound fragment keeps the fragments sound.
pub proof fn lemma_fragments_sound_push(
    bytes: Seq<u8>,
    fragments: Seq<Fragment<Span>>,
    next: Fragment<Span>,
)
    requires
        fragments_sound(bytes, fragments),
        fragment_sound(bytes, next),
    ensures
        fragments_sound(bytes, fragments.push(next)),
{
    let all = fragments.push(next);
    assert forall|i: int| 0 <= i < all.len() implies fragment_sound(bytes, #[trigger] all[i]) by {
        if i < fragments.len() {
            assert(all[i] == fragments[i]);
        }
    }
}

/// A type comment leaves all spans of the statement in place.
pub proof fn lemma_after_annotation_sound(
    bytes: Seq<u8>,
    tokens: Seq<(doc::Token, Span)>,
    state: StatementState,
    hole: Fragment<Span>,
)
    requires
        tokens_in_place(tokens, bytes),
        state_sound(bytes, tokens, state),
        state.at < tokens.len(),
        fragment_sound(bytes, hole),
        hole is TypedIdent || hole is TypedParam,
        hole.full_span().end == offset_at(tokens, behind_comment(tokens, state.at)),
    ensures
        match after_annotation(tokens, state, hole) {
            Ok(next) => state_sound(bytes, tokens, next) && state.at < next.at,
            Err(e) => located(e, bytes.len()),
        },
{
    assert(tokens[state.at].1.within(bytes.len()));
    match after_annotation(tokens, state, hole) {
        Err(_) => {},
        Ok(next) => {
            let n = state.fragments.len() as int;
            let from = if hole is TypedParam {
                state.fragments[n - 2].full_span().start
            } else {
                state.verbatim_from
            };
            let kept = if hole is TypedParam {
                state.fragments.subrange(0, n - 2)
            } else {
                state.fragments
            };
            assert(fragments_sound(bytes, kept)) by {
                assert forall|i: int| 0 <= i < kept.len() implies fragment_sound(
                    bytes,
                    #[trigger] kept[i],
                ) by {
                    assert(kept[i] == state.fragments[i]);
                }
            }
            assert(vstd::utf8::is_char_boundary(bytes, from as int)) by {
                if hole is TypedParam {
                    assert(fragment_sound(bytes, state.fragments[n - 2]));
                }
            }
            let flushed = with_verbatim(kept, from, hole.full_span().start);
            assert(fragments_sound(bytes, flushed)) by {
                if from < hole.full_span().start {
                    lemma_fragments_sound_push(
                        bytes,
                        kept,
                        Fragment::Verbatim(Span { start: from, end: hole.full_span().start }),
                    );
                }
            }
            lemma_fragments_sound_push(bytes, flushed, hole);
        },
    }
}

/// A statement that is parsed from a state in which all spans are in
/// place has sound fragments, and an error points into the input.
pub proof fn lemma_statement_from_sound(
    bytes: Seq<u8>,
    tokens: Seq<(doc::Token, Span)>,
    state: StatementState,
)
    requires
        tokens_in_place(tokens, bytes),
        state_sound(bytes, tokens, state),
    ensures
        match statement_from(bytes, tokens, state) {
            Ok((fragments, _)) => fragments_sound(bytes, fragments),
            Err(e) => located(e, bytes.len()),
        },
    decreases tokens.len() - state.at,
{
    let at = state.at;
    if tokens.len() > 0 {
        assert(tokens.last().1.within(bytes.len()));
    }
    if 0 <= at < tokens.len() {
        let token = tokens[at].0;
        let span = tokens[at].1;
        assert(span.within(bytes.len()));
        lemma_between_tokens(bytes, tokens, at, at);
        lemma_offsets_ordered(tokens, bytes.len(), at, at);
        lemma_offsets_ordered(tokens, bytes.len(), at, at + 1);
        if is_opener(token) {
            let stack = state.stack.push(tokens[at]);
            assert forall|i: int| 0 <= i < stack.len() implies (#[trigger] stack[i]).1.within(
                bytes.len(),
            ) by {
                if i < state.stack.len() {
                    assert(stack[i] == state.stack[i]);
                }
            }
            lemma_statement_from_sound(
                bytes,
                tokens,
                StatementState { at: at + 1, stack, ..state },
            );
        } else if is_closer(token) {
            match close_bracket(tokens, at, state.stack) {
                Err(_) => {
                    if state.stack.len() > 0 {
                        assert(state.stack.last().1.within(bytes.len()));
                    }
                },
                Ok(stack) => {
                    assert forall|i: int| 0 <= i < stack.len() implies (
                    #[trigger] stack[i]).1.within(bytes.len()) by {
                        assert(stack[i] == state.stack[i]);
                    }
                    lemma_statement_from_sound(
                        bytes,
                        tokens,
                        StatementState { at: at + 1, stack, ..state },
                    );
                },
            }
        } else if token == doc::Token::CommentInner {
            match type_comment_start(bytes, span) {
                None => {
                    lemma_statement_from_sound(
                        bytes,
                        tokens,
                        StatementState { at: at + 1, ..state },
                    );
                },
                Some(type_start) => {
                    lemma_type_annotation_sound(bytes, tokens, at, type_start);
                    lemma_type_annotation_span(bytes, tokens, at, type_start);
                    match type_annotation_at(bytes, tokens, at, type_start) {
                        Err(_) => {},
                        Ok(hole) => {
                            lemma_after_annotation_sound(bytes, tokens, state, hole);
                            match after_annotation(tokens, state, hole) {
                                Err(_) => {},
                                Ok(next) => {
                                    lemma_statement_from_sound(bytes, tokens, next);
                                },
                            }
                        },
                    }
                },
            }
        } else if token == doc::Token::Param {
            assert(token_sound(bytes, tokens[at]));
            let verbatim = Fragment::Verbatim(Span { start: state.verbatim_from, end: span.start });
            lemma_fragments_sound_push(bytes, state.fragments, verbatim);
            lemma_fragments_sound_push(
                bytes,
                state.fragments.push(verbatim),
                Fragment::Param(span),
            );
            lemma_statement_from_sound(
                bytes,
                tokens,
                StatementState {
                    at: at + 1,
                    stack: state.stack,
                    fragments: state.fragments.push(verbatim).push(Fragment::Param(span)),
                    verbatim_from: span.end,
                },
            );
        } else if token == doc::Token::Semicolon {
            if state.stack.len() == 0 {
                let verbatim = Fragment::Verbatim(Span { start: state.verbatim_from, end: span.end });
                lemma_fragments_sound_push(bytes, state.fragments, verbatim);
            } else {
                assert(state.stack[0].1.within(bytes.len()));
            }
        } else {
            lemma_statement_from_sound(bytes, tokens, StatementState { at: at + 1, ..state });
        }
    }
}

/// A statement that is parsed at a token has sound fragments, and an
/// error points into the input.
pub proof fn lemma_statement_at_sound(bytes: Seq<u8>, tokens: Seq<(doc::Token, Span)>, at: int)
    requires
        tokens_in_place(tokens, bytes),
    ensures
        match statement_at(bytes, tokens, at) {
            Ok((fragments, _)) => fragments_sound(bytes, fragments),
            Err(e) => located(e, bytes.len()),
        },
{
    reveal(statement_at);
    if tokens.len() > 0 {
        assert(tokens.last().1.within(bytes.len()));
    }
    if 0 <= at < tokens.len() {
        lemma_between_tokens(bytes, tokens, at, at);
        lemma_statement_from_sound(
            bytes,
            tokens,
            StatementState {
                at,
                stack: Seq::empty(),
                fragments: Seq::empty(),
                verbatim_from: tokens[at].1.start,
            },
        );
    }
}

/// All statements have sound fragments.
pub open spec fn statements_sound(bytes: Seq<u8>, statements: Seq<Seq<Fragment<Span>>>) -> bool {
    forall|i: int| 0 <= i < statements.len() ==> fragments_sound(bytes, #[trigger] statements[i])
}

/// The statements of a block have sound fragments.
pub proof fn lemma_block_from_sound(
    bytes: Seq<u8>,
    tokens: Seq<(doc::Token, Span)>,
    at: int,
    acc: Seq<Seq<Fragment<Span>>>,
)
    requires
        tokens_in_place(tokens, bytes),
        statements_sound(bytes, acc),
    ensures
        match block_from(bytes, tokens, at, acc) {
            Ok((statements, _)) => statements_sound(bytes, statements),
            Err(e) => located(e, bytes.len()),
        },
    decreases tokens.len() - at,
{
    let found = end_marker_from(bytes, tokens, at, at).0;
    let next = end_marker_from(bytes, tokens, at, at).1;
    if !found {
        lemma_statement_at_sound(bytes, tokens, next);
        match statement_at(bytes, tokens, next) {
            Err(_) => {},
            Ok((statement, behind)) => {
                if at < behind <= tokens.len() {
                    let more = acc.push(statement);
                    assert forall|i: int| 0 <= i < more.len() implies fragments_sound(
                        bytes,
                        #[trigger] more[i],
                    ) by {
                        if i < acc.len() {
                            assert(more[i] == acc[i]);
                        }
                    }
                    lemma_block_from_sound(bytes, tokens, behind, more);
                }
            },
        }
    }
}

/// An annotation that goes on over several comments can be resolved.
pub proof fn lemma_header_from_sound(
    bytes: Seq<u8>,
    tokens: Seq<(doc::Token, Span)>,
    at: int,
    collected: Seq<(ann::Token, Span)>,
    upto: int,
)
    requires
        tokens_in_place(tokens, bytes),
        0 <= at,
        collected.len() > 0,
        tokens_fit(collected, bytes, upto),
        0 <= upto <= offset_at(tokens, at),
    ensures
        match header_from(bytes, tokens, at, collected) {
            Ok(((annotation, _), _)) => annotation.all(resolvable_in(bytes)),
            Err(e) => located(e, bytes.len()),
        },
    decreases tokens.len() - at,
{
    if tokens.len() > 0 {
        assert(tokens.last().1.within(bytes.len()));
    }
    if 0 <= at < tokens.len() {
        assert(tokens[at].1.within(bytes.len()));
        assert(token_sound(bytes, tokens[at]));
        lemma_offsets_ordered(tokens, bytes.len(), at, at);
        lemma_offsets_ordered(tokens, bytes.len(), at, at + 1);
        if tokens[at].0 == doc::Token::Space || tokens[at].0 == doc::Token::CommentStart
            || tokens[at].0 == doc::Token::CommentEnd {
            lemma_header_from_sound(bytes, tokens, at + 1, collected, upto);
        } else if tokens[at].0 == doc::Token::CommentInner {
            let span = tokens[at].1;
            let more = lex_annotation(bytes, span.start as int, span.end as int, collected);
            lemma_lex_annotation_fit(bytes, span.start as int, span.end as int, collected, upto);
            assert(tokens_fit(more, bytes, span.end as int)) by {
                if span.start >= span.end {
                    assert(more == collected);
                    assert forall|i: int| 0 <= i < collected.len() implies (
                    #[trigger] collected[i]).1.start < collected[i].1.end <= span.end by {}
                }
            }
            assert(more.len() > 0) by {
                lemma_more_tokens(bytes, span.start as int, span.end as int, collected);
            }
            lemma_header_from_sound(bytes, tokens, at + 1, more, span.end as int);
        } else {
            lemma_annotation_at(bytes, collected, upto, 0);
        }
    }
}

/// Lexing does not take tokens away.
pub proof fn lemma_more_tokens(bytes: Seq<u8>, pos: int, end: int, acc: Seq<(ann::Token, Span)>)
    ensures
        acc.len() <= lex_annotation(bytes, pos, end, acc).len(),
    decreases end - pos,
{
    if !(pos < 0 || pos >= end || end > bytes.len()) {
        let next = crate::lexer::annotation::token_at(bytes, pos, end).1;
        if !(next <= pos || next > end) {
            match crate::lexer::annotation::token_at(bytes, pos, end).0 {
                Some(t) => {
                    lemma_more_tokens(
                        bytes,
                        next,
                        end,
                        acc.push((t, Span { start: pos as usize, end: next as usize })),
                    );
                },
                None => {
                    lemma_more_tokens(bytes, next, end, acc);
                },
            }
        }
    }
}

/// A query is sound: all its spans can be resolved, and every typed
/// parameter of its body is a colon with a name behind it.
pub open spec fn query_sound(bytes: Seq<u8>, query: QueryView<Span>) -> bool {
    &&& forall|i: int| 0 <= i < query.docs.len() ==> (#[trigger] query.docs[i]).resolvable(bytes)
    &&& query.annotation.all(resolvable_in(bytes))
    &&& statements_sound(bytes, query.statements)
}

/// A query that is parsed is sound.
pub proof fn lemma_query_from_sound(
    bytes: Seq<u8>,
    tokens: Seq<(doc::Token, Span)>,
    at: int,
    docs: Seq<Span>,
    collected: Seq<(ann::Token, Span)>,
    upto: int,
)
    requires
        tokens_in_place(tokens, bytes),
        0 <= at,
        collected.len() > 0,
        tokens_fit(collected, bytes, upto),
        0 <= upto <= offset_at(tokens, at),
        forall|i: int| 0 <= i < docs.len() ==> (#[trigger] docs[i]).resolvable(bytes),
    ensures
        match query_from(bytes, tokens, at, docs, collected) {
            Ok((query, _)) => query_sound(bytes, query),
            Err(e) => located(e, bytes.len()),
        },
{
    lemma_header_from_sound(bytes, tokens, at, collected, upto);
    match header_from(bytes, tokens, at, collected) {
        Err(_) => {},
        Ok(((annotation, statement_type), first)) => {
            lemma_statement_at_sound(bytes, tokens, first);
            match statement_at(bytes, tokens, first) {
                Err(_) => {},
                Ok((statement, behind)) => {
                    let one = seq![statement];
                    assert(statements_sound(bytes, one)) by {
                        assert forall|i: int| 0 <= i < one.len() implies fragments_sound(
                            bytes,
                            #[trigger] one[i],
                        ) by {
                            assert(one[i] == statement);
                        }
                    }
                    match statement_type {
                        StatementType::Single => {},
                        StatementType::Multi => {
                            lemma_block_from_sound(bytes, tokens, behind, one);
                        },
                    }
                },
            }
        },
    }
}

/// A section is sound: a verbatim section can be resolved, and a query is sound.
pub open spec fn section_sound(bytes: Seq<u8>, section: SectionView<Span>) -> bool {
    match section {
        SectionView::Verbatim(span) => span.resolvable(bytes),
        SectionView::Query(query) => query_sound(bytes, query),
    }
}

/// A section that is parsed is sound.
pub proof fn lemma_section_from_sound(
    bytes: Seq<u8>,
    tokens: Seq<(doc::Token, Span)>,
    first: int,
    at: int,
    docs: Seq<Span>,
)
    requires
        tokens_in_place(tokens, bytes),
        0 <= first <= at <= tokens.len(),
        first < tokens.len(),
        first < at || at < tokens.len(),
        forall|i: int| 0 <= i < docs.len() ==> (#[trigger] docs[i]).resolvable(bytes),
    ensures
        match section_from(bytes, tokens, first, at, docs) {
            Ok((section, _)) => section_sound(bytes, section),
            Err(e) => located(e, bytes.len()),
        },
    decreases tokens.len() - at,
{
    if at < tokens.len() {
        lemma_between_tokens(bytes, tokens, first, at);
        lemma_offsets_ordered(tokens, bytes.len(), at, at + 1);
        if tokens[at].0 == doc::Token::Space && has_blank_line(bytes, tokens[at].1) {
        } else if tokens[at].0 == doc::Token::CommentInner {
            let span = tokens[at].1;
            if starts_annotation(bytes, span) {
                let collected = lex_annotation(
                    bytes,
                    span.start as int,
                    span.end as int,
                    Seq::empty(),
                );
                assert(token_sound(bytes, tokens[at]));
                lemma_lex_annotation_fit(
                    bytes,
                    span.start as int,
                    span.end as int,
                    Seq::empty(),
                    0,
                );
                assert(span.start < span.end) by {
                    if span.start >= span.end {
                        assert(collected =~= Seq::empty());
                    }
                }
                lemma_query_from_sound(bytes, tokens, at + 1, docs, collected, span.end as int);
            } else {
                let more = docs.push(span);
                assert forall|i: int| 0 <= i < more.len() implies (#[trigger] more[i]).resolvable(
                    bytes,
                ) by {
                    if i < docs.len() {
                        assert(more[i] == docs[i]);
                    }
                }
                lemma_section_from_sound(bytes, tokens, first, at + 1, more);
            }
        } else {
            lemma_section_from_sound(bytes, tokens, first, at + 1, docs);
        }
    } else {
        lemma_between_tokens(bytes, tokens, first, at - 1);
    }
}

/// All sections are sound.
pub open spec fn sections_sound(bytes: Seq<u8>, sections: Seq<SectionView<Span>>) -> bool {
    forall|i: int| 0 <= i < sections.len() ==> section_sound(bytes, #[trigger] sections[i])
}

/// Sections that are parsed behind sound sections are sound.
pub proof fn lemma_sections_from_sound(
    bytes: Seq<u8>,
    tokens: Seq<(doc::Token, Span)>,
    at: int,
    acc: Seq<SectionView<Span>>,
)
    requires
        tokens_in_place(tokens, bytes),
        0 <= at,
        sections_sound(bytes, acc),
    ensures
        match sections_from(bytes, tokens, at, acc) {
            Ok(sections) => sections_sound(bytes, sections),
            Err(e) => located(e, bytes.len()),
        },
    decreases tokens.len() - at,
{
    if at < tokens.len() {
        lemma_section_from_sound(bytes, tokens, at, at, Seq::empty());
        match section_at(bytes, tokens, at) {
            Err(_) => {},
            Ok((section, behind)) => {
                if at < behind <= tokens.len() {
                    let more = acc.push(section);
                    assert forall|i: int| 0 <= i < more.len() implies section_sound(
                        bytes,
                        #[trigger] more[i],
                    ) by {
                        if i < acc.len() {
                            assert(more[i] == acc[i]);
                        }
                    }
                    lemma_sections_from_sound(bytes, tokens, behind, more);
                }
            },
        }
    }
}

/// In a document that is parsed
/// from the tokens of an input that is valid UTF-8, every span lies inside
/// the input and can be resolved, and every typed parameter is a colon with
/// a name behind it. An error points into the input.
pub proof fn lemma_document_sound(bytes: Seq<u8>, tokens: Seq<(doc::Token, Span)>, at: int)
    requires
        tokens_in_place(tokens, bytes),
        0 <= at,
    ensures
        match sections_from(bytes, tokens, at, Seq::empty()) {
            Ok(sections) => sections_sound(bytes, sections),
            Err(e) => located(e, bytes.len()),
        },
{
    lemma_sections_from_sound(bytes, tokens, at, Seq::empty());
}

/// All spans of sound sections can be resolved.
pub proof fn lemma_sound_sections_resolvable(bytes: Seq<u8>, document: crate::ast::DocumentView<Span>)
    requires
        sections_sound(bytes, document.sections),
    ensures
        document.all(resolvable_in(bytes)),
{
    assert forall|i: int| 0 <= i < document.sections.len() implies (
    #[trigger] document.sections[i]).all(resolvable_in(bytes)) by {
        let section = document.sections[i];
        assert(section_sound(bytes, section));
        match section {
            SectionView::Verbatim(_) => {},
            SectionView::Query(query) => {
                assert forall|s: int| 0 <= s < query.statements.len() implies all_statement(
                    #[trigger] query.statements[s],
                    resolvable_in(bytes),
                ) by {
                    assert(fragments_sound(bytes, query.statements[s]));
                    assert forall|f: int| 0 <= f < query.statements[s].len() implies (
                    #[trigger] query.statements[s][f]).all(resolvable_in(bytes)) by {
                        assert(fragment_sound(bytes, query.statements[s][f]));
                    }
                }
            },
        }
    }
}

} // verus!
