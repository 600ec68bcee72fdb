//! How the parts of a parsed document lie in the input.
//!
//! The parser is lossless: the sections of a document tile the tokens that
//! were parsed, and the fragments of a statement tile the bytes of the
//! statement. The brackets in a statement match. The predicates here say
//! so, over the tokens and the parsed document.
use crate::ast::{Fragment, QueryView, SectionView};
use crate::lexer::document::{comments_paired, contiguous, Token};
use crate::ast::StatementType;
use crate::lexer::annotation as ann;
use crate::lexer::annotation::lex_annotation;
use crate::parser::document::{
    after_annotation, annotated_token, behind_comment, block_from, close_bracket, end_marker_from,
    has_blank_line, header_from, is_closer, is_opener, query_from, section_at, section_from,
    sections_from, starts_annotation, statement_at, statement_from, type_annotation_at,
    type_comment_start, with_verbatim, StatementState,
};
use crate::Span;
use vstd::prelude::*;

verus! {

/// The byte offset at which token `i` starts. For the index behind the
/// last token it is the offset at which the last token ends.
pub open spec fn offset_at(tokens: Seq<(Token, Span)>, i: int) -> int {
    if 0 <= i < tokens.len() {
        tokens[i].1.start as int
    } else if tokens.len() > 0 {
        tokens.last().1.end as int
    } else {
        0
    }
}

/// The fragments follow each other without a gap, from byte `from` to
/// byte `to`, and none ends before it starts.
#[verifier::opaque]
pub open spec fn fragments_join(fragments: Seq<Fragment<Span>>, from: int, to: int) -> bool {
    &&& forall|i: int|
        0 <= i < fragments.len() ==> (#[trigger] fragments[i]).full_span().start
            <= fragments[i].full_span().end
    &&& forall|i: int, j: int|
        0 <= i && j == i + 1 && j < fragments.len() ==> (#[trigger] fragments[i]).full_span().end
            == (#[trigger] fragments[j]).full_span().start
    &&& if fragments.len() == 0 {
        from == to
    } else {
        fragments[0].full_span().start == from && fragments.last().full_span().end == to
    }
}

/// The brackets that are open behind the tokens from `from` up to `to`,
/// or nothing if one of these tokens closes a bracket that is not the last
/// one opened.
#[verifier::opaque]
pub open spec fn open_brackets(tokens: Seq<(Token, Span)>, from: int, to: int) -> Option<
    Seq<(Token, Span)>,
>
    decreases to - from,
{
    if to <= from || to > tokens.len() || from < 0 {
        Some(Seq::empty())
    } else {
        match open_brackets(tokens, from, to - 1) {
            None => None,
            Some(stack) => if is_opener(tokens[to - 1].0) {
                Some(stack.push(tokens[to - 1]))
            } else if is_closer(tokens[to - 1].0) {
                match close_bracket(tokens, to - 1, stack) {
                    Ok(rest) => Some(rest),
                    Err(_) => None,
                }
            } else {
                Some(stack)
            },
        }
    }
}

/// Every bracket that opens among the tokens from `from` up to `to` is
/// closed there by its counterpart, and no other bracket is closed.
pub open spec fn balanced(tokens: Seq<(Token, Span)>, from: int, to: int) -> bool {
    open_brackets(tokens, from, to) == Some(Seq::<(Token, Span)>::empty())
}

/// The first byte of a statement.
pub open spec fn statement_start(fragments: Seq<Fragment<Span>>) -> int {
    fragments[0].full_span().start as int
}

/// The byte behind a statement.
pub open spec fn statement_end(fragments: Seq<Fragment<Span>>) -> int {
    fragments.last().full_span().end as int
}

/// The statement is made of the tokens from `at` up to `behind`: its
/// fragments tile the bytes of these tokens, the last of them is the
/// semicolon that ends the statement, which is in the verbatim text that
/// is the last fragment, and the brackets among them match.
/// Where the tokens pair the parts of comments, as the lexer does, every
/// fragment with a type is one token with its type comment.
pub open spec fn statement_spans(
    tokens: Seq<(Token, Span)>,
    fragments: Seq<Fragment<Span>>,
    at: int,
    behind: int,
) -> bool {
    &&& 0 <= at < behind <= tokens.len()
    &&& fragments.len() > 0
    &&& fragments_join(fragments, offset_at(tokens, at), offset_at(tokens, behind))
    &&& tokens[behind - 1].0 == Token::Semicolon
    &&& fragments.last() is Verbatim
    &&& balanced(tokens, at, behind)
    &&& comments_paired(tokens) ==> only_comments_stripped(tokens, fragments)
}

/// The statement is made of some of the tokens from `at` up to `behind`.
pub open spec fn statement_within(
    tokens: Seq<(Token, Span)>,
    fragments: Seq<Fragment<Span>>,
    at: int,
    behind: int,
) -> bool {
    exists|first: int, last: int|
        at <= first && last <= behind && #[trigger] statement_spans(tokens, fragments, first, last)
}

/// The statements of a query lie among the tokens from `at` up to
/// `behind`, one behind the other.
pub open spec fn query_within(
    tokens: Seq<(Token, Span)>,
    query: QueryView<Span>,
    at: int,
    behind: int,
) -> bool {
    &&& query.statements.len() > 0
    &&& forall|k: int|
        0 <= k < query.statements.len() ==> statement_within(
            tokens,
            #[trigger] query.statements[k],
            at,
            behind,
        )
    &&& forall|k: int, l: int|
        0 <= k && l == k + 1 && l < query.statements.len() ==> statement_end(
            #[trigger] query.statements[k],
        ) <= statement_start(#[trigger] query.statements[l])
}

/// The section is made of the tokens from `at` up to `behind`: a verbatim
/// section spans their bytes, and the statements of a query lie among them.
pub open spec fn section_spans(
    tokens: Seq<(Token, Span)>,
    section: SectionView<Span>,
    at: int,
    behind: int,
) -> bool {
    &&& 0 <= at < behind <= tokens.len()
    &&& match section {
        SectionView::Verbatim(span) => span.start == offset_at(tokens, at) && span.end == offset_at(
            tokens,
            behind,
        ),
        SectionView::Query(query) => query_within(tokens, query, at, behind),
    }
}

/// The sections tile the tokens from `cuts[0]` on: section `i` is made of
/// the tokens from `cuts[i]` up to `cuts[i + 1]`.
pub open spec fn sections_tile(
    tokens: Seq<(Token, Span)>,
    sections: Seq<SectionView<Span>>,
    cuts: Seq<int>,
) -> bool {
    &&& cuts.len() == sections.len() + 1
    &&& forall|i: int|
        0 <= i < sections.len() ==> section_spans(
            tokens,
            #[trigger] sections[i],
            cuts[i],
            cuts[i + 1],
        )
}

/// The sections tile all tokens from `at` on.
pub open spec fn document_tiles(
    tokens: Seq<(Token, Span)>,
    sections: Seq<SectionView<Span>>,
    at: int,
) -> bool {
    exists|cuts: Seq<int>| #[trigger]
        sections_tile(tokens, sections, cuts) && cuts[0] == at && (at < tokens.len()
            ==> cuts.last() == tokens.len())
}

/// Before the first token no bracket is open.
pub proof fn lemma_open_brackets_none(tokens: Seq<(Token, Span)>, from: int)
    ensures
        open_brackets(tokens, from, from) == Some(Seq::<(Token, Span)>::empty()),
{
    reveal(open_brackets);
}

/// What one more token does to the open brackets.
pub proof fn lemma_open_brackets_step(
    tokens: Seq<(Token, Span)>,
    from: int,
    to: int,
    stack: Seq<(Token, Span)>,
)
    requires
        0 <= from <= to < tokens.len(),
        open_brackets(tokens, from, to) == Some(stack),
    ensures
        is_opener(tokens[to].0) ==> open_brackets(tokens, from, to + 1) == Some(
            stack.push(tokens[to]),
        ),
        is_closer(tokens[to].0) ==> (close_bracket(tokens, to, stack) matches Ok(rest)
            ==> open_brackets(tokens, from, to + 1) == Some(rest)),
        !is_opener(tokens[to].0) && !is_closer(tokens[to].0) ==> open_brackets(tokens, from, to + 1)
            == Some(stack),
{
    reveal(open_brackets);
}

/// No fragments join a byte to itself.
pub proof fn lemma_join_none(at: int)
    ensures
        fragments_join(Seq::empty(), at, at),
{
    reveal(fragments_join);
}

/// A fragment that starts where others end joins them.
pub proof fn lemma_join_push(fragments: Seq<Fragment<Span>>, from: int, to: int, next: Fragment<Span>)
    requires
        fragments_join(fragments, from, to),
        next.full_span().start == to,
        next.full_span().start <= next.full_span().end,
    ensures
        fragments_join(fragments.push(next), from, next.full_span().end as int),
{
    reveal(fragments_join);
    let all = fragments.push(next);
    assert forall|i: int, j: int| 0 <= i && j == i + 1 && j < all.len() implies (#[trigger] all[i]).full_span().end
        == (#[trigger] all[j]).full_span().start by {
        if j < fragments.len() {
            assert(all[i] == fragments[i] && all[j] == fragments[j]);
        } else {
            assert(all[i] == fragments.last());
        }
    }
}

/// Without their last two, fragments that join still join, up to where
/// the first of the two starts.
pub proof fn lemma_join_drop_two(fragments: Seq<Fragment<Span>>, from: int, to: int)
    requires
        fragments_join(fragments, from, to),
        fragments.len() >= 2,
    ensures
        fragments_join(
            fragments.subrange(0, fragments.len() - 2),
            from,
            fragments[fragments.len() - 2].full_span().start as int,
        ),
        from <= fragments[fragments.len() - 2].full_span().start,
{
    reveal(fragments_join);
    let n = fragments.len() as int;
    let kept = fragments.subrange(0, n - 2);
    assert forall|i: int, j: int| 0 <= i && j == i + 1 && j < kept.len() implies (#[trigger] kept[i]).full_span().end
        == (#[trigger] kept[j]).full_span().start by {
        assert(kept[i] == fragments[i] && kept[j] == fragments[j]);
    }
    assert forall|i: int| 0 <= i < kept.len() implies (#[trigger] kept[i]).full_span().start
        <= kept[i].full_span().end by {
        assert(kept[i] == fragments[i]);
    }
    if n > 2 {
        assert(kept.last() == fragments[n - 3]);
        assert(fragments[n - 3].full_span().end == fragments[n - 2].full_span().start);
        assert(kept[0] == fragments[0]);
        lemma_join_ordered(fragments, from, to, 0, n - 2);
    }
}

/// Fragments that join start in the order of their indices.
pub proof fn lemma_join_ordered(fragments: Seq<Fragment<Span>>, from: int, to: int, i: int, j: int)
    requires
        fragments_join(fragments, from, to),
        0 <= i <= j < fragments.len(),
    ensures
        from <= fragments[i].full_span().start <= fragments[j].full_span().start,
        fragments[j].full_span().end <= to,
    decreases fragments.len() - i,
{
    reveal(fragments_join);
    lemma_join_bounds(fragments, from, to, i);
    lemma_join_bounds(fragments, from, to, j);
    if i < j {
        assert(fragments[i].full_span().end == fragments[i + 1].full_span().start);
        lemma_join_ordered(fragments, from, to, i + 1, j);
    }
}

/// Each of the fragments that join lies between the two ends.
pub proof fn lemma_join_bounds(fragments: Seq<Fragment<Span>>, from: int, to: int, i: int)
    requires
        fragments_join(fragments, from, to),
        0 <= i < fragments.len(),
    ensures
        from <= fragments[i].full_span().start <= fragments[i].full_span().end <= to,
{
    reveal(fragments_join);
    lemma_join_from(fragments, from, to, i);
    lemma_join_to(fragments, from, to, i);
}

proof fn lemma_join_from(fragments: Seq<Fragment<Span>>, from: int, to: int, i: int)
    requires
        fragments_join(fragments, from, to),
        0 <= i < fragments.len(),
    ensures
        from <= fragments[i].full_span().start,
    decreases i,
{
    reveal(fragments_join);
    if i > 0 {
        lemma_join_from(fragments, from, to, i - 1);
        assert(fragments[i - 1].full_span().end == fragments[i].full_span().start);
    }
}

proof fn lemma_join_to(fragments: Seq<Fragment<Span>>, from: int, to: int, i: int)
    requires
        fragments_join(fragments, from, to),
        0 <= i < fragments.len(),
    ensures
        fragments[i].full_span().end <= to,
    decreases fragments.len() - i,
{
    reveal(fragments_join);
    if i < fragments.len() - 1 {
        lemma_join_to(fragments, from, to, i + 1);
        assert(fragments[i].full_span().end == fragments[i + 1].full_span().start);
    }
}

/// Tokens that follow each other start in the order of their indices.
pub proof fn lemma_offsets_ordered(tokens: Seq<(Token, Span)>, len: nat, i: int, j: int)
    requires
        contiguous(tokens, len),
        0 <= i <= j <= tokens.len(),
    ensures
        offset_at(tokens, i) <= offset_at(tokens, j) <= len,
        j < tokens.len() ==> offset_at(tokens, j + 1) == tokens[j].1.end,
    decreases j - i,
{
    if j < tokens.len() {
        assert(tokens[j].1.within(len));
        if j + 1 < tokens.len() {
            assert(tokens[j].1.end == tokens[j + 1].1.start);
        }
    } else if tokens.len() > 0 {
        assert(tokens.last().1.within(len));
    }
    if i < j {
        lemma_offsets_ordered(tokens, len, i, j - 1);
        assert(tokens[j - 1].1.within(len));
        if j < tokens.len() {
            assert(tokens[j - 1].1.end == tokens[j].1.start);
        }
    }
}

/// The token that a type comment annotates stands before the comment.
pub proof fn lemma_annotated_token_before(tokens: Seq<(Token, Span)>, i: int)
    ensures
        annotated_token(tokens, i) matches Some(target) ==> 0 <= target <= i && target
            < tokens.len() && (tokens[target].0 == Token::Ident || tokens[target].0
            == Token::Param),
    decreases i + 1,
{
    if 0 <= i < tokens.len() && tokens[i].0 == Token::Space {
        lemma_annotated_token_before(tokens, i - 1);
    }
}

/// A typed fragment starts at the token that it annotates and ends with
/// its type comment.
pub proof fn lemma_type_annotation_span(
    bytes: Seq<u8>,
    tokens: Seq<(Token, Span)>,
    at: int,
    type_start: int,
)
    requires
        contiguous(tokens, bytes.len()),
        0 <= at < tokens.len(),
    ensures
        type_annotation_at(bytes, tokens, at, type_start) matches Ok(hole) ==> {
            &&& hole.full_span().start <= hole.full_span().end
            &&& hole.full_span().end == offset_at(tokens, behind_comment(tokens, at))
            &&& (hole is TypedIdent || hole is TypedParam)
        },
{
    lemma_annotated_token_before(tokens, at - 2);
    let behind = behind_comment(tokens, at);
    lemma_offsets_ordered(tokens, bytes.len(), behind - 1, behind - 1);
    match annotated_token(tokens, at - 2) {
        Some(target) => {
            lemma_offsets_ordered(tokens, bytes.len(), target, behind - 1);
            assert(tokens[behind - 1].1.within(bytes.len()));
        },
        None => {},
    }
}

/// The state in which the layout of a statement is in order: the fragments
/// tile the bytes from the first token of the statement up to the start of
/// the verbatim text, which starts no later than the token under the
/// cursor, and the stack holds the brackets that are open.
pub open spec fn state_in_order(tokens: Seq<(Token, Span)>, state: StatementState, first: int) -> bool {
    &&& 0 <= first <= state.at <= tokens.len()
    &&& first < tokens.len()
    &&& fragments_join(state.fragments, offset_at(tokens, first), state.verbatim_from as int)
    &&& state.verbatim_from <= offset_at(tokens, state.at)
    &&& open_brackets(tokens, first, state.at) == Some(state.stack)
}

/// A type comment leaves the layout of the statement in order.
pub proof fn lemma_after_annotation(
    bytes: Seq<u8>,
    tokens: Seq<(Token, Span)>,
    state: StatementState,
    first: int,
    hole: Fragment<Span>,
)
    requires
        contiguous(tokens, bytes.len()),
        state_in_order(tokens, state, first),
        state.at < tokens.len(),
        tokens[state.at].0 == Token::CommentInner,
        hole.full_span().start <= hole.full_span().end,
        hole.full_span().end == offset_at(tokens, behind_comment(tokens, state.at)),
    ensures
        after_annotation(tokens, state, hole) matches Ok(next) ==> state_in_order(
            tokens,
            next,
            first,
        ) && state.at < next.at,
{
    let from = offset_at(tokens, first);
    match after_annotation(tokens, state, hole) {
        Err(_) => {},
        Ok(next) => {
            let n = state.fragments.len() as int;
            let start = if hole is TypedParam {
                state.fragments[n - 2].full_span().start
            } else {
                state.verbatim_from
            };
            let kept = if hole is TypedParam {
                state.fragments.subrange(0, n - 2)
            } else {
                state.fragments
            };
            assert(fragments_join(kept, from, start as int)) by {
                if hole is TypedParam {
                    lemma_join_drop_two(state.fragments, from, state.verbatim_from as int);
                }
            }
            let flushed = with_verbatim(kept, start, hole.full_span().start);
            assert(fragments_join(flushed, from, hole.full_span().start as int)) by {
                if start < hole.full_span().start {
                    lemma_join_push(
                        kept,
                        from,
                        start as int,
                        Fragment::Verbatim(Span { start, end: hole.full_span().start }),
                    );
                }
            }
            lemma_join_push(flushed, from, hole.full_span().start as int, hole);
            // The tokens of the comment are no brackets.
            lemma_open_brackets_step(tokens, first, state.at, state.stack);
            if next.at == state.at + 2 {
                lemma_open_brackets_step(tokens, first, state.at + 1, state.stack);
            }
        },
    }
}

/// A statement that is parsed from a state in order is in order: its
/// fragments tile its tokens, and its brackets match.
pub proof fn lemma_statement_from_in_order(
    bytes: Seq<u8>,
    tokens: Seq<(Token, Span)>,
    state: StatementState,
    first: int,
)
    requires
        contiguous(tokens, bytes.len()),
        state_in_order(tokens, state, first),
    ensures
        statement_from(bytes, tokens, state) matches Ok((fragments, behind)) ==> {
            &&& 0 <= first < behind <= tokens.len()
            &&& fragments.len() > 0
            &&& fragments_join(fragments, offset_at(tokens, first), offset_at(tokens, behind))
            &&& tokens[behind - 1].0 == Token::Semicolon
            &&& fragments.last() is Verbatim
            &&& balanced(tokens, first, behind)
        },
    decreases tokens.len() - state.at,
{
    let at = state.at;
    let from = offset_at(tokens, first);
    if 0 <= at < tokens.len() {
        let token = tokens[at].0;
        let span = tokens[at].1;
        assert(span.within(bytes.len()));
        lemma_offsets_ordered(tokens, bytes.len(), at, at);
        lemma_offsets_ordered(tokens, bytes.len(), at, at + 1);
        lemma_open_brackets_step(tokens, first, at, state.stack);
        if is_opener(token) {
            lemma_statement_from_in_order(
                bytes,
                tokens,
                StatementState { at: at + 1, stack: state.stack.push(tokens[at]), ..state },
                first,
            );
        } else if is_closer(token) {
            match close_bracket(tokens, at, state.stack) {
                Err(_) => {},
                Ok(stack) => {
                    lemma_statement_from_in_order(
                        bytes,
                        tokens,
                        StatementState { at: at + 1, stack, ..state },
                        first,
                    );
                },
            }
        } else if token == Token::CommentInner {
            match type_comment_start(bytes, span) {
                None => {
                    lemma_statement_from_in_order(
                        bytes,
                        tokens,
                        StatementState { at: at + 1, ..state },
                        first,
                    );
                },
                Some(type_start) => {
                    lemma_type_annotation_span(bytes, tokens, at, type_start);
                    match type_annotation_at(bytes, tokens, at, type_start) {
                        Err(_) => {},
                        Ok(hole) => {
                            lemma_after_annotation(bytes, tokens, state, first, hole);
                            match after_annotation(tokens, state, hole) {
                                Err(_) => {},
                                Ok(next) => {
                                    lemma_statement_from_in_order(bytes, tokens, next, first);
                                },
                            }
                        },
                    }
                },
            }
        } else if token == Token::Param {
            let verbatim = Fragment::Verbatim(Span { start: state.verbatim_from, end: span.start });
            lemma_join_push(state.fragments, from, state.verbatim_from as int, verbatim);
            lemma_join_push(
                state.fragments.push(verbatim),
                from,
                span.start as int,
                Fragment::Param(span),
            );
            lemma_statement_from_in_order(
                bytes,
                tokens,
                StatementState {
                    at: at + 1,
                    stack: state.stack,
                    fragments: state.fragments.push(verbatim).push(Fragment::Param(span)),
                    verbatim_from: span.end,
                },
                first,
            );
        } else if token == Token::Semicolon {
            if state.stack.len() == 0 {
                let verbatim = Fragment::Verbatim(Span { start: state.verbatim_from, end: span.end });
                lemma_join_push(state.fragments, from, state.verbatim_from as int, verbatim);
                assert(state.stack =~= Seq::empty());
            }
        } else {
            lemma_statement_from_in_order(
                bytes,
                tokens,
                StatementState { at: at + 1, ..state },
                first,
            );
        }
    }
}

/// The fragments
/// of a statement that is parsed at token `at` tile the bytes of its tokens,
/// up to and including its semicolon, and every bracket that opens in the
/// statement is closed in it by its counterpart.
pub proof fn lemma_statement_in_order(bytes: Seq<u8>, tokens: Seq<(Token, Span)>, at: int)
    requires
        contiguous(tokens, bytes.len()),
    ensures
        statement_at(bytes, tokens, at) matches Ok((fragments, behind)) ==> statement_spans(
            tokens,
            fragments,
            at,
            behind,
        ),
{
    reveal(statement_at);
    if comments_paired(tokens) {
        lemma_only_comments_stripped(bytes, tokens, at);
    }
    if 0 <= at < tokens.len() {
        lemma_join_none(offset_at(tokens, at));
        lemma_open_brackets_none(tokens, at);
        lemma_statement_from_in_order(
            bytes,
            tokens,
            StatementState {
                at,
                stack: Seq::empty(),
                fragments: Seq::empty(),
                verbatim_from: tokens[at].1.start,
            },
            at,
        );
    }
}

/// The statements lie among the tokens from `at` up to `behind`, one
/// behind the other, and the last of them ends no later than these tokens.
pub open spec fn statements_in_order(
    tokens: Seq<(Token, Span)>,
    statements: Seq<Seq<Fragment<Span>>>,
    at: int,
    behind: int,
) -> bool {
    &&& forall|k: int|
        0 <= k < statements.len() ==> statement_within(tokens, #[trigger] statements[k], at, behind)
    &&& forall|k: int, l: int|
        0 <= k && l == k + 1 && l < statements.len() ==> statement_end(#[trigger] statements[k])
            <= statement_start(#[trigger] statements[l])
    &&& statements.len() > 0 ==> statement_end(statements.last()) <= offset_at(tokens, behind)
}

/// One more statement, made of tokens behind the others, keeps the
/// statements in order.
pub proof fn lemma_statements_push(
    tokens: Seq<(Token, Span)>,
    len: nat,
    statements: Seq<Seq<Fragment<Span>>>,
    at: int,
    mid: int,
    first: int,
    behind: int,
    next: Seq<Fragment<Span>>,
)
    requires
        contiguous(tokens, len),
        statements_in_order(tokens, statements, at, mid),
        0 <= at <= mid <= first,
        statement_spans(tokens, next, first, behind),
    ensures
        statements_in_order(tokens, statements.push(next), at, behind),
{
    reveal(fragments_join);
    let all = statements.push(next);
    assert(statement_within(tokens, next, at, behind));
    assert forall|k: int| 0 <= k < all.len() implies statement_within(
        tokens,
        #[trigger] all[k],
        at,
        behind,
    ) by {
        if k < statements.len() {
            assert(all[k] == statements[k]);
            assert(statement_within(tokens, statements[k], at, mid));
            let (f, l) = choose|f: int, l: int|
                at <= f && l <= mid && #[trigger] statement_spans(tokens, statements[k], f, l);
            assert(at <= f && l <= behind && statement_spans(tokens, statements[k], f, l));
        }
    }
    lemma_offsets_ordered(tokens, len, mid, first);
    assert forall|k: int, l: int| 0 <= k && l == k + 1 && l < all.len() implies statement_end(
        #[trigger] all[k],
    ) <= statement_start(#[trigger] all[l]) by {
        if l < statements.len() {
            assert(all[k] == statements[k] && all[l] == statements[l]);
        } else {
            assert(all[k] == statements.last());
        }
    }
}

/// The search for an `@end` marker goes forward, and stays among the tokens.
pub proof fn lemma_end_marker_from(bytes: Seq<u8>, tokens: Seq<(Token, Span)>, at: int, resume: int)
    requires
        0 <= resume <= at,
    ensures
        resume <= end_marker_from(bytes, tokens, at, resume).1,
        at <= tokens.len() ==> end_marker_from(bytes, tokens, at, resume).1 <= tokens.len(),
    decreases tokens.len() - at,
{
    if 0 <= at < tokens.len() {
        if tokens[at].0 == Token::Space {
            lemma_end_marker_from(bytes, tokens, at + 1, at + 1);
        } else if tokens[at].0 == Token::CommentStart {
            lemma_end_marker_from(bytes, tokens, at + 1, resume);
        }
    }
}

/// The statements of a block are in order.
pub proof fn lemma_block_from(
    bytes: Seq<u8>,
    tokens: Seq<(Token, Span)>,
    at: int,
    acc: Seq<Seq<Fragment<Span>>>,
    lo: int,
)
    requires
        contiguous(tokens, bytes.len()),
        0 <= lo <= at <= tokens.len(),
        statements_in_order(tokens, acc, lo, at),
    ensures
        block_from(bytes, tokens, at, acc) matches Ok((statements, end)) ==> at <= end
            <= tokens.len() && statements_in_order(tokens, statements, lo, end),
    decreases tokens.len() - at,
{
    let found = end_marker_from(bytes, tokens, at, at).0;
    let next = end_marker_from(bytes, tokens, at, at).1;
    lemma_end_marker_from(bytes, tokens, at, at);
    lemma_statements_wider(tokens, bytes.len(), acc, lo, at, next);
    if !found {
        lemma_statement_in_order(bytes, tokens, next);
        match statement_at(bytes, tokens, next) {
            Err(_) => {},
            Ok((statement, behind)) => {
                if at < behind <= tokens.len() {
                    lemma_statements_push(tokens, bytes.len(), acc, lo, at, next, behind, statement);
                    lemma_block_from(bytes, tokens, behind, acc.push(statement), lo);
                }
            },
        }
    }
}

/// Statements that are in order among some tokens are in order among more tokens.
pub proof fn lemma_statements_wider(
    tokens: Seq<(Token, Span)>,
    len: nat,
    statements: Seq<Seq<Fragment<Span>>>,
    at: int,
    behind: int,
    further: int,
)
    requires
        contiguous(tokens, len),
        statements_in_order(tokens, statements, at, behind),
        0 <= behind <= further <= tokens.len(),
    ensures
        statements_in_order(tokens, statements, at, further),
{
    lemma_offsets_ordered(tokens, len, behind, further);
    assert forall|k: int| 0 <= k < statements.len() implies statement_within(
        tokens,
        #[trigger] statements[k],
        at,
        further,
    ) by {
        assert(statement_within(tokens, statements[k], at, behind));
        let (f, l) = choose|f: int, l: int|
            at <= f && l <= behind && #[trigger] statement_spans(tokens, statements[k], f, l);
        assert(at <= f && l <= further && statement_spans(tokens, statements[k], f, l));
    }
}

/// The query starts behind its annotation, at a token.
pub proof fn lemma_header_from(
    bytes: Seq<u8>,
    tokens: Seq<(Token, Span)>,
    at: int,
    collected: Seq<(ann::Token, Span)>,
)
    requires
        0 <= at,
    ensures
        header_from(bytes, tokens, at, collected) matches Ok((_, first)) ==> at <= first
            < tokens.len(),
    decreases tokens.len() - at,
{
    if 0 <= at < tokens.len() {
        if tokens[at].0 == Token::Space || tokens[at].0 == Token::CommentStart || tokens[at].0
            == Token::CommentEnd {
            lemma_header_from(bytes, tokens, at + 1, collected);
        } else if tokens[at].0 == Token::CommentInner {
            lemma_header_from(
                bytes,
                tokens,
                at + 1,
                lex_annotation(
                    bytes,
                    tokens[at].1.start as int,
                    tokens[at].1.end as int,
                    collected,
                ),
            );
        }
    }
}

/// Each statement of a
/// query that is parsed from token `at` on is made of tokens behind `at`,
/// which its fragments tile and among which the brackets match, and the
/// statements lie one behind the other.
pub proof fn lemma_query_from(
    bytes: Seq<u8>,
    tokens: Seq<(Token, Span)>,
    at: int,
    docs: Seq<Span>,
    collected: Seq<(ann::Token, Span)>,
)
    requires
        contiguous(tokens, bytes.len()),
        0 <= at,
    ensures
        query_from(bytes, tokens, at, docs, collected) matches Ok((query, behind)) ==> at < behind
            <= tokens.len() && query_within(tokens, query, at, behind),
{
    lemma_header_from(bytes, tokens, at, collected);
    match header_from(bytes, tokens, at, collected) {
        Err(_) => {},
        Ok(((annotation, statement_type), first)) => {
            lemma_statement_in_order(bytes, tokens, first);
            match statement_at(bytes, tokens, first) {
                Err(_) => {},
                Ok((statement, behind)) => {
                    let one = seq![statement];
                    assert(one =~= Seq::<Seq<Fragment<Span>>>::empty().push(statement));
                    lemma_statements_push(
                        tokens,
                        bytes.len(),
                        Seq::empty(),
                        at,
                        at,
                        first,
                        behind,
                        statement,
                    );
                    match statement_type {
                        StatementType::Single => {},
                        StatementType::Multi => {
                            lemma_block_from(bytes, tokens, behind, one, at);
                            match block_from(bytes, tokens, behind, one) {
                                Err(_) => {},
                                Ok((statements, end)) => {
                                    lemma_block_keeps(bytes, tokens, behind, one);
                                },
                            }
                        },
                    }
                },
            }
        },
    }
}

/// A block keeps the statements that it starts with.
pub proof fn lemma_block_keeps(
    bytes: Seq<u8>,
    tokens: Seq<(Token, Span)>,
    at: int,
    acc: Seq<Seq<Fragment<Span>>>,
)
    ensures
        block_from(bytes, tokens, at, acc) matches Ok((statements, _)) ==> acc.len()
            <= statements.len(),
    decreases tokens.len() - at,
{
    let found = end_marker_from(bytes, tokens, at, at).0;
    let next = end_marker_from(bytes, tokens, at, at).1;
    if !found {
        match statement_at(bytes, tokens, next) {
            Err(_) => {},
            Ok((statement, behind)) => {
                if at < behind <= tokens.len() {
                    lemma_block_keeps(bytes, tokens, behind, acc.push(statement));
                }
            },
        }
    }
}

/// A section that goes on from token `at` is made of the tokens from its
/// first token up to the token behind it.
pub proof fn lemma_section_from(
    bytes: Seq<u8>,
    tokens: Seq<(Token, Span)>,
    first: int,
    at: int,
    docs: Seq<Span>,
)
    requires
        contiguous(tokens, bytes.len()),
        0 <= first <= at <= tokens.len(),
        first < tokens.len(),
        first < at || at < tokens.len(),
    ensures
        section_from(bytes, tokens, first, at, docs) matches Ok((section, behind)) ==> section_spans(
            tokens,
            section,
            first,
            behind,
        ),
    decreases tokens.len() - at,
{
    lemma_offsets_ordered(tokens, bytes.len(), first, at);
    if at < tokens.len() {
        lemma_offsets_ordered(tokens, bytes.len(), at, at + 1);
        if tokens[at].0 == Token::Space && has_blank_line(bytes, tokens[at].1) {
        } else if tokens[at].0 == Token::CommentInner {
            if starts_annotation(bytes, tokens[at].1) {
                let collected = lex_annotation(
                    bytes,
                    tokens[at].1.start as int,
                    tokens[at].1.end as int,
                    Seq::empty(),
                );
                lemma_query_from(bytes, tokens, at + 1, docs, collected);
                match query_from(bytes, tokens, at + 1, docs, collected) {
                    Err(_) => {},
                    Ok((query, behind)) => {
                        lemma_query_wider(tokens, query, first, at + 1, behind);
                    },
                }
            } else {
                lemma_section_from(bytes, tokens, first, at + 1, docs.push(tokens[at].1));
            }
        } else {
            lemma_section_from(bytes, tokens, first, at + 1, docs);
        }
    }
}

/// A query that lies among some tokens lies among more tokens.
pub proof fn lemma_query_wider(
    tokens: Seq<(Token, Span)>,
    query: QueryView<Span>,
    at: int,
    later: int,
    behind: int,
)
    requires
        query_within(tokens, query, later, behind),
        at <= later,
    ensures
        query_within(tokens, query, at, behind),
{
    assert forall|k: int| 0 <= k < query.statements.len() implies statement_within(
        tokens,
        #[trigger] query.statements[k],
        at,
        behind,
    ) by {
        assert(statement_within(tokens, query.statements[k], later, behind));
        let (f, l) = choose|f: int, l: int|
            later <= f && l <= behind && #[trigger] statement_spans(
                tokens,
                query.statements[k],
                f,
                l,
            );
        assert(at <= f && l <= behind && statement_spans(tokens, query.statements[k], f, l));
    }
}

/// A section that is parsed at token `at`
/// is made of the tokens from `at` up to the token behind it.
pub proof fn lemma_section_spans(bytes: Seq<u8>, tokens: Seq<(Token, Span)>, at: int)
    requires
        contiguous(tokens, bytes.len()),
        0 <= at < tokens.len(),
    ensures
        section_at(bytes, tokens, at) matches Ok((section, behind)) ==> section_spans(
            tokens,
            section,
            at,
            behind,
        ),
{
    lemma_section_from(bytes, tokens, at, at, Seq::empty());
}

/// Where the sections from token `at` on end, behind the ends `acc` of
/// the sections before them.
pub open spec fn section_cuts(bytes: Seq<u8>, tokens: Seq<(Token, Span)>, at: int, acc: Seq<int>) -> Seq<
    int,
>
    decreases tokens.len() - at,
{
    if !(0 <= at < tokens.len()) {
        acc
    } else {
        match section_at(bytes, tokens, at) {
            Err(_) => acc,
            Ok((_, behind)) => if at < behind <= tokens.len() {
                section_cuts(bytes, tokens, behind, acc.push(behind))
            } else {
                acc
            },
        }
    }
}

/// The sections that are parsed from token `at` on tile the tokens, behind
/// sections that tile the tokens before them.
pub proof fn lemma_sections_from(
    bytes: Seq<u8>,
    tokens: Seq<(Token, Span)>,
    at: int,
    acc: Seq<SectionView<Span>>,
    cuts: Seq<int>,
)
    requires
        contiguous(tokens, bytes.len()),
        0 <= at <= tokens.len(),
        sections_tile(tokens, acc, cuts),
        cuts.last() == at,
    ensures
        sections_from(bytes, tokens, at, acc) matches Ok(sections) ==> {
            let ends = section_cuts(bytes, tokens, at, cuts);
            &&& sections_tile(tokens, sections, ends)
            &&& ends[0] == cuts[0]
            &&& ends.last() == tokens.len()
        },
    decreases tokens.len() - at,
{
    if at < tokens.len() {
        lemma_section_spans(bytes, tokens, at);
        match section_at(bytes, tokens, at) {
            Err(_) => {},
            Ok((section, behind)) => {
                let more = acc.push(section);
                let ends = cuts.push(behind);
                assert forall|i: int| 0 <= i < more.len() implies section_spans(
                    tokens,
                    #[trigger] more[i],
                    ends[i],
                    ends[i + 1],
                ) by {
                    if i < acc.len() {
                        assert(more[i] == acc[i]);
                        assert(section_spans(tokens, acc[i], cuts[i], cuts[i + 1]));
                    }
                }
                lemma_sections_from(bytes, tokens, behind, more, ends);
            },
        }
    }
}

/// The sections of a document that is
/// parsed from the first token on tile all tokens. Section by section they
/// are made of the tokens between two cuts, where the first cut is before
/// the first token and the last is behind the last token.
pub proof fn lemma_document_tiles(bytes: Seq<u8>, tokens: Seq<(Token, Span)>, at: int)
    requires
        contiguous(tokens, bytes.len()),
        0 <= at <= tokens.len(),
    ensures
        sections_from(bytes, tokens, at, Seq::empty()) matches Ok(sections) ==> document_tiles(
            tokens,
            sections,
            at,
        ),
{
    let cuts = seq![at];
    lemma_sections_from(bytes, tokens, at, Seq::empty(), cuts);
    match sections_from(bytes, tokens, at, Seq::empty()) {
        Err(_) => {},
        Ok(sections) => {
            let ends = section_cuts(bytes, tokens, at, cuts);
            assert(sections_tile(tokens, sections, ends) && ends[0] == at && (at < tokens.len()
                ==> ends.last() == tokens.len()));
        },
    }
}

/// The typed identifier of a fragment, if it has one.
pub open spec fn typed_ident_of(fragment: Fragment<Span>) -> Option<crate::ast::TypedIdent<Span>> {
    match fragment {
        Fragment::TypedIdent(_, ti) => Some(ti),
        Fragment::TypedParam(_, ti) => Some(ti),
        _ => None,
    }
}

/// The fragment is the token `target` with the type comment whose inner
/// token is at `at`: the identifier is that token, and the fragment reaches
/// from it to the end of the comment. Between the token and the comment
/// there is whitespace only.
pub open spec fn annotates(
    tokens: Seq<(Token, Span)>,
    fragment: Fragment<Span>,
    target: int,
    at: int,
) -> bool {
    &&& 0 <= target < at - 1
    &&& at < tokens.len()
    &&& typed_ident_of(fragment) matches Some(ti) && ti.ident == tokens[target].1
    &&& fragment.full_span().start == tokens[target].1.start
    &&& fragment.full_span().end == tokens[behind_comment(tokens, at) - 1].1.end
    &&& forall|k: int| target < k < at - 1 ==> (#[trigger] tokens[k]).0 == Token::Space
    &&& tokens[at - 1].0 == Token::CommentStart
    &&& tokens[at].0 == Token::CommentInner
}

/// A fragment with a type is a token with its type comment. What its text
/// holds besides the identifier is whitespace and that comment.
pub open spec fn only_comment_stripped(tokens: Seq<(Token, Span)>, fragment: Fragment<Span>) -> bool {
    typed_ident_of(fragment) is Some ==> exists|target: int, at: int| #[trigger]
        annotates(tokens, fragment, target, at)
}

/// Every fragment with a type is a token with its type comment.
pub open spec fn only_comments_stripped(
    tokens: Seq<(Token, Span)>,
    fragments: Seq<Fragment<Span>>,
) -> bool {
    forall|i: int|
        0 <= i < fragments.len() ==> only_comment_stripped(tokens, #[trigger] fragments[i])
}

/// Between the annotated token and the token from which it was looked for
/// there is whitespace only.
pub proof fn lemma_annotated_token_space(tokens: Seq<(Token, Span)>, i: int)
    ensures
        annotated_token(tokens, i) matches Some(target) ==> forall|k: int|
            target < k <= i ==> (#[trigger] tokens[k]).0 == Token::Space,
    decreases i + 1,
{
    if 0 <= i < tokens.len() && tokens[i].0 == Token::Space {
        lemma_annotated_token_space(tokens, i - 1);
    }
}

/// The fragment that a type comment makes is the annotated token with
/// the comment.
pub proof fn lemma_type_annotation_annotates(
    bytes: Seq<u8>,
    tokens: Seq<(Token, Span)>,
    at: int,
    type_start: int,
)
    requires
        comments_paired(tokens),
        0 <= at < tokens.len(),
        tokens[at].0 == Token::CommentInner,
    ensures
        type_annotation_at(bytes, tokens, at, type_start) matches Ok(hole) ==> only_comment_stripped(
            tokens,
            hole,
        ),
{
    lemma_annotated_token_before(tokens, at - 2);
    lemma_annotated_token_space(tokens, at - 2);
    match type_annotation_at(bytes, tokens, at, type_start) {
        Err(_) => {},
        Ok(hole) => {
            let target = annotated_token(tokens, at - 2)->Some_0;
            assert(annotates(tokens, hole, target, at));
        },
    }
}

proof fn lemma_stripped_push(
    tokens: Seq<(Token, Span)>,
    fragments: Seq<Fragment<Span>>,
    next: Fragment<Span>,
)
    requires
        only_comments_stripped(tokens, fragments),
        only_comment_stripped(tokens, next),
    ensures
        only_comments_stripped(tokens, fragments.push(next)),
{
    let all = fragments.push(next);
    assert forall|i: int| 0 <= i < all.len() implies only_comment_stripped(
        tokens,
        #[trigger] all[i],
    ) by {
        if i < fragments.len() {
            assert(all[i] == fragments[i]);
        }
    }
}

proof fn lemma_statement_from_stripped(
    bytes: Seq<u8>,
    tokens: Seq<(Token, Span)>,
    state: StatementState,
)
    requires
        comments_paired(tokens),
        0 <= state.at,
        only_comments_stripped(tokens, state.fragments),
    ensures
        statement_from(bytes, tokens, state) matches Ok((fragments, _)) ==> only_comments_stripped(
            tokens,
            fragments,
        ),
    decreases tokens.len() - state.at,
{
    let at = state.at;
    if 0 <= at < tokens.len() {
        let token = tokens[at].0;
        let span = tokens[at].1;
        if is_opener(token) {
            lemma_statement_from_stripped(
                bytes,
                tokens,
                StatementState { at: at + 1, stack: state.stack.push(tokens[at]), ..state },
            );
        } else if is_closer(token) {
            match close_bracket(tokens, at, state.stack) {
                Err(_) => {},
                Ok(stack) => {
                    lemma_statement_from_stripped(
                        bytes,
                        tokens,
                        StatementState { at: at + 1, stack, ..state },
                    );
                },
            }
        } else if token == Token::CommentInner {
            match type_comment_start(bytes, span) {
                None => {
                    lemma_statement_from_stripped(
                        bytes,
                        tokens,
                        StatementState { at: at + 1, ..state },
                    );
                },
                Some(type_start) => {
                    lemma_type_annotation_annotates(bytes, tokens, at, type_start);
                    match type_annotation_at(bytes, tokens, at, type_start) {
                        Err(_) => {},
                        Ok(hole) => {
                            match after_annotation(tokens, state, hole) {
                                Err(_) => {},
                                Ok(next) => {
                                    let n = state.fragments.len() as int;
                                    let from = if hole is TypedParam {
                                        state.fragments[n - 2].full_span().start
                                    } else {
                                        state.verbatim_from
                                    };
                                    let kept = if hole is TypedParam {
                                        state.fragments.subrange(0, n - 2)
                                    } else {
                                        state.fragments
                                    };
                                    assert(only_comments_stripped(tokens, kept)) by {
                                        assert forall|i: int|
                                            0 <= i < kept.len() implies only_comment_stripped(
                                            tokens,
                                            #[trigger] kept[i],
                                        ) by {
                                            assert(kept[i] == state.fragments[i]);
                                        }
                                    }
                                    let flushed = with_verbatim(kept, from, hole.full_span().start);
                                    if from < hole.full_span().start {
                                        lemma_stripped_push(
                                            tokens,
                                            kept,
                                            Fragment::Verbatim(
                                                Span { start: from, end: hole.full_span().start },
                                            ),
                                        );
                                    }
                                    lemma_stripped_push(tokens, flushed, hole);
                                    lemma_statement_from_stripped(bytes, tokens, next);
                                },
                            }
                        },
                    }
                },
            }
        } else if token == Token::Param {
            let verbatim = Fragment::Verbatim(Span { start: state.verbatim_from, end: span.start });
            lemma_stripped_push(tokens, state.fragments, verbatim);
            lemma_stripped_push(tokens, state.fragments.push(verbatim), Fragment::Param(span));
            lemma_statement_from_stripped(
                bytes,
                tokens,
                StatementState {
                    at: at + 1,
                    stack: state.stack,
                    fragments: state.fragments.push(verbatim).push(Fragment::Param(span)),
                    verbatim_from: span.end,
                },
            );
        } else if token == Token::Semicolon {
            if state.stack.len() == 0 {
                let verbatim = Fragment::Verbatim(Span { start: state.verbatim_from, end: span.end });
                lemma_stripped_push(tokens, state.fragments, verbatim);
            }
        } else {
            lemma_statement_from_stripped(bytes, tokens, StatementState { at: at + 1, ..state });
        }
    }
}

/// In a statement that is parsed, every
/// fragment with a type is one identifier or parameter with the type
/// comment behind it. Its identifier stands at its start, and what follows
/// the identifier is whitespace and that one comment. So the SQL that is
/// made of the verbatim text, the parameters and the identifiers is the
/// text of the statement without its type comments and the whitespace
/// before them.
pub proof fn lemma_only_comments_stripped(bytes: Seq<u8>, tokens: Seq<(Token, Span)>, at: int)
    requires
        comments_paired(tokens),
    ensures
        statement_at(bytes, tokens, at) matches Ok((fragments, _)) ==> only_comments_stripped(
            tokens,
            fragments,
        ),
{
    reveal(statement_at);
    if 0 <= at < tokens.len() {
        lemma_statement_from_stripped(
            bytes,
            tokens,
            StatementState {
                at,
                stack: Seq::empty(),
                fragments: Seq::empty(),
                verbatim_from: tokens[at].1.start,
            },
        );
    }
}

} // verus!
