//! The lexer for the annotation language that lives inside comments.
use crate::text::{
    ascii_edge, has_at, is_ascii_whitespace, is_whitespace, lemma_run_end_bounds, run_end, scan_run,
    starts_with_at, ByteClass,
};
use crate::Span;
use vstd::prelude::*;
use vstd::string::StringSliceAdditionalSpecFns;

verus! {

/// Where the lexer is between two steps.
#[derive(Debug)]
pub enum State {
    Base,
    InAnnotation,
    InIdent,
    Done,
}

/// The kinds of token of the annotation language.
#[derive(Copy, Clone, Debug, PartialEq, Eq, Structural)]
pub enum Token {
    /// The `@name` that starts an annotation.
    Marker,
    Ident,
    LParen,
    RParen,
    Colon,
    Semicolon,
    Comma,
    Minus,
    Question,
    /// A bare arrow is invalid in the grammar, but we have it here to be able
    /// to generate more helpful error messages.
    Arrow,
    ArrowOpt,
    ArrowOne,
    ArrowStar,
}

/// The token that starts at `pos` in the part of the input that ends at
/// `end`, if a token starts there, and the position after it. Whitespace
/// yields no token and moves one byte on.
pub open spec fn token_at(bytes: Seq<u8>, pos: int, end: int) -> (Option<Token>, int)
    recommends
        0 <= pos < end <= bytes.len(),
{
    let b = bytes[pos];
    let part = bytes.subrange(0, end);
    if b == 0x40 {
        (Some(Token::Marker), run_end(bytes, pos + 1, end, ByteClass::Identifier))
    } else if b == 0x28 {
        (Some(Token::LParen), pos + 1)
    } else if b == 0x29 {
        (Some(Token::RParen), pos + 1)
    } else if b == 0x3a {
        (Some(Token::Colon), pos + 1)
    } else if b == 0x3b {
        (Some(Token::Semicolon), pos + 1)
    } else if b == 0x3f {
        (Some(Token::Question), pos + 1)
    } else if b == 0x2c {
        (Some(Token::Comma), pos + 1)
    } else if has_at(part, pos, seq![0x2du8, 0x3eu8, 0x3fu8]) {
        (Some(Token::ArrowOpt), pos + 3)
    } else if has_at(part, pos, seq![0x2du8, 0x3eu8, 0x31u8]) {
        (Some(Token::ArrowOne), pos + 3)
    } else if has_at(part, pos, seq![0x2du8, 0x3eu8, 0x2au8]) {
        (Some(Token::ArrowStar), pos + 3)
    } else if has_at(part, pos, seq![0x2du8, 0x3eu8]) {
        (Some(Token::Arrow), pos + 2)
    } else if b == 0x2d {
        (Some(Token::Minus), pos + 1)
    } else if is_whitespace(b) {
        (None, pos + 1)
    } else {
        (Some(Token::Ident), run_end(bytes, pos, end, ByteClass::AnnotationIdent))
    }
}

/// The tokens of the annotation language in the input from `pos` to `end`,
/// appended to `acc`.
pub open spec fn lex_annotation(bytes: Seq<u8>, pos: int, end: int, acc: Seq<(Token, Span)>) -> Seq<
    (Token, Span),
>
    decreases end - pos,
{
    if pos < 0 || pos >= end || end > bytes.len() {
        acc
    } else {
        let next = token_at(bytes, pos, end).1;
        if next <= pos || next > end {
            acc
        } else {
            match token_at(bytes, pos, end).0 {
                Some(t) => lex_annotation(
                    bytes,
                    next,
                    end,
                    acc.push((t, Span { start: pos as usize, end: next as usize })),
                ),
                None => lex_annotation(bytes, next, end, acc),
            }
        }
    }
}

/// Every token is at least one byte long and ends inside the part that was lexed.
pub proof fn lemma_token_at_advances(bytes: Seq<u8>, pos: int, end: int)
    requires
        0 <= pos < end <= bytes.len(),
    ensures
        pos < token_at(bytes, pos, end).1 <= end,
{
    lemma_run_end_bounds(bytes, pos + 1, end, ByteClass::Identifier);
    lemma_run_end_bounds(bytes, pos, end, ByteClass::AnnotationIdent);
    let b = bytes[pos];
    if ByteClass::AnnotationIdent.has(b) {
        assert(run_end(bytes, pos, end, ByteClass::AnnotationIdent) == run_end(
            bytes,
            pos + 1,
            end,
            ByteClass::AnnotationIdent,
        ));
        lemma_run_end_bounds(bytes, pos + 1, end, ByteClass::AnnotationIdent);
    }
}

/// What lexing adds to `acc`: tokens that are not empty, that lie between
/// `pos` and `end`, and that follow each other without overlap.
pub open spec fn tokens_ordered(tokens: Seq<(Token, Span)>, from: int, lo: int, hi: int) -> bool {
    &&& forall|i: int|
        from <= i < tokens.len() ==> lo <= (#[trigger] tokens[i]).1.start < tokens[i].1.end <= hi
    &&& forall|i: int, j: int|
        from <= i < j < tokens.len() ==> (#[trigger] tokens[i]).1.end <= (#[trigger] tokens[j]).1.start
}

/// What lexing adds lies in the part that is lexed, in order, and a marker
/// starts with `@`. What was there before stays.
pub proof fn lemma_lex_annotation_spans(bytes: Seq<u8>, pos: int, end: int, acc: Seq<(Token, Span)>)
    requires
        end <= usize::MAX,
    ensures
        acc.len() <= lex_annotation(bytes, pos, end, acc).len(),
        lex_annotation(bytes, pos, end, acc).subrange(0, acc.len() as int) == acc,
        tokens_ordered(lex_annotation(bytes, pos, end, acc), acc.len() as int, pos, end),
        forall|i: int|
            acc.len() <= i < lex_annotation(bytes, pos, end, acc).len() && (#[trigger] lex_annotation(
                bytes,
                pos,
                end,
                acc,
            )[i]).0 == Token::Marker ==> bytes[lex_annotation(bytes, pos, end, acc)[i].1.start as int]
                == 0x40,
    decreases end - pos,
{
    let out = lex_annotation(bytes, pos, end, acc);
    if pos < 0 || pos >= end || end > bytes.len() {
        assert(out.subrange(0, acc.len() as int) =~= acc);
    } else {
        let (token, next) = token_at(bytes, pos, end);
        lemma_token_at_advances(bytes, pos, end);
        match token {
            Some(t) => {
                let acc1 = acc.push((t, Span { start: pos as usize, end: next as usize }));
                lemma_lex_annotation_spans(bytes, next, end, acc1);
                assert(out.subrange(0, acc.len() as int) =~= acc) by {
                    assert(out.subrange(0, acc1.len() as int) == acc1);
                    assert forall|i: int| 0 <= i < acc.len() implies out[i] == acc[i] by {
                        assert(out.subrange(0, acc1.len() as int)[i] == acc1[i]);
                    }
                }
                assert(out[acc.len() as int] == acc1[acc.len() as int]) by {
                    assert(out.subrange(0, acc1.len() as int)[acc.len() as int] == acc1[acc.len() as int]);
                }
            },
            None => {
                lemma_lex_annotation_spans(bytes, next, end, acc);
            },
        }
    }
}

/// No token is empty, and all tokens lie inside an input of `len` bytes.
pub open spec fn tokens_valid(tokens: Seq<(Token, Span)>, len: nat) -> bool {
    forall|i: int| 0 <= i < tokens.len() ==> (#[trigger] tokens[i]).1.start < tokens[i].1.end <= len
}

/// Lexing a part of the input adds valid tokens to valid tokens.
pub proof fn lemma_lex_annotation_valid(bytes: Seq<u8>, pos: int, end: int, acc: Seq<(Token, Span)>)
    requires
        tokens_valid(acc, bytes.len()),
        bytes.len() <= usize::MAX,
    ensures
        tokens_valid(lex_annotation(bytes, pos, end, acc), bytes.len()),
        acc.len() <= lex_annotation(bytes, pos, end, acc).len(),
        forall|i: int| 0 <= i < acc.len() ==> lex_annotation(bytes, pos, end, acc)[i] == acc[i],
{
    let out = lex_annotation(bytes, pos, end, acc);
    if 0 <= pos < end <= bytes.len() {
        lemma_lex_annotation_spans(bytes, pos, end, acc);
        assert forall|i: int| 0 <= i < out.len() implies (#[trigger] out[i]).1.start < out[i].1.end
            <= bytes.len() by {
            if i < acc.len() {
                assert(out.subrange(0, acc.len() as int)[i] == acc[i]);
            }
        }
        assert forall|i: int| 0 <= i < acc.len() implies out[i] == acc[i] by {
            assert(out.subrange(0, acc.len() as int)[i] == acc[i]);
        }
    }
}

/// The tokens fit the input up to byte `upto`: none is empty, all lie
/// before `upto`, one behind the other, and each starts and ends next to
/// an ASCII byte or at an end of the input.
pub open spec fn tokens_fit(tokens: Seq<(Token, Span)>, bytes: Seq<u8>, upto: int) -> bool {
    &&& upto <= bytes.len()
    &&& forall|i: int|
        0 <= i < tokens.len() ==> (#[trigger] tokens[i]).1.start < tokens[i].1.end <= upto
    &&& forall|i: int|
        0 <= i < tokens.len() ==> ascii_edge(bytes, (#[trigger] tokens[i]).1.start as int)
            && ascii_edge(bytes, tokens[i].1.end as int)
    &&& forall|i: int, j: int|
        0 <= i < j < tokens.len() ==> (#[trigger] tokens[i]).1.end <= (#[trigger] tokens[j]).1.start
}

/// The token at a position that lies next to an ASCII byte ends next to
/// an ASCII byte, or at the end of the part that is lexed.
pub proof fn lemma_token_at_edges(bytes: Seq<u8>, pos: int, end: int)
    requires
        0 <= pos < end <= bytes.len(),
    ensures
        token_at(bytes, pos, end).1 == end || ascii_edge(bytes, token_at(bytes, pos, end).1),
{
    lemma_token_at_advances(bytes, pos, end);
    lemma_run_end_bounds(bytes, pos + 1, end, ByteClass::Identifier);
    lemma_run_end_bounds(bytes, pos, end, ByteClass::AnnotationIdent);
    let next = token_at(bytes, pos, end).1;
    let part = bytes.subrange(0, end);
    if next < end {
        if bytes[pos] == 0x40 {
            if next > pos + 1 {
                assert(ByteClass::Identifier.has(bytes[next - 1]));
            }
        } else if has_at(part, pos, seq![0x2du8, 0x3eu8, 0x3fu8]) {
            assert(part.subrange(pos, pos + 3)[2] == 0x3f);
            assert(bytes[pos + 2] == 0x3f);
        } else if has_at(part, pos, seq![0x2du8, 0x3eu8, 0x31u8]) {
            assert(part.subrange(pos, pos + 3)[2] == 0x31);
            assert(bytes[pos + 2] == 0x31);
        } else if has_at(part, pos, seq![0x2du8, 0x3eu8, 0x2au8]) {
            assert(part.subrange(pos, pos + 3)[2] == 0x2a);
            assert(bytes[pos + 2] == 0x2a);
        } else if has_at(part, pos, seq![0x2du8, 0x3eu8]) {
            assert(part.subrange(pos, pos + 2)[1] == 0x3e);
            assert(bytes[pos + 1] == 0x3e);
        } else if token_at(bytes, pos, end).0 == Some(Token::Ident) {
            assert(!ByteClass::AnnotationIdent.has(bytes[next]));
        }
    }
}

/// Lexing a part of the input that lies behind tokens that fit, and that
/// starts and ends next to an ASCII byte, adds tokens that fit.
pub proof fn lemma_lex_annotation_fit(
    bytes: Seq<u8>,
    pos: int,
    end: int,
    acc: Seq<(Token, Span)>,
    upto: int,
)
    requires
        bytes.len() <= usize::MAX,
        tokens_fit(acc, bytes, upto),
        0 <= upto <= pos,
        pos < end ==> end <= bytes.len() && ascii_edge(bytes, pos) && ascii_edge(bytes, end),
    ensures
        tokens_fit(
            lex_annotation(bytes, pos, end, acc),
            bytes,
            if pos < end {
                end
            } else {
                upto
            },
        ),
    decreases end - pos,
{
    if 0 <= pos < end <= bytes.len() {
        let token = token_at(bytes, pos, end).0;
        let next = token_at(bytes, pos, end).1;
        lemma_token_at_advances(bytes, pos, end);
        lemma_token_at_edges(bytes, pos, end);
        match token {
            Some(t) => {
                let added = (t, Span { start: pos as usize, end: next as usize });
                let more = acc.push(added);
                assert(tokens_fit(more, bytes, next)) by {
                    assert forall|i: int| 0 <= i < more.len() implies (#[trigger] more[i]).1.start
                        < more[i].1.end <= next by {
                        if i < acc.len() {
                            assert(more[i] == acc[i]);
                        }
                    }
                    assert forall|i: int| 0 <= i < more.len() implies ascii_edge(
                        bytes,
                        (#[trigger] more[i]).1.start as int,
                    ) && ascii_edge(bytes, more[i].1.end as int) by {
                        if i < acc.len() {
                            assert(more[i] == acc[i]);
                        }
                    }
                    assert forall|i: int, j: int| 0 <= i < j < more.len() implies (
                    #[trigger] more[i]).1.end <= (#[trigger] more[j]).1.start by {
                        assert(more[i] == acc[i]);
                        if j < acc.len() {
                            assert(more[j] == acc[j]);
                        }
                    }
                }
                lemma_lex_annotation_fit(bytes, next, end, more, next);
                if next >= end {
                    assert(lex_annotation(bytes, next, end, more) == more);
                }
            },
            None => {
                assert(bytes[pos] < 0x80);
                lemma_lex_annotation_fit(bytes, next, end, acc, upto);
                if next >= end {
                    assert(lex_annotation(bytes, next, end, acc) == acc);
                    assert(tokens_fit(acc, bytes, end)) by {
                        assert forall|i: int| 0 <= i < acc.len() implies (#[trigger] acc[i]).1.start
                            < acc[i].1.end <= end by {}
                    }
                }
            },
        }
    }
}

/// The lexer of the annotation language. It collects the tokens of every
/// span that it is run on, so that an annotation can go on over several
/// comments.
pub struct Lexer<'a> {
    input: &'a [u8],
    start: usize,
    end: usize,
    state: State,
    tokens: Vec<(Token, Span)>,
}

impl<'a> Lexer<'a> {
    /// The bytes of the input.
    pub closed spec fn bytes(&self) -> Seq<u8> {
        self.input@
    }

    /// The tokens collected so far.
    pub closed spec fn collected(&self) -> Seq<(Token, Span)> {
        self.tokens@
    }

    /// A lexer for the input, without tokens.
    pub fn new(input: &'a str) -> (lexer: Lexer<'a>)
        ensures
            lexer.bytes() == input.spec_bytes(),
            lexer.collected() == Seq::<(Token, Span)>::empty(),
    {
        Lexer::over(input.as_bytes())
    }

    /// A lexer for an input that is at hand as bytes.
    pub fn over(input: &'a [u8]) -> (lexer: Lexer<'a>)
        ensures
            lexer.bytes() == input@,
            lexer.collected() == Seq::<(Token, Span)>::empty(),
    {
        Lexer { input, start: 0, end: input.len(), state: State::Base, tokens: Vec::new() }
    }

    /// Forget the tokens that were collected.
    pub fn clear(&mut self)
        ensures
            final(self).bytes() == old(self).bytes(),
            final(self).collected() == Seq::<(Token, Span)>::empty(),
    {
        self.tokens.clear();
    }

    /// The tokens that were collected.
    pub fn tokens(&self) -> (tokens: &[(Token, Span)])
        ensures
            tokens@ == self.collected(),
    {
        self.tokens.as_slice()
    }

    /// Hand over the tokens that were collected.
    pub fn into_tokens(self) -> (tokens: Vec<(Token, Span)>)
        ensures
            tokens@ == self.collected(),
    {
        self.tokens
    }

    fn push(&mut self, token: Token, len: usize)
        requires
            old(self).start + len <= usize::MAX,
        ensures
            final(self).tokens@ == old(self).tokens@.push(
                (token, Span { start: old(self).start, end: (old(self).start + len) as usize }),
            ),
            final(self).input == old(self).input,
            final(self).start == old(self).start,
            final(self).end == old(self).end,
    {
        let span = Span { start: self.start, end: self.start + len };
        self.tokens.push((token, span));
    }

    /// Lex the span until completion.
    pub fn run(&mut self, span: Span)
        requires
            span.start < span.end ==> span.end <= old(self).bytes().len(),
        ensures
            final(self).bytes() == old(self).bytes(),
            final(self).collected() == lex_annotation(
                old(self).bytes(),
                span.start as int,
                span.end as int,
                old(self).collected(),
            ),
            tokens_valid(old(self).collected(), old(self).bytes().len()) ==> tokens_valid(
                final(self).collected(),
                final(self).bytes().len(),
            ),
            forall|upto: int|
                #![trigger tokens_fit(old(self).collected(), old(self).bytes(), upto)]
                tokens_fit(old(self).collected(), old(self).bytes(), upto) && 0 <= upto
                    <= span.start < span.end && ascii_edge(old(self).bytes(), span.start as int)
                    && ascii_edge(old(self).bytes(), span.end as int) ==> tokens_fit(
                    final(self).collected(),
                    final(self).bytes(),
                    span.end as int,
                ),
    {
        let _ = self.input.len();
        proof {
            assert forall|upto: int|
                #![trigger tokens_fit(self.tokens@, self.input@, upto)]
                tokens_fit(self.tokens@, self.input@, upto) && 0 <= upto <= span.start < span.end
                    && ascii_edge(self.input@, span.start as int) && ascii_edge(
                    self.input@,
                    span.end as int,
                ) implies tokens_fit(
                lex_annotation(self.input@, span.start as int, span.end as int, self.tokens@),
                self.input@,
                span.end as int,
            ) by {
                lemma_lex_annotation_fit(
                    self.input@,
                    span.start as int,
                    span.end as int,
                    self.tokens@,
                    upto,
                );
            }
            if tokens_valid(self.tokens@, self.input@.len()) {
                lemma_lex_annotation_valid(
                    self.input@,
                    span.start as int,
                    span.end as int,
                    self.tokens@,
                );
            }
        }
        self.start = span.start;
        self.end = span.end;
        self.state = State::Base;

        while self.start < self.end
            invariant
                self.input == old(self).input,
                self.end == span.end,
                self.start < self.end ==> self.end <= self.input@.len(),
                self.state is Done ==> self.start >= self.end,
                self.state is InAnnotation ==> self.start < self.end && self.input@[self.start as int]
                    == 0x40,
                self.state is InIdent ==> self.start < self.end && token_at(
                    self.input@,
                    self.start as int,
                    self.end as int,
                ).0 == Some(Token::Ident),
                lex_annotation(self.input@, span.start as int, span.end as int, old(self).tokens@)
                    == lex_annotation(self.input@, self.start as int, self.end as int, self.tokens@),
                tokens_valid(old(self).tokens@, self.input@.len()) ==> tokens_valid(
                    lex_annotation(
                        self.input@,
                        span.start as int,
                        span.end as int,
                        old(self).tokens@,
                    ),
                    self.input@.len(),
                ),
                forall|upto: int|
                    #![trigger tokens_fit(old(self).tokens@, self.input@, upto)]
                    tokens_fit(old(self).tokens@, self.input@, upto) && 0 <= upto <= span.start
                        < span.end && ascii_edge(self.input@, span.start as int) && ascii_edge(
                        self.input@,
                        span.end as int,
                    ) ==> tokens_fit(
                        lex_annotation(
                            self.input@,
                            span.start as int,
                            span.end as int,
                            old(self).tokens@,
                        ),
                        self.input@,
                        span.end as int,
                    ),
            ensures
                self.start >= self.end,
            decreases
                    self.end - self.start,
                    (if self.state is Base {
                        1int
                    } else {
                        0int
                    }),
        {
            proof {
                lemma_token_at_advances(self.input@, self.start as int, self.end as int);
            }
            let (start, state) = match self.state {
                State::Base => self.lex_base(),
                State::InAnnotation => self.lex_in_annotation(),
                State::InIdent => self.lex_in_ident(),
                State::Done => break,
            };

            self.start = start;
            self.state = state;
        }
    }

    fn lex_base(&mut self) -> (r: (usize, State))
        requires
            old(self).start < old(self).end <= old(self).input@.len(),
        ensures
            final(self).input == old(self).input,
            final(self).end == old(self).end,
            final(self).start == old(self).start,
            r.1 is Base || r.1 is InAnnotation || r.1 is InIdent,
            r.1 is Base ==> ({
                let (token, next) = token_at(old(self).input@, old(self).start as int, old(self).end as int);
                &&& r.0 == next
                &&& final(self).tokens@ == match token {
                    Some(t) => old(self).tokens@.push((t, Span { start: old(self).start, end: r.0 })),
                    None => old(self).tokens@,
                }
            }),
            !(r.1 is Base) ==> r.0 == old(self).start && final(self).tokens@ == old(self).tokens@,
            r.1 is InAnnotation ==> old(self).input@[old(self).start as int] == 0x40,
            r.1 is InIdent ==> token_at(old(self).input@, old(self).start as int, old(self).end as int).0
                == Some(Token::Ident),
    {
        let input = vstd::slice::slice_subrange(self.input, 0, self.end);
        let at: usize = self.start;
        let b: u8 = input[at];
        proof {
            assert(input@[at as int] == self.input@[at as int]);
        }

        if b == 0x40 {
            return (self.start, State::InAnnotation);
        }
        if b == 0x28 {
            self.push(Token::LParen, 1);
            return (self.start + 1, State::Base);
        }
        if b == 0x29 {
            self.push(Token::RParen, 1);
            return (self.start + 1, State::Base);
        }
        if b == 0x3a {
            self.push(Token::Colon, 1);
            return (self.start + 1, State::Base);
        }
        if b == 0x3b {
            self.push(Token::Semicolon, 1);
            return (self.start + 1, State::Base);
        }
        if b == 0x3f {
            self.push(Token::Question, 1);
            return (self.start + 1, State::Base);
        }
        if b == 0x2c {
            self.push(Token::Comma, 1);
            return (self.start + 1, State::Base);
        }
        let arrow_opt: [u8; 3] = [0x2d, 0x3e, 0x3f];
        let arrow_one: [u8; 3] = [0x2d, 0x3e, 0x31];
        let arrow_star: [u8; 3] = [0x2d, 0x3e, 0x2a];
        let arrow: [u8; 2] = [0x2d, 0x3e];
        proof {
            assert(arrow_opt@ =~= seq![0x2du8, 0x3eu8, 0x3fu8]);
            assert(arrow_one@ =~= seq![0x2du8, 0x3eu8, 0x31u8]);
            assert(arrow_star@ =~= seq![0x2du8, 0x3eu8, 0x2au8]);
            assert(arrow@ =~= seq![0x2du8, 0x3eu8]);
        }
        if starts_with_at(input, at, arrow_opt.as_slice()) {
            self.push(Token::ArrowOpt, 3);
            return (self.start + 3, State::Base);
        }
        if starts_with_at(input, at, arrow_one.as_slice()) {
            self.push(Token::ArrowOne, 3);
            return (self.start + 3, State::Base);
        }
        if starts_with_at(input, at, arrow_star.as_slice()) {
            self.push(Token::ArrowStar, 3);
            return (self.start + 3, State::Base);
        }
        if starts_with_at(input, at, arrow.as_slice()) {
            self.push(Token::Arrow, 2);
            return (self.start + 2, State::Base);
        }
        if b == 0x2d {
            // Minus is its own token, because it is a prefix of the arrow "->",
            // so when we encounter a - inside an identifier, we stop the
            // identifier because we expect some punctuation.
            self.push(Token::Minus, 1);
            return (self.start + 1, State::Base);
        }
        if is_ascii_whitespace(b) {
            return (self.start + 1, State::Base);
        }

        // Everything that is not an explicitly recognized punctuation token,
        // and not a space, is an identifier.
        (self.start, State::InIdent)
    }

    fn lex_skip_then_while(&mut self, n_skip: usize, class: ByteClass, token: Token) -> (r: (
        usize,
        State,
    ))
        requires
            old(self).start < old(self).end <= old(self).input@.len(),
            n_skip <= 1,
        ensures
            final(self).input == old(self).input,
            final(self).end == old(self).end,
            final(self).start == old(self).start,
            r.0 == run_end(
                old(self).input@,
                old(self).start + n_skip,
                old(self).end as int,
                class,
            ),
            final(self).tokens@ == old(self).tokens@.push(
                (token, Span { start: old(self).start, end: r.0 }),
            ),
            r.1 is Base || r.1 is Done,
            r.1 is Done <==> r.0 == old(self).end,
    {
        let stop: usize = scan_run(self.input, self.start + n_skip, self.end, class);
        self.push(token, stop - self.start);
        if stop < self.end {
            (stop, State::Base)
        } else {
            (stop, State::Done)
        }
    }

    fn lex_in_annotation(&mut self) -> (r: (usize, State))
        requires
            old(self).start < old(self).end <= old(self).input@.len(),
        ensures
            final(self).input == old(self).input,
            final(self).end == old(self).end,
            final(self).start == old(self).start,
            r.0 == run_end(
                old(self).input@,
                old(self).start + 1,
                old(self).end as int,
                ByteClass::Identifier,
            ),
            final(self).tokens@ == old(self).tokens@.push(
                (Token::Marker, Span { start: old(self).start, end: r.0 }),
            ),
            r.1 is Base || r.1 is Done,
            r.1 is Done <==> r.0 == old(self).end,
    {
        self.lex_skip_then_while(1, ByteClass::Identifier, Token::Marker)
    }

    fn lex_in_ident(&mut self) -> (r: (usize, State))
        requires
            old(self).start < old(self).end <= old(self).input@.len(),
        ensures
            final(self).input == old(self).input,
            final(self).end == old(self).end,
            final(self).start == old(self).start,
            r.0 == run_end(
                old(self).input@,
                old(self).start as int,
                old(self).end as int,
                ByteClass::AnnotationIdent,
            ),
            final(self).tokens@ == old(self).tokens@.push(
                (Token::Ident, Span { start: old(self).start, end: r.0 }),
            ),
            r.1 is Base || r.1 is Done,
            r.1 is Done <==> r.0 == old(self).end,
    {
        // The following characters are or may start punctuation of their own.
        // Anything else aside from whitespace can be part of an "identifier".
        self.lex_skip_then_while(0, ByteClass::AnnotationIdent, Token::Ident)
    }
}

} // verus!
