//! The lexer for SQL documents.
//!
//! The lexer keeps everything: whitespace and comments are tokens too, so
//! that the tokens, one after the other, spell the input.
use crate::error::{located, PResult, ParseError};
use crate::text::{
    ascii_edge, count_bytes, count_from, has_at, is_alphabetic, is_ascii_alphabetic,
    is_ascii_control, is_ascii_digit, is_ascii_punctuation, is_ascii_whitespace, is_control,
    is_digit, is_punctuation, is_whitespace, lemma_count_from_bounds, lemma_run_end_bounds, run_end,
    scan_run, starts_with_at, ByteClass,
};
use crate::Span;
use vstd::prelude::*;
use vstd::string::StringSliceAdditionalSpecFns;

verus! {

/// Where the lexer is between two steps: at the start of a token that is
/// not looked at yet, at the start of a token of a known kind, or at the end.
#[derive(Debug)]
pub enum State {
    Base,
    InSingleQuote,
    InDoubleQuote,
    InLineComment,
    InInlineComment,
    InParam,
    InSpace,
    InIdent,
    InPunct,
    Done,
}

/// The kinds of token of a SQL document.
#[derive(Copy, Clone, Debug, PartialEq, Eq, Structural)]
pub enum Token {
    /// A sequence of ascii whitespace.
    Space,
    /// A sequence of ascii alphanumeric or _.
    Ident,
    /// A query parameter, starting with `:`.
    Param,
    /// Content between single quotes.
    SingleQuoted,
    /// Content between double quotes.
    DoubleQuoted,
    /// The `--` or `/*` that open comments.
    CommentStart,
    /// The `*/` that closes comments. (But not a newline after `--`.)
    CommentEnd,
    /// A comment, excluding its opening and closing tokens, and excluding terminating newline.
    CommentInner,
    /// `(`.
    LParen,
    /// `)`.
    RParen,
    /// `[`.
    LBracket,
    /// `]`.
    RBracket,
    /// `{`.
    LBrace,
    /// `}`.
    RBrace,
    /// `;`.
    Semicolon,
    /// Punctuation that is not any of the previous punctuation tokens.
    Punct,
}

/// The span from `start` to `end`.
pub open spec fn span(start: int, end: int) -> Span {
    Span { start: start as usize, end: end as usize }
}

/// The error with `message` for the bytes from `start` to `end`.
pub open spec fn error_over(start: int, end: int, message: &'static str) -> ParseError {
    ParseError { span: span(start, end), message, note: None }
}

/// The kind of token that starts at `pos`, as the state that the lexer
/// enters there, or the error for a byte that starts no token.
pub open spec fn dispatch(bytes: Seq<u8>, pos: int) -> Result<State, ParseError> {
    if pos < 0 || pos >= bytes.len() {
        Ok(State::Done)
    } else if has_at(bytes, pos, seq![0x2du8, 0x2du8]) {
        Ok(State::InLineComment)
    } else if has_at(bytes, pos, seq![0x2fu8, 0x2au8]) {
        Ok(State::InInlineComment)
    } else if bytes[pos] == 0x27 {
        Ok(State::InSingleQuote)
    } else if bytes[pos] == 0x22 {
        Ok(State::InDoubleQuote)
    } else if is_whitespace(bytes[pos]) {
        Ok(State::InSpace)
    } else if pos + 1 < bytes.len() && bytes[pos] == 0x3a && is_alphabetic(bytes[pos + 1]) {
        Ok(State::InParam)
    } else if is_punctuation(bytes[pos]) {
        Ok(State::InPunct)
    } else if is_alphabetic(bytes[pos]) || is_digit(bytes[pos]) {
        Ok(State::InIdent)
    } else if is_control(bytes[pos]) {
        Err(
            error_over(
                pos,
                pos + count_from(bytes, pos, ByteClass::Control),
                "Control characters are not supported here.",
            ),
        )
    } else {
        Err(
            error_over(
                pos,
                pos + count_from(bytes, pos, ByteClass::NonAscii),
                "Non-ascii characters are not supported here.",
            ),
        )
    }
}

/// The position of the quote that closes a string: the first `quote` from
/// `from` on that no backslash stands before.
pub open spec fn find_quote_end(bytes: Seq<u8>, from: int, quote: u8) -> Option<int>
    decreases bytes.len() - from,
{
    if from < 1 || from >= bytes.len() {
        None
    } else if bytes[from] == quote && bytes[from - 1] != 0x5c {
        Some(from)
    } else {
        find_quote_end(bytes, from + 1, quote)
    }
}

/// The position of the first `*/` from `from` on.
pub open spec fn find_block_end(bytes: Seq<u8>, from: int) -> Option<int>
    decreases bytes.len() - from,
{
    if from < 0 || from + 1 >= bytes.len() {
        None
    } else if bytes[from] == 0x2a && bytes[from + 1] == 0x2f {
        Some(from)
    } else {
        find_block_end(bytes, from + 1)
    }
}

/// The token for a single byte of punctuation that is a token of its own.
pub open spec fn bracket_token(b: u8) -> Option<Token> {
    if b == 0x28 {
        Some(Token::LParen)
    } else if b == 0x29 {
        Some(Token::RParen)
    } else if b == 0x7b {
        Some(Token::LBrace)
    } else if b == 0x7d {
        Some(Token::RBrace)
    } else if b == 0x5b {
        Some(Token::LBracket)
    } else if b == 0x5d {
        Some(Token::RBracket)
    } else if b == 0x3b {
        Some(Token::Semicolon)
    } else {
        None
    }
}

/// The string that starts at `pos` with `quote`.
pub open spec fn quoted_at(bytes: Seq<u8>, pos: int, quote: u8, token: Token) -> Result<
    (Seq<(Token, Span)>, int),
    ParseError,
> {
    match find_quote_end(bytes, pos + 1, quote) {
        Some(close) => Ok((seq![(token, span(pos, close + 1))], close + 1)),
        None => Err(
            error_over(
                pos,
                bytes.len() as int,
                "Unexpected end of input, string literal is not closed.",
            ),
        ),
    }
}

/// One token that runs from `pos` to `end`.
pub open spec fn one_token(token: Token, pos: int, end: int) -> Result<
    (Seq<(Token, Span)>, int),
    ParseError,
> {
    Ok((seq![(token, span(pos, end))], end))
}

/// The tokens that start at `pos`, and the position behind them. A comment
/// is two or three tokens, everything else is one.
pub open spec fn lexeme_at(bytes: Seq<u8>, pos: int) -> Result<(Seq<(Token, Span)>, int), ParseError> {
    let len = bytes.len() as int;
    match dispatch(bytes, pos) {
        Err(e) => Err(e),
        Ok(State::InLineComment) => {
            let end = run_end(bytes, pos + 2, len, ByteClass::NotNewline);
            Ok(
                (
                    seq![
                        (Token::CommentStart, span(pos, pos + 2)),
                        (Token::CommentInner, span(pos + 2, end)),
                    ],
                    end,
                ),
            )
        },
        Ok(State::InInlineComment) => match find_block_end(bytes, pos + 2) {
            Some(close) => Ok(
                (
                    seq![
                        (Token::CommentStart, span(pos, pos + 2)),
                        (Token::CommentInner, span(pos + 2, close)),
                        (Token::CommentEnd, span(close, close + 2)),
                    ],
                    close + 2,
                ),
            ),
            None => Err(error_over(pos, len, "Unclosed /* */ comment.")),
        },
        Ok(State::InSingleQuote) => quoted_at(bytes, pos, 0x27, Token::SingleQuoted),
        Ok(State::InDoubleQuote) => quoted_at(bytes, pos, 0x22, Token::DoubleQuoted),
        Ok(State::InParam) => one_token(
            Token::Param,
            pos,
            run_end(bytes, pos + 1, len, ByteClass::Identifier),
        ),
        Ok(State::InSpace) => one_token(
            Token::Space,
            pos,
            run_end(bytes, pos, len, ByteClass::Whitespace),
        ),
        Ok(State::InIdent) => one_token(
            Token::Ident,
            pos,
            run_end(bytes, pos, len, ByteClass::Identifier),
        ),
        Ok(State::InPunct) => match bracket_token(bytes[pos]) {
            Some(token) => one_token(token, pos, pos + 1),
            None => one_token(Token::Punct, pos, run_end(bytes, pos, len, ByteClass::Punctuation)),
        },
        Ok(State::Base) => Ok((Seq::empty(), pos)),
        Ok(State::Done) => Ok((Seq::empty(), pos)),
    }
}

/// The tokens of the input from `pos` on, appended to `acc`, or the first error.
pub open spec fn lex_from(bytes: Seq<u8>, pos: int, acc: Seq<(Token, Span)>) -> Result<
    Seq<(Token, Span)>,
    ParseError,
>
    decreases bytes.len() - pos,
{
    if pos < 0 || pos >= bytes.len() {
        Ok(acc)
    } else {
        match lexeme_at(bytes, pos) {
            Err(e) => Err(e),
            Ok((tokens, next)) => if next <= pos || next > bytes.len() {
                Ok(acc)
            } else {
                lex_from(bytes, next, acc + tokens)
            },
        }
    }
}

/// The tokens of a document, or the first error in it.
pub open spec fn lex_document(bytes: Seq<u8>) -> Result<Seq<(Token, Span)>, ParseError> {
    lex_from(bytes, 0, Seq::empty())
}

/// The tokens lie inside an input of `len` bytes and follow each other
/// without a gap.
pub open spec fn contiguous(tokens: Seq<(Token, Span)>, len: nat) -> bool {
    &&& forall|i: int| 0 <= i < tokens.len() ==> (#[trigger] tokens[i]).1.within(len)
    &&& forall|i: int, j: int|
        0 <= i && j == i + 1 && j < tokens.len() ==> (#[trigger] tokens[i]).1.end
            == (#[trigger] tokens[j]).1.start
}

/// The tokens tile the first `upto` bytes of the input: they follow each
/// other without a gap, from the first byte to byte `upto`.
pub open spec fn tiles(tokens: Seq<(Token, Span)>, upto: nat) -> bool {
    &&& contiguous(tokens, upto)
    &&& tokens.len() == 0 ==> upto == 0
    &&& tokens.len() > 0 ==> tokens[0].1.start == 0 && tokens.last().1.end == upto
}

/// Every parameter among the tokens has a name: it is longer than its colon.
pub open spec fn params_named(tokens: Seq<(Token, Span)>) -> bool {
    forall|i: int|
        0 <= i < tokens.len() && (#[trigger] tokens[i]).0 == Token::Param ==> tokens[i].1.start + 1
            < tokens[i].1.end
}

/// The quote that closes a string is a quote inside the input.
pub proof fn lemma_find_quote_end(bytes: Seq<u8>, from: int, quote: u8)
    requires
        1 <= from,
    ensures
        find_quote_end(bytes, from, quote) matches Some(i) ==> from <= i < bytes.len() && bytes[i]
            == quote,
    decreases bytes.len() - from,
{
    if from < bytes.len() && !(bytes[from] == quote && bytes[from - 1] != 0x5c) {
        lemma_find_quote_end(bytes, from + 1, quote);
    }
}

/// What closes a comment is `*/` inside the input.
pub proof fn lemma_find_block_end(bytes: Seq<u8>, from: int)
    requires
        0 <= from,
    ensures
        find_block_end(bytes, from) matches Some(i) ==> from <= i && i + 1 < bytes.len()
            && bytes[i] == 0x2a && bytes[i + 1] == 0x2f,
    decreases bytes.len() - from,
{
    if from + 1 < bytes.len() && !(bytes[from] == 0x2a && bytes[from + 1] == 0x2f) {
        lemma_find_block_end(bytes, from + 1);
    }
}

/// What stands at a position inside the input: tokens that tile the bytes
/// from there to the next position, which lies further on.
pub proof fn lemma_lexeme_at(bytes: Seq<u8>, pos: int)
    requires
        0 <= pos < bytes.len() <= usize::MAX,
    ensures
        lexeme_at(bytes, pos) matches Ok((tokens, next)) ==> {
            &&& pos < next <= bytes.len()
            &&& tokens.len() > 0
            &&& tokens[0].1.start == pos
            &&& tokens.last().1.end == next
            &&& contiguous(tokens, bytes.len())
            &&& params_named(tokens)
        },
{
    let len = bytes.len() as int;
    if pos + 2 <= len {
        lemma_run_end_bounds(bytes, pos + 2, len, ByteClass::NotNewline);
    }
    lemma_run_end_bounds(bytes, pos + 1, len, ByteClass::Identifier);
    lemma_run_end_bounds(bytes, pos + 1, len, ByteClass::Whitespace);
    lemma_run_end_bounds(bytes, pos + 1, len, ByteClass::Punctuation);
    lemma_find_quote_end(bytes, pos + 1, 0x27);
    lemma_find_quote_end(bytes, pos + 1, 0x22);
    lemma_find_block_end(bytes, pos + 2);
    if has_at(bytes, pos, seq![0x2du8, 0x2du8]) || has_at(bytes, pos, seq![0x2fu8, 0x2au8]) {
        assert(pos + 2 <= len);
    }
}

/// Lexing keeps the tiling: if `acc` tiles the input up to `pos`, all tokens
/// tile all of the input.
pub proof fn lemma_lex_from_tiles(bytes: Seq<u8>, pos: int, acc: Seq<(Token, Span)>)
    requires
        0 <= pos <= bytes.len() <= usize::MAX,
        tiles(acc, pos as nat),
        params_named(acc),
    ensures
        lex_from(bytes, pos, acc) matches Ok(tokens) ==> tiles(tokens, bytes.len()) && params_named(
            tokens,
        ),
    decreases bytes.len() - pos,
{
    if pos < bytes.len() {
        lemma_lexeme_at(bytes, pos);
        match lexeme_at(bytes, pos) {
            Err(e) => {},
            Ok((tokens, next)) => {
                let all = acc + tokens;
                assert(tiles(all, next as nat)) by {
                    assert forall|i: int| 0 <= i < all.len() implies (#[trigger] all[i]).1.within(
                        next as nat,
                    ) by {
                        if i < acc.len() {
                            assert(all[i] == acc[i]);
                        } else {
                            assert(all[i] == tokens[i - acc.len()]);
                            assert(tokens[i - acc.len()].1.within(bytes.len()));
                            lemma_contiguous_ends(tokens, bytes.len(), i - acc.len());
                        }
                    }
                    assert forall|i: int, j: int| 0 <= i && j == i + 1 && j < all.len() implies (
                    #[trigger] all[i]).1.end == (#[trigger] all[j]).1.start by {
                        if i + 1 < acc.len() {
                            assert(all[i] == acc[i] && all[j] == acc[j]);
                        } else if i < acc.len() {
                            assert(all[i] == acc[i] && all[j] == tokens[0]);
                            assert(acc[i] == acc.last());
                        } else {
                            assert(all[i] == tokens[i - acc.len()]);
                            assert(all[j] == tokens[j - acc.len()]);
                        }
                    }
                    assert(all[0] == if acc.len() > 0 {
                        acc[0]
                    } else {
                        tokens[0]
                    });
                    assert(all.last() == tokens.last());
                }
                assert(params_named(all)) by {
                    assert forall|i: int| 0 <= i < all.len() && (#[trigger] all[i]).0
                        == Token::Param implies all[i].1.start + 1 < all[i].1.end by {
                        if i < acc.len() {
                            assert(all[i] == acc[i]);
                        } else {
                            assert(all[i] == tokens[i - acc.len()]);
                        }
                    }
                }
                lemma_lex_from_tiles(bytes, next, all);
            },
        }
    }
}

/// In a contiguous run of tokens, no token ends behind the last one.
pub proof fn lemma_contiguous_ends(tokens: Seq<(Token, Span)>, len: nat, i: int)
    requires
        contiguous(tokens, len),
        0 <= i < tokens.len(),
    ensures
        tokens[i].1.end <= tokens.last().1.end,
    decreases tokens.len() - i,
{
    if i < tokens.len() - 1 {
        assert(tokens[i].1.end == tokens[i + 1].1.start);
        assert(tokens[i + 1].1.within(len));
        lemma_contiguous_ends(tokens, len, i + 1);
    }
}

} // verus!

verus! {

/// The lexer of SQL documents: a cursor into the input, the state at the
/// cursor, and the tokens before it.
pub struct Lexer<'a> {
    input: &'a [u8],
    start: usize,
    state: State,
    tokens: Vec<(Token, Span)>,
}

impl<'a> Lexer<'a> {
    /// The bytes of the input.
    pub closed spec fn bytes(&self) -> Seq<u8> {
        self.input@
    }

    /// The lexer has not started: it is at the first byte and has no tokens.
    pub closed spec fn fresh(&self) -> bool {
        &&& self.start == 0
        &&& self.state is Base
        &&& self.tokens@.len() == 0
        &&& self.input@.len() <= usize::MAX
    }

    /// The lexer can take a step from the state it is in.
    spec fn ready(&self, state: State) -> bool {
        &&& self.start < self.input@.len() <= usize::MAX
        &&& dispatch(self.input@, self.start as int) == Ok::<State, ParseError>(state)
    }

    /// The lexer `after` and the result `r` are what one step from `self`
    /// gives: the tokens at the cursor are added and the cursor moves behind
    /// them, or the step fails with the error of that place.
    spec fn steps_to(&self, after: &Self, r: PResult<(usize, State)>) -> bool {
        &&& after.input == self.input
        &&& match lexeme_at(self.input@, self.start as int) {
            Ok((tokens, next)) => {
                &&& r matches Ok((pos, state))
                &&& pos == next
                &&& after.tokens@ == self.tokens@ + tokens
                &&& (state is Base || (state is Done && next == self.input@.len()))
            },
            Err(e) => r matches Err(error) && error == e,
        }
    }

    /// A lexer at the start of the input.
    pub fn new(input: &'a str) -> (lexer: Lexer<'a>)
        ensures
            lexer.bytes() == input.spec_bytes(),
            lexer.fresh(),
    {
        let bytes = input.as_bytes();
        let _ = bytes.len();
        Lexer { input: bytes, start: 0, state: State::Base, tokens: Vec::new() }
    }

    fn push(&mut self, token: Token, len: usize)
        requires
            old(self).start + len <= usize::MAX,
        ensures
            final(self).tokens@ == old(self).tokens@.push(
                (token, span(old(self).start as int, old(self).start + len)),
            ),
            final(self).input == old(self).input,
            final(self).start == old(self).start,
            final(self).state == old(self).state,
    {
        let span = Span { start: self.start, end: self.start + len };
        self.tokens.push((token, span));
    }

    /// Build a parse error at the current cursor location, as long as there
    /// are bytes of `class` from there on.
    fn error_while<T>(&self, class: ByteClass, message: &'static str) -> (r: PResult<T>)
        requires
            self.start <= self.input@.len() <= usize::MAX,
        ensures
            r == Err::<T, ParseError>(
                error_over(
                    self.start as int,
                    self.start + count_from(self.input@, self.start as int, class),
                    message,
                ),
            ),
    {
        let count: usize = count_bytes(self.input, self.start, class);
        let error = ParseError {
            span: Span { start: self.start, end: self.start + count },
            message: message,
            note: None,
        };
        Err(error)
    }

    /// Lex the input until completion.
    pub fn run(self) -> (r: PResult<Vec<(Token, Span)>>)
        requires
            self.fresh(),
        ensures
            match lex_document(self.bytes()) {
                Ok(tokens) => r matches Ok(v) && v@ == tokens,
                Err(e) => r matches Err(error) && error == e,
            },
            r matches Ok(v) ==> tiles(v@, self.bytes().len()),
            r matches Ok(v) ==> params_named(v@),
            r matches Ok(v) ==> tokens_sound(v@, self.bytes()),
            r matches Err(e) ==> located(e, self.bytes().len()),
            r matches Ok(v) ==> comments_paired(v@),
    {
        let mut lexer = self;
        let ghost bytes = lexer.input@;
        proof {
            lemma_lex_from_tiles(bytes, 0, Seq::empty());
            lemma_lex_from_sound(bytes, 0, Seq::empty());
            lemma_lex_from_located(bytes, 0, Seq::empty());
            lemma_lex_from_paired(bytes, 0, Seq::empty());
            assert(lexer.tokens@ =~= Seq::empty());
        }
        loop
            invariant
                lexer.input@ == bytes,
                self.bytes() == bytes,
                lexer.start <= bytes.len() <= usize::MAX,
                lex_from(bytes, lexer.start as int, lexer.tokens@) == lex_document(bytes),
                lex_document(bytes) matches Err(e) ==> located(e, bytes.len()),
                !(lexer.state is Base) ==> dispatch(bytes, lexer.start as int) == Ok::<
                    State,
                    ParseError,
                >(lexer.state),
            ensures
                lex_document(bytes) == Ok::<Seq<(Token, Span)>, ParseError>(lexer.tokens@),
            decreases
                    bytes.len() - lexer.start,
                    (if lexer.state is Base {
                        1int
                    } else {
                        0int
                    }),
        {
            proof {
                if lexer.start < bytes.len() {
                    lemma_lexeme_at(bytes, lexer.start as int);
                }
            }
            let (start, state) = match lexer.state {
                State::Base => lexer.lex_base()?,
                State::InSingleQuote => lexer.lex_in_single_quote()?,
                State::InDoubleQuote => lexer.lex_in_double_quote()?,
                State::InLineComment => lexer.lex_in_line_comment(),
                State::InInlineComment => lexer.lex_in_inline_comment()?,
                State::InParam => lexer.lex_in_param(),
                State::InSpace => lexer.lex_in_space(),
                State::InIdent => lexer.lex_in_ident(),
                State::InPunct => lexer.lex_in_punct(),
                State::Done => break ,
            };

            lexer.start = start;
            lexer.state = state;
        }

        Ok(lexer.tokens)
    }

    fn lex_base(&mut self) -> (r: PResult<(usize, State)>)
        requires
            old(self).start <= old(self).input@.len() <= usize::MAX,
        ensures
            final(self).input == old(self).input,
            final(self).start == old(self).start,
            final(self).state == old(self).state,
            final(self).tokens@ == old(self).tokens@,
            match dispatch(old(self).input@, old(self).start as int) {
                Ok(state) => r matches Ok((pos, entered)) && pos == old(self).start && entered
                    == state,
                Err(e) => r matches Err(error) && error == e,
            },
    {
        let input = self.input;
        let at: usize = self.start;

        if at >= input.len() {
            return Ok((self.start, State::Done));
        }
        let line_comment: [u8; 2] = [0x2d, 0x2d];
        let block_comment: [u8; 2] = [0x2f, 0x2a];
        proof {
            assert(line_comment@ =~= seq![0x2du8, 0x2du8]);
            assert(block_comment@ =~= seq![0x2fu8, 0x2au8]);
        }
        if starts_with_at(input, at, line_comment.as_slice()) {
            return Ok((self.start, State::InLineComment));
        }
        if starts_with_at(input, at, block_comment.as_slice()) {
            return Ok((self.start, State::InInlineComment));
        }
        let b: u8 = input[at];
        if b == 0x27 {
            return Ok((self.start, State::InSingleQuote));
        }
        if b == 0x22 {
            return Ok((self.start, State::InDoubleQuote));
        }
        if is_ascii_whitespace(b) {
            return Ok((self.start, State::InSpace));
        }
        if input.len() - at > 1 && b == 0x3a && is_ascii_alphabetic(input[at + 1]) {
            return Ok((self.start, State::InParam));
        }
        if is_ascii_punctuation(b) {
            return Ok((self.start, State::InPunct));
        }
        if is_ascii_alphabetic(b) || is_ascii_digit(b) {
            return Ok((self.start, State::InIdent));
        }
        if is_ascii_control(b) {
            return self.error_while(ByteClass::Control, "Control characters are not supported here.");
        }
        // Multi-byte sequences of non-ascii code points are fine in strings
        // and comments, but not in raw SQL where we expect identifiers.
        self.error_while(ByteClass::NonAscii, "Non-ascii characters are not supported here.")
    }

    fn lex_in_quote(&mut self, quote: u8, token: Token) -> (r: PResult<(usize, State)>)
        requires
            old(self).start < old(self).input@.len() <= usize::MAX,
        ensures
            final(self).input == old(self).input,
            final(self).start == old(self).start,
            final(self).state == old(self).state,
            match quoted_at(old(self).input@, old(self).start as int, quote, token) {
                Ok((tokens, next)) => {
                    &&& r matches Ok((pos, state))
                    &&& pos == next
                    &&& final(self).tokens@ == old(self).tokens@ + tokens
                    &&& state is Base
                },
                Err(e) => r matches Err(error) && error == e && final(self).tokens@ == old(
                    self,
                ).tokens@,
            },
    {
        let input = self.input;
        // Skip over the initial opening quote.
        let mut i: usize = self.start + 1;
        while i < input.len()
            invariant
                self.start < i <= input@.len() <= usize::MAX,
                input == self.input,
                self.input == old(self).input,
                self.start == old(self).start,
                self.state == old(self).state,
                self.tokens@ == old(self).tokens@,
                find_quote_end(input@, self.start + 1, quote) == find_quote_end(
                    input@,
                    i as int,
                    quote,
                ),
            decreases input@.len() - i,
        {
            // An escaped quote should not end the token.
            if input[i] == quote && input[i - 1] != 0x5c {
                self.push(token, i + 1 - self.start);
                proof {
                    assert(old(self).tokens@.push((token, span(self.start as int, i + 1)))
                        =~= old(self).tokens@ + seq![(token, span(self.start as int, i + 1))]);
                }
                return Ok((i + 1, State::Base));
            }
            i += 1;
        }

        let error = ParseError {
            span: Span { start: self.start, end: self.input.len() },
            message: "Unexpected end of input, string literal is not closed.",
            note: None,
        };
        Err(error)
    }

    fn lex_in_single_quote(&mut self) -> (r: PResult<(usize, State)>)
        requires
            old(self).ready(State::InSingleQuote),
        ensures
            old(self).steps_to(final(self), r),
    {
        self.lex_in_quote(0x27, Token::SingleQuoted)
    }

    fn lex_in_double_quote(&mut self) -> (r: PResult<(usize, State)>)
        requires
            old(self).ready(State::InDoubleQuote),
        ensures
            old(self).steps_to(final(self), r),
    {
        self.lex_in_quote(0x22, Token::DoubleQuoted)
    }

    fn lex_skip_then_while(&mut self, n_skip: usize, class: ByteClass, token: Token) -> (r: (
        usize,
        State,
    ))
        requires
            old(self).start + n_skip <= old(self).input@.len() <= usize::MAX,
        ensures
            final(self).input == old(self).input,
            final(self).start == old(self).start,
            r.0 == run_end(
                old(self).input@,
                old(self).start + n_skip,
                old(self).input@.len() as int,
                class,
            ),
            final(self).tokens@ == old(self).tokens@.push(
                (token, span(old(self).start as int, r.0 as int)),
            ),
            r.1 is Base || r.1 is Done,
            r.1 is Done <==> r.0 == old(self).input@.len(),
    {
        let stop: usize = scan_run(self.input, self.start + n_skip, self.input.len(), class);
        self.push(token, stop - self.start);
        if stop < self.input.len() {
            (stop, State::Base)
        } else {
            (stop, State::Done)
        }
    }

    fn lex_while(&mut self, class: ByteClass, token: Token) -> (r: (usize, State))
        requires
            old(self).start <= old(self).input@.len() <= usize::MAX,
        ensures
            final(self).input == old(self).input,
            final(self).start == old(self).start,
            r.0 == run_end(
                old(self).input@,
                old(self).start as int,
                old(self).input@.len() as int,
                class,
            ),
            final(self).tokens@ == old(self).tokens@.push(
                (token, span(old(self).start as int, r.0 as int)),
            ),
            r.1 is Base || r.1 is Done,
            r.1 is Done <==> r.0 == old(self).input@.len(),
    {
        self.lex_skip_then_while(0, class, token)
    }

    fn lex_in_line_comment(&mut self) -> (r: (usize, State))
        requires
            old(self).ready(State::InLineComment),
        ensures
            old(self).steps_to(final(self), Ok(r)),
    {
        // The `--` is its own token.
        self.push(Token::CommentStart, 2);
        self.start += 2;
        let r = self.lex_while(ByteClass::NotNewline, Token::CommentInner);
        proof {
            let at = old(self).start as int;
            assert(old(self).tokens@.push((Token::CommentStart, span(at, at + 2))).push(
                (Token::CommentInner, span(at + 2, r.0 as int)),
            ) =~= old(self).tokens@ + seq![
                (Token::CommentStart, span(at, at + 2)),
                (Token::CommentInner, span(at + 2, r.0 as int)),
            ]);
        }
        r
    }

    fn lex_in_inline_comment(&mut self) -> (r: PResult<(usize, State)>)
        requires
            old(self).ready(State::InInlineComment),
        ensures
            old(self).steps_to(final(self), r),
    {
        // The `/*` is its own token.
        self.push(Token::CommentStart, 2);
        self.start += 2;

        let input = self.input;
        let mut at: usize = self.start;
        while at < input.len() && input.len() - at >= 2
            invariant
                old(self).ready(State::InInlineComment),
                self.start <= at,
                self.start == old(self).start + 2,
                self.start <= input@.len() <= usize::MAX,
                input == self.input,
                self.input == old(self).input,
                self.tokens@ == old(self).tokens@.push(
                    (Token::CommentStart, span(old(self).start as int, old(self).start + 2)),
                ),
                find_block_end(input@, self.start as int) == find_block_end(input@, at as int),
            decreases input@.len() - at,
        {
            if input[at] == 0x2a && input[at + 1] == 0x2f {
                let len: usize = at - self.start;
                self.push(Token::CommentInner, len);
                self.start += len;
                self.push(Token::CommentEnd, 2);
                proof {
                    let from = old(self).start as int;
                    assert(self.tokens@ =~= old(self).tokens@ + seq![
                        (Token::CommentStart, span(from, from + 2)),
                        (Token::CommentInner, span(from + 2, at as int)),
                        (Token::CommentEnd, span(at as int, at + 2)),
                    ]);
                }
                return Ok((self.start + 2, State::Base));
            }
            at += 1;
        }

        // If we did not return by now, then the comment is unclosed. Reset the
        // start position to the start of the comment to get a nicer error.
        self.start -= 2;
        proof {
            lemma_count_all(self.input@, self.start as int);
        }
        self.error_while(ByteClass::Any, "Unclosed /* */ comment.")
    }

    fn lex_in_param(&mut self) -> (r: (usize, State))
        requires
            old(self).ready(State::InParam),
        ensures
            old(self).steps_to(final(self), Ok(r)),
    {
        let r = self.lex_skip_then_while(1, ByteClass::Identifier, Token::Param);
        proof {
            lemma_push_is_add(old(self).tokens@, (Token::Param, span(old(self).start as int, r.0 as int)));
        }
        r
    }

    fn lex_in_space(&mut self) -> (r: (usize, State))
        requires
            old(self).ready(State::InSpace),
        ensures
            old(self).steps_to(final(self), Ok(r)),
    {
        // Space tokens are preserved, because we want to be able to replicate
        // the query literally later on, including formatting.
        let r = self.lex_while(ByteClass::Whitespace, Token::Space);
        proof {
            lemma_push_is_add(old(self).tokens@, (Token::Space, span(old(self).start as int, r.0 as int)));
        }
        r
    }

    fn lex_in_ident(&mut self) -> (r: (usize, State))
        requires
            old(self).ready(State::InIdent),
        ensures
            old(self).steps_to(final(self), Ok(r)),
    {
        let r = self.lex_while(ByteClass::Identifier, Token::Ident);
        proof {
            lemma_push_is_add(old(self).tokens@, (Token::Ident, span(old(self).start as int, r.0 as int)));
        }
        r
    }

    fn lex_in_punct(&mut self) -> (r: (usize, State))
        requires
            old(self).ready(State::InPunct),
        ensures
            old(self).steps_to(final(self), Ok(r)),
    {
        let b: u8 = self.input[self.start];
        let token = if b == 0x28 {
            Token::LParen
        } else if b == 0x29 {
            Token::RParen
        } else if b == 0x7b {
            Token::LBrace
        } else if b == 0x7d {
            Token::RBrace
        } else if b == 0x5b {
            Token::LBracket
        } else if b == 0x5d {
            Token::RBracket
        } else if b == 0x3b {
            Token::Semicolon
        } else {
            // If it's not one of those, then we make one token until either the
            // punctuation ends, or we do hit one of those.
            let r = self.lex_while(ByteClass::Punctuation, Token::Punct);
            proof {
                lemma_push_is_add(
                    old(self).tokens@,
                    (Token::Punct, span(old(self).start as int, r.0 as int)),
                );
            }
            return r;
        };
        self.push(token, 1);
        proof {
            lemma_push_is_add(
                old(self).tokens@,
                (token, span(old(self).start as int, old(self).start + 1)),
            );
        }
        (self.start + 1, State::Base)
    }
}

/// Adding one token at the end is adding a sequence of one token.
proof fn lemma_push_is_add(tokens: Seq<(Token, Span)>, token: (Token, Span))
    ensures
        tokens.push(token) == tokens + seq![token],
{
    assert(tokens.push(token) =~= tokens + seq![token]);
}

/// Every byte is of the class of all bytes.
proof fn lemma_count_all(bytes: Seq<u8>, from: int)
    requires
        0 <= from <= bytes.len(),
    ensures
        count_from(bytes, from, ByteClass::Any) == bytes.len() - from,
    decreases bytes.len() - from,
{
    if from < bytes.len() {
        lemma_count_all(bytes, from + 1);
    }
}

/// What the first `n` tokens spell: the bytes that they cover, one token
/// after the other.
pub open spec fn spelled(bytes: Seq<u8>, tokens: Seq<(Token, Span)>, n: int) -> Seq<u8>
    decreases n,
{
    if n <= 0 || n > tokens.len() {
        Seq::empty()
    } else {
        spelled(bytes, tokens, n - 1) + tokens[n - 1].1.of(bytes)
    }
}

proof fn lemma_spelled_prefix(bytes: Seq<u8>, tokens: Seq<(Token, Span)>, n: int)
    requires
        tiles(tokens, bytes.len()),
        0 < n <= tokens.len(),
    ensures
        spelled(bytes, tokens, n) == bytes.subrange(0, tokens[n - 1].1.end as int),
    decreases n,
{
    assert(tokens[n - 1].1.within(bytes.len()));
    if n == 1 {
        assert(spelled(bytes, tokens, 0) =~= Seq::empty());
        assert(spelled(bytes, tokens, 1) =~= bytes.subrange(0, tokens[0].1.end as int));
    } else {
        lemma_spelled_prefix(bytes, tokens, n - 1);
        assert(tokens[n - 2].1.end == tokens[n - 1].1.start);
        assert(tokens[n - 2].1.within(bytes.len()));
        assert(bytes.subrange(0, tokens[n - 2].1.end as int) + tokens[n - 1].1.of(bytes)
            =~= bytes.subrange(0, tokens[n - 1].1.end as int));
    }
}

/// Tokens that tile an input spell it. The bytes that
/// the tokens cover, one token after the other, are the input.
pub proof fn lemma_tokens_spell_input(bytes: Seq<u8>, tokens: Seq<(Token, Span)>)
    requires
        tiles(tokens, bytes.len()),
    ensures
        spelled(bytes, tokens, tokens.len() as int) == bytes,
{
    if tokens.len() > 0 {
        lemma_spelled_prefix(bytes, tokens, tokens.len() as int);
        assert(bytes.subrange(0, bytes.len() as int) =~= bytes);
    } else {
        assert(bytes =~= Seq::empty());
    }
}

/// The token starts and ends next to an ASCII byte or at an end of the
/// input, and a parameter is a colon with a name behind it.
pub open spec fn token_sound(bytes: Seq<u8>, token: (Token, Span)) -> bool {
    &&& token.1.within(bytes.len())
    &&& ascii_edge(bytes, token.1.start as int)
    &&& ascii_edge(bytes, token.1.end as int)
    &&& token.0 == Token::Param ==> token.1.start + 1 < token.1.end && bytes[token.1.start as int]
        == 0x3a
}

/// Every token is sound.
pub open spec fn tokens_sound(tokens: Seq<(Token, Span)>, bytes: Seq<u8>) -> bool {
    forall|i: int| 0 <= i < tokens.len() ==> token_sound(bytes, #[trigger] tokens[i])
}

/// The tokens at a position are sound, and the next token starts next to
/// an ASCII byte or at the end of the input.
pub proof fn lemma_lexeme_sound(bytes: Seq<u8>, pos: int)
    requires
        0 <= pos < bytes.len() <= usize::MAX,
        ascii_edge(bytes, pos),
    ensures
        lexeme_at(bytes, pos) matches Ok((tokens, next)) ==> tokens_sound(tokens, bytes)
            && ascii_edge(bytes, next),
{
    let len = bytes.len() as int;
    lemma_lexeme_at(bytes, pos);
    if pos + 2 <= len {
        lemma_run_end_bounds(bytes, pos + 2, len, ByteClass::NotNewline);
    }
    lemma_run_end_bounds(bytes, pos, len, ByteClass::Identifier);
    lemma_run_end_bounds(bytes, pos + 1, len, ByteClass::Identifier);
    lemma_run_end_bounds(bytes, pos, len, ByteClass::Whitespace);
    lemma_run_end_bounds(bytes, pos, len, ByteClass::Punctuation);
    lemma_find_quote_end(bytes, pos + 1, 0x27);
    lemma_find_quote_end(bytes, pos + 1, 0x22);
    lemma_find_block_end(bytes, pos + 2);
    match lexeme_at(bytes, pos) {
        Err(_) => {},
        Ok((tokens, next)) => {
            assert(pos < next <= len);
            assert(bytes[next - 1] < 0x80 || next == len || bytes[next] < 0x80) by {
                match dispatch(bytes, pos) {
                    Ok(State::InParam) => {
                        let end = run_end(bytes, pos + 1, len, ByteClass::Identifier);
                        if end > pos + 1 {
                            assert(ByteClass::Identifier.has(bytes[end - 1]));
                        }
                    },
                    Ok(State::InSpace) => {
                        let end = run_end(bytes, pos, len, ByteClass::Whitespace);
                        assert(ByteClass::Whitespace.has(bytes[end - 1]));
                    },
                    Ok(State::InIdent) => {
                        let end = run_end(bytes, pos, len, ByteClass::Identifier);
                        assert(ByteClass::Identifier.has(bytes[end - 1]));
                    },
                    Ok(State::InPunct) => {
                        if bracket_token(bytes[pos]) is None {
                            let end = run_end(bytes, pos, len, ByteClass::Punctuation);
                            assert(ByteClass::Punctuation.has(bytes[end - 1]));
                        }
                    },
                    _ => {},
                }
            }
            assert forall|i: int| 0 <= i < tokens.len() implies token_sound(
                bytes,
                #[trigger] tokens[i],
            ) by {
                assert(tokens[i].1.within(bytes.len()));
            }
        },
    }
}

/// Lexing makes sound tokens.
pub proof fn lemma_lex_from_sound(bytes: Seq<u8>, pos: int, acc: Seq<(Token, Span)>)
    requires
        0 <= pos <= bytes.len() <= usize::MAX,
        ascii_edge(bytes, pos),
        tokens_sound(acc, bytes),
    ensures
        lex_from(bytes, pos, acc) matches Ok(tokens) ==> tokens_sound(tokens, bytes),
    decreases bytes.len() - pos,
{
    if pos < bytes.len() {
        lemma_lexeme_at(bytes, pos);
        lemma_lexeme_sound(bytes, pos);
        match lexeme_at(bytes, pos) {
            Err(_) => {},
            Ok((tokens, next)) => {
                let all = acc + tokens;
                assert forall|i: int| 0 <= i < all.len() implies token_sound(
                    bytes,
                    #[trigger] all[i],
                ) by {
                    if i < acc.len() {
                        assert(all[i] == acc[i]);
                    } else {
                        assert(all[i] == tokens[i - acc.len()]);
                    }
                }
                lemma_lex_from_sound(bytes, next, all);
            },
        }
    }
}

/// In an input that is valid UTF-8, a sound token can be resolved.
pub proof fn lemma_sound_token_resolvable(bytes: Seq<u8>, token: (Token, Span))
    requires
        vstd::utf8::valid_utf8(bytes),
        token_sound(bytes, token),
    ensures
        token.1.resolvable(bytes),
{
    crate::text::lemma_ascii_edge_is_boundary(bytes, token.1.start as int);
    crate::text::lemma_ascii_edge_is_boundary(bytes, token.1.end as int);
}

/// An error of the lexer points into the input.
pub proof fn lemma_lex_from_located(bytes: Seq<u8>, pos: int, acc: Seq<(Token, Span)>)
    requires
        0 <= pos <= bytes.len() <= usize::MAX,
    ensures
        lex_from(bytes, pos, acc) matches Err(e) ==> located(e, bytes.len()),
    decreases bytes.len() - pos,
{
    if pos < bytes.len() {
        lemma_count_from_bounds(bytes, pos, ByteClass::Control);
        lemma_count_from_bounds(bytes, pos, ByteClass::NonAscii);
        match lexeme_at(bytes, pos) {
            Err(_) => {},
            Ok((tokens, next)) => {
                if pos < next <= bytes.len() {
                    lemma_lex_from_located(bytes, next, acc + tokens);
                }
            },
        }
    }
}

/// The inner token of every comment stands right behind the token that
/// opens the comment.
pub open spec fn comments_paired(tokens: Seq<(Token, Span)>) -> bool {
    &&& forall|i: int|
        0 <= i < tokens.len() && (#[trigger] tokens[i]).0 == Token::CommentInner ==> i > 0
    &&& forall|i: int, j: int|
        0 <= j && i == j + 1 && i < tokens.len() && (#[trigger] tokens[i]).0
            == Token::CommentInner ==> (#[trigger] tokens[j]).0 == Token::CommentStart
}

/// Lexing pairs the tokens of comments.
pub proof fn lemma_lex_from_paired(bytes: Seq<u8>, pos: int, acc: Seq<(Token, Span)>)
    requires
        0 <= pos <= bytes.len(),
        comments_paired(acc),
    ensures
        lex_from(bytes, pos, acc) matches Ok(tokens) ==> comments_paired(tokens),
    decreases bytes.len() - pos,
{
    if pos < bytes.len() {
        match lexeme_at(bytes, pos) {
            Err(_) => {},
            Ok((tokens, next)) => {
                if pos < next <= bytes.len() {
                    let all = acc + tokens;
                    assert forall|i: int| 0 <= i < all.len() && (#[trigger] all[i]).0
                        == Token::CommentInner implies i > 0 by {
                        if i < acc.len() {
                            assert(all[i] == acc[i]);
                        } else {
                            assert(all[i] == tokens[i - acc.len()]);
                        }
                    }
                    assert forall|i: int, j: int|
                        0 <= j && i == j + 1 && i < all.len() && (#[trigger] all[i]).0
                            == Token::CommentInner implies (#[trigger] all[j]).0
                        == Token::CommentStart by {
                        if i < acc.len() {
                            assert(all[i] == acc[i]);
                            assert(all[j] == acc[j]);
                        } else {
                            let k = i - acc.len();
                            assert(all[i] == tokens[k]);
                            assert(k == 1);
                            assert(all[j] == tokens[0]);
                        }
                    }
                    lemma_lex_from_paired(bytes, next, all);
                }
            },
        }
    }
}

} // verus!
