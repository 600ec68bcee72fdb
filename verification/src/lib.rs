//! Squiller turns annotated SQL files into typed database-access code.
//!
//! This crate is the verified front end: the lexers, the parsers and the
//! type resolver, together with the diagnostics they produce. All positions
//! are byte offsets into the input, and all contracts speak about the bytes
//! of the input.
use crate::ast::{resolvable_in, Document, DocumentView};
use crate::error::{showable, Diagnostic, DiagnosticView, Error, PResult, ParseError};
use crate::lexer::document::{lex_document, Lexer};
use crate::parser::document::{document_of, Parser};
use crate::typecheck::resolved_document;
use vstd::prelude::*;
use vstd::string::StringSliceAdditionalSpecFns;
use vstd::utf8::{is_char_boundary, valid_utf8};

pub mod ast;
pub mod cli;
pub mod codegen;
pub mod error;
pub mod lexer;
pub mod names;
pub mod parser;
pub mod text;
pub mod typecheck;

verus! {

/// Marks a location in the source file by byte offset.
#[derive(Copy, Clone, Debug, PartialEq, Eq, Structural)]
pub struct Span {
    /// Start of the token, inclusive.
    pub start: usize,
    /// End of the token, exclusive.
    pub end: usize,
}

impl Span {
    /// The span is a range inside an input of `len` bytes.
    pub open spec fn within(self, len: nat) -> bool {
        self.start <= self.end <= len
    }

    /// The bytes of `bytes` that the span covers.
    pub open spec fn of(self, bytes: Seq<u8>) -> Seq<u8> {
        bytes.subrange(self.start as int, self.end as int)
    }

    /// The span lies inside `bytes` and both its ends fall between characters.
    pub open spec fn resolvable(self, bytes: Seq<u8>) -> bool {
        &&& self.within(bytes.len())
        &&& is_char_boundary(bytes, self.start as int)
        &&& is_char_boundary(bytes, self.end as int)
    }

    /// Return the slice from the input that this span spans.
    pub fn resolve<'a>(&self, input: &'a str) -> (r: &'a str)
        requires
            self.resolvable(input.spec_bytes()),
        ensures
            r.spec_bytes() == self.of(input.spec_bytes()),
    {
        let (head, _) = input.split_at(self.end);
        proof {
            vstd::utf8::encode_utf8_valid_utf8(input@);
            lemma_boundary_in_prefix(input.spec_bytes(), self.start as int, self.end as int);
        }
        let (_, r) = head.split_at(self.start);
        proof {
            assert(r.spec_bytes() =~= self.of(input.spec_bytes()));
        }
        r
    }

    /// The number of bytes that the span covers.
    pub fn len(&self) -> (n: usize)
        requires
            self.start <= self.end,
        ensures
            n == self.end - self.start,
    {
        self.end - self.start
    }

    /// The span without its first `n` bytes.
    pub fn trim_start(&self, n: usize) -> (r: Span)
        requires
            self.start + n <= usize::MAX,
        ensures
            r == (Span { start: (self.start + n) as usize, end: self.end }),
    {
        Span { start: self.start + n, end: self.end }
    }
}

/// A character boundary of a text is also one of each prefix that reaches it.
proof fn lemma_boundary_in_prefix(bytes: Seq<u8>, i: int, j: int)
    requires
        valid_utf8(bytes),
        0 <= i <= j <= bytes.len(),
        is_char_boundary(bytes, i),
        is_char_boundary(bytes, j),
    ensures
        valid_utf8(bytes.subrange(0, j)),
        is_char_boundary(bytes.subrange(0, j), i),
{
    let head = bytes.subrange(0, j);
    vstd::utf8::valid_utf8_split(bytes, j);
    if i == j {
        vstd::utf8::is_char_boundary_start_end_of_seq(head);
    } else {
        vstd::utf8::is_char_boundary_iff_not_is_continuation_byte(bytes, i);
        vstd::utf8::is_char_boundary_iff_not_is_continuation_byte(head, i);
    }
}

/// The length that the standard library reports for the first sequence of
/// bytes in `bytes` that is no valid UTF-8: nothing if the input ends in the
/// middle of a character, else the number of bytes that cannot start a
/// character.
pub uninterp spec fn invalid_sequence_len(bytes: Seq<u8>) -> Option<usize>;

/// Whether `upto` is the length of the longest prefix of `bytes` that is valid UTF-8.
pub open spec fn valid_up_to(bytes: Seq<u8>, upto: int) -> bool {
    &&& 0 <= upto <= bytes.len()
    &&& valid_utf8(bytes.subrange(0, upto))
    &&& forall|longer: int|
        upto < longer <= bytes.len() ==> !valid_utf8(#[trigger] bytes.subrange(0, longer))
}

/// Check that bytes are UTF-8, with `core::str::from_utf8`.
///
/// The contract is what the standard library documents: the call succeeds
/// on valid UTF-8 and only there, and then returns the same bytes as text.
/// Else its error tells how long the longest valid prefix is, and how long
/// the invalid sequence of bytes behind it, which lies inside the input.
#[verifier::external_body]
fn check_utf8(input: &[u8]) -> (r: Result<&str, (usize, Option<usize>)>)
    ensures
        match r {
            Ok(text) => valid_utf8(input@) && text.spec_bytes() == input@,
            Err((upto, len)) => {
                &&& !valid_utf8(input@)
                &&& valid_up_to(input@, upto as int)
                &&& len == invalid_sequence_len(input@)
                &&& len matches Some(n) ==> upto + n <= input@.len()
            },
        },
{
    match core::str::from_utf8(input) {
        Ok(text) => Ok(text),
        Err(err) => Err((err.valid_up_to(), err.error_len())),
    }
}

/// Whether `error` is the error for bytes that are no valid UTF-8: it
/// marks the first invalid sequence of bytes.
pub open spec fn marks_invalid_utf8(bytes: Seq<u8>, error: ParseError) -> bool {
    &&& valid_up_to(bytes, error.span.start as int)
    &&& error.span.end == error.span.start + match invalid_sequence_len(bytes) {
        Some(n) => n as int,
        None => 0,
    }
    &&& error.message == "This input is not valid UTF-8."
    &&& error.note is None
}

/// As `str::from_utf8`, but map errors to a type that we can print.
pub fn str_from_utf8(input: &[u8]) -> (r: PResult<&str>)
    ensures
        match r {
            Ok(text) => valid_utf8(input@) && text.spec_bytes() == input@,
            Err(error) => !valid_utf8(input@) && marks_invalid_utf8(input@, error),
        },
{
    match check_utf8(input) {
        Ok(text) => Ok(text),
        Err((upto, len)) => {
            let _ = input.len();
            let len: usize = match len {
                Some(n) => n,
                None => 0,
            };
            Err(
                ParseError {
                    span: Span { start: upto, end: upto + len },
                    message: "This input is not valid UTF-8.",
                    note: None,
                },
            )
        },
    }
}

/// A parsed document, along with its source code and source file name.
pub struct NamedDocument<'a> {
    pub fname: &'a str,
    pub input: &'a str,
    pub document: Document<Span>,
}

/// What processing makes of an input that is valid UTF-8: the document
/// that its tokens spell, with the types of its queries resolved, or the
/// first error of the lexer, of the parser or of the type resolver.
pub open spec fn processed(bytes: Seq<u8>) -> Result<DocumentView<Span>, DiagnosticView> {
    match lex_document(bytes) {
        Err(e) => Err(DiagnosticView::Parse(e)),
        Ok(tokens) => match document_of(bytes, tokens) {
            Err(e) => Err(DiagnosticView::Parse(e)),
            Ok(parsed) => match resolved_document(bytes, parsed) {
                Err(e) => Err(DiagnosticView::Type(e)),
                Ok(document) => Ok(document),
            },
        },
    }
}

impl<'a> NamedDocument<'a> {
    /// Parse and typecheck one input file.
    ///
    /// The file name is not used here to load the bytes, it is only added to
    /// the result, so it can later be used for error reporting, or for deriving
    /// module names.
    pub fn process_input(fname: &'a str, input_bytes: &'a [u8]) -> (r: error::Result<
        NamedDocument<'a>,
    >)
        ensures
            valid_utf8(input_bytes@) ==> match processed(input_bytes@) {
                Ok(document) => r matches Ok(named) && named.document@ == document && named.fname
                    == fname && named.input.spec_bytes() == input_bytes@,
                Err(e) => r matches Err(diagnostic) && diagnostic@ == e,
            },
            !valid_utf8(input_bytes@) ==> (r matches Err(Diagnostic::Parse(error))
                && marks_invalid_utf8(input_bytes@, error)),
            r matches Ok(named) ==> (lex_document(input_bytes@) matches Ok(tokens)
                && crate::lexer::document::tiles(tokens, input_bytes@.len())
                && crate::parser::layout::document_tiles(tokens, named.document@.sections, 0)),
            match r {
                Ok(named) => named.document@.all(resolvable_in(input_bytes@)),
                Err(diagnostic) => showable(diagnostic.span_of(), input_bytes@.len()) && (
                diagnostic.note_of() matches Some((_, place)) ==> showable(
                    place,
                    input_bytes@.len(),
                )),
            },
    {
        let _ = input_bytes.len();
        let input_str = match str_from_utf8(input_bytes) {
            Ok(text) => text,
            Err(e) => return Err(Diagnostic::Parse(e)),
        };
        let tokens = match Lexer::new(input_str).run() {
            Ok(tokens) => tokens,
            Err(e) => return Err(Diagnostic::Parse(e)),
        };
        let mut parser = Parser::new(input_str, tokens.as_slice());
        let doc = match parser.parse_document() {
            Ok(doc) => doc,
            Err(e) => return Err(Diagnostic::Parse(e)),
        };
        proof {
            crate::names::lemma_resolved_document_tiles(input_bytes@, tokens@, doc@, 0);
        }
        let doc = match typecheck::check_document(input_str, doc) {
            Ok(doc) => doc,
            Err(e) => return Err(Diagnostic::Type(e)),
        };
        let result = NamedDocument { fname, input: input_str, document: doc };
        Ok(result)
    }
}

} // verus!
