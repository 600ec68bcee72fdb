//! The parser of the annotation language.
//!
//! What each parsing function returns is defined by a specification function
//! over the bytes of the input, the tokens and the index of the token where
//! parsing starts. It yields the parsed value and the index of the first
//! token after it, or the error.
use crate::ast::{
    Annotation, AnnotationView, ArgType, ArgTypeView, ComplexType, ComplexTypeView, PrimitiveType,
    ResultType, ResultTypeView, SimpleType, StatementType, TypedIdent,
};
use crate::ast::resolvable_in;
use crate::error::{located, PResult, ParseError};
use crate::lexer::annotation::tokens_fit;
use crate::parser::spans::{
    fits, lemma_annotation_at, lemma_complex_type_at, lemma_simple_type_at, lemma_typed_ident_at,
};
use crate::lexer::annotation::Token;
use crate::text::{bytes_equal, equals_lowercased, is_ascii_uppercase, is_uppercase, lower};
use crate::Span;
use vstd::prelude::*;
use vstd::slice::slice_subrange;
use vstd::string::StringSliceAdditionalSpecFns;

verus! {

/// Where an error is reported that is raised at token `at`: at that token,
/// or right behind the last token if there is none.
pub open spec fn error_span(tokens: Seq<(Token, Span)>, at: int) -> Span {
    if 0 <= at < tokens.len() {
        tokens[at].1
    } else {
        Span { start: tokens.last().1.end, end: tokens.last().1.end }
    }
}

/// The error with `message`, raised at token `at`.
pub open spec fn error_at(tokens: Seq<(Token, Span)>, at: int, message: &'static str) -> ParseError {
    ParseError { span: error_span(tokens, at), message, note: None }
}

/// Whether token `at` exists and is of kind `token`.
pub open spec fn is_token(tokens: Seq<(Token, Span)>, at: int, token: Token) -> bool {
    0 <= at < tokens.len() && tokens[at].0 == token
}

/// The primitive type that `word` names.
pub open spec fn primitive_named(word: Seq<u8>) -> Option<PrimitiveType> {
    if word == "str".spec_bytes() {
        Some(PrimitiveType::Str)
    } else if word == "i32".spec_bytes() {
        Some(PrimitiveType::I32)
    } else if word == "i64".spec_bytes() {
        Some(PrimitiveType::I64)
    } else if word == "f32".spec_bytes() {
        Some(PrimitiveType::F32)
    } else if word == "f64".spec_bytes() {
        Some(PrimitiveType::F64)
    } else if word == "bytes".spec_bytes() {
        Some(PrimitiveType::Bytes)
    } else {
        None
    }
}

/// Whether `word` is a name that people use for strings elsewhere.
pub open spec fn names_string(word: Seq<u8>) -> bool {
    lower(word) == "str".spec_bytes() || lower(word) == "string".spec_bytes()
}

/// Whether `word` is a name that people use for integers elsewhere.
pub open spec fn names_integer(word: Seq<u8>) -> bool {
    ||| lower(word) == "int".spec_bytes()
    ||| lower(word) == "i8".spec_bytes()
    ||| lower(word) == "i16".spec_bytes()
    ||| lower(word) == "i32".spec_bytes()
    ||| lower(word) == "i64".spec_bytes()
    ||| lower(word) == "uint".spec_bytes()
    ||| lower(word) == "u8".spec_bytes()
    ||| lower(word) == "u16".spec_bytes()
    ||| lower(word) == "u32".spec_bytes()
    ||| lower(word) == "u64".spec_bytes()
    ||| lower(word) == "int4".spec_bytes()
    ||| lower(word) == "int8".spec_bytes()
    ||| lower(word) == "integer".spec_bytes()
    ||| lower(word) == "bigint".spec_bytes()
    ||| lower(word) == "biginteger".spec_bytes()
}

/// Whether `word` is a name that people use for floating point numbers elsewhere.
pub open spec fn names_float(word: Seq<u8>) -> bool {
    ||| lower(word) == "float".spec_bytes()
    ||| lower(word) == "float4".spec_bytes()
    ||| lower(word) == "float8".spec_bytes()
    ||| lower(word) == "double".spec_bytes()
}

/// Whether `word` is a name that people use for optional values elsewhere.
pub open spec fn names_option(word: Seq<u8>) -> bool {
    ||| lower(word) == "option".spec_bytes()
    ||| lower(word) == "optional".spec_bytes()
    ||| lower(word) == "maybe".spec_bytes()
    ||| lower(word) == "null".spec_bytes()
    ||| lower(word) == "nullable".spec_bytes()
}

/// The message for a word that names no primitive type. Words that are
/// close to a primitive type get a message that points to it.
#[verifier::opaque]
pub open spec fn unknown_type_message(word: Seq<u8>) -> &'static str {
    if names_string(word) {
        "Unknown type, did you mean 'str'?"
    } else if names_integer(word) {
        "Unknown type, did you mean 'i32' or 'i64'?"
    } else if names_float(word) {
        "Unknown type, did you mean 'f32' or 'f64'?"
    } else if names_option(word) {
        "Unknown type, did you mean to put '?' behind a type to make it optional?"
    } else {
        "Unknown type, expected a primitive type here."
    }
}

/// A primitive type at token `at`: the span of its name and the type.
pub open spec fn primitive_type_at(bytes: Seq<u8>, tokens: Seq<(Token, Span)>, at: int) -> Result<
    (Span, PrimitiveType),
    ParseError,
> {
    if !(0 <= at < tokens.len()) {
        Err(error_at(tokens, at, "Unexpected end of input, expected a primitive type here."))
    } else if tokens[at].0 != Token::Ident {
        Err(error_at(tokens, at, "Expected a primitive type here."))
    } else {
        let word = tokens[at].1.of(bytes);
        match primitive_named(word) {
            Some(t) => Ok((tokens[at].1, t)),
            None => Err(error_at(tokens, at, unknown_type_message(word))),
        }
    }
}

/// A simple type at token `at`: a primitive type, optional if a question
/// mark follows it.
pub open spec fn simple_type_at(bytes: Seq<u8>, tokens: Seq<(Token, Span)>, at: int) -> Result<
    (SimpleType<Span>, int),
    ParseError,
> {
    match primitive_type_at(bytes, tokens, at) {
        Err(e) => Err(e),
        Ok((inner, type_)) => if is_token(tokens, at + 1, Token::Question) {
            Ok(
                (
                    SimpleType::Option {
                        outer: Span { start: inner.start, end: tokens[at + 1].1.end },
                        inner,
                        type_,
                    },
                    at + 2,
                ),
            )
        } else {
            Ok((SimpleType::Primitive { inner, type_ }, at + 1))
        },
    }
}

/// A typed identifier at token `at`, such as `id: i64`.
pub open spec fn typed_ident_at(bytes: Seq<u8>, tokens: Seq<(Token, Span)>, at: int) -> Result<
    (TypedIdent<Span>, int),
    ParseError,
> {
    if !is_token(tokens, at, Token::Ident) {
        Err(error_at(tokens, at, "Expected an identifier here."))
    } else if !is_token(tokens, at + 1, Token::Colon) {
        Err(error_at(tokens, at + 1, "Expected a ':' here before the start of the type."))
    } else {
        match simple_type_at(bytes, tokens, at + 2) {
            Err(e) => Err(e),
            Ok((type_, next)) => Ok((TypedIdent { ident: tokens[at].1, type_ }, next)),
        }
    }
}

/// The elements of a tuple from token `at` on, behind the elements `acc`
/// that were read before, up to and including the closing paren. A comma
/// separates the elements and may follow the last one.
pub open spec fn tuple_elements_at(
    bytes: Seq<u8>,
    tokens: Seq<(Token, Span)>,
    at: int,
    acc: Seq<SimpleType<Span>>,
) -> Result<(Seq<SimpleType<Span>>, int), ParseError>
    decreases tokens.len() - at,
{
    if is_token(tokens, at, Token::RParen) {
        Ok((acc, at + 1))
    } else {
        match simple_type_at(bytes, tokens, at) {
            Err(e) => Err(e),
            Ok((element, next)) => if !(0 <= next < tokens.len()) {
                Err(error_at(tokens, next, "Unexpected end of input, a tuple is not closed."))
            } else if tokens[next].0 == Token::RParen {
                tuple_elements_at(bytes, tokens, next, acc.push(element))
            } else if tokens[next].0 == Token::Comma {
                tuple_elements_at(bytes, tokens, next + 1, acc.push(element))
            } else {
                Err(
                    error_at(
                        tokens,
                        next,
                        "Unexpected token inside a tuple, expected ',' or ')' here.",
                    ),
                )
            },
        }
    }
}

/// A tuple of simple types at token `at`, parens included.
pub open spec fn tuple_at(bytes: Seq<u8>, tokens: Seq<(Token, Span)>, at: int) -> Result<
    (Seq<SimpleType<Span>>, int),
    ParseError,
> {
    if !is_token(tokens, at, Token::LParen) {
        Err(error_at(tokens, at, "Expected a '(' here to start a tuple."))
    } else {
        tuple_elements_at(bytes, tokens, at + 1, Seq::empty())
    }
}

/// A complex type at token `at`: a tuple, a struct or a simple type. A name
/// that starts with an upper case letter is a struct, whose fields are not
/// known yet.
pub open spec fn complex_type_at(bytes: Seq<u8>, tokens: Seq<(Token, Span)>, at: int) -> Result<
    (ComplexTypeView<Span>, int),
    ParseError,
> {
    if !(0 <= at < tokens.len()) {
        Err(error_at(tokens, at, "Unexpected end of input, expected a type here."))
    } else if tokens[at].0 == Token::LParen {
        match tuple_at(bytes, tokens, at) {
            Err(e) => Err(e),
            Ok((elements, next)) => Ok(
                (
                    ComplexTypeView::Tuple(
                        Span { start: tokens[at].1.start, end: tokens[next - 1].1.end },
                        elements,
                    ),
                    next,
                ),
            ),
        }
    } else if tokens[at].0 == Token::Ident {
        if is_uppercase(bytes[tokens[at].1.start as int]) {
            Ok((ComplexTypeView::Struct(tokens[at].1, Seq::empty()), at + 1))
        } else {
            match simple_type_at(bytes, tokens, at) {
                Err(e) => Err(e),
                Ok((simple, next)) => Ok((ComplexTypeView::Simple(simple), next)),
            }
        }
    } else {
        Err(error_at(tokens, at, "Expected a type here."))
    }
}

/// The error for a tuple in the place of an argument's type.
pub open spec fn tuple_argument_error(span: Span) -> ParseError {
    ParseError {
        span,
        message: "Tuples can only be used in result types, not in arguments.",
        note: None,
    }
}

/// The error for a struct among several arguments.
pub open spec fn struct_argument_error(span: Span) -> ParseError {
    ParseError {
        span,
        message: "Struct arguments can only be used in queries that take a single argument.",
        note: None,
    }
}

/// The arguments from token `at` on, behind the arguments `acc` that were
/// read before, up to and including the closing paren. `open` is the span
/// of the opening paren.
pub open spec fn argument_list_at(
    bytes: Seq<u8>,
    tokens: Seq<(Token, Span)>,
    at: int,
    open: Span,
    acc: Seq<(Span, ComplexTypeView<Span>)>,
) -> Result<(Seq<(Span, ComplexTypeView<Span>)>, int), ParseError>
    decreases tokens.len() - at,
{
    if is_token(tokens, at, Token::RParen) {
        Ok((acc, at + 1))
    } else if !is_token(tokens, at, Token::Ident) {
        Err(error_at(tokens, at, "Expected an identifier here."))
    } else if !is_token(tokens, at + 1, Token::Colon) {
        Err(error_at(tokens, at + 1, "Expected a ':' here before the start of the type."))
    } else {
        match complex_type_at(bytes, tokens, at + 2) {
            Err(e) => Err(e),
            Ok((type_, next)) => if !(0 <= next < tokens.len()) {
                Err(
                    ParseError {
                        span: error_span(tokens, next),
                        message: "Unexpected end of input, expected ')' to close the query arguments.",
                        note: Some(("Unmatched '(' opened here.", open)),
                    },
                )
            } else if tokens[next].0 == Token::RParen {
                Ok((acc.push((tokens[at].1, type_)), next + 1))
            } else if tokens[next].0 == Token::Comma {
                proof {
                    lemma_complex_type_advances(bytes, tokens, at + 2);
                }
                argument_list_at(bytes, tokens, next + 1, open, acc.push((tokens[at].1, type_)))
            } else {
                Err(
                    error_at(
                        tokens,
                        next,
                        "Unexpected token in query arguments, expected ')' or ',' here.",
                    ),
                )
            },
        }
    }
}

/// The arguments from `i` on as simple arguments, behind `acc`; the first
/// that is a struct or a tuple is an error.
pub open spec fn simple_arguments(
    arguments: Seq<(Span, ComplexTypeView<Span>)>,
    i: int,
    acc: Seq<TypedIdent<Span>>,
) -> Result<Seq<TypedIdent<Span>>, ParseError>
    decreases arguments.len() - i,
{
    if i < 0 || i >= arguments.len() {
        Ok(acc)
    } else {
        match arguments[i].1 {
            ComplexTypeView::Struct(name, _) => Err(struct_argument_error(name)),
            ComplexTypeView::Tuple(span, _) => Err(tuple_argument_error(span)),
            ComplexTypeView::Simple(type_) => simple_arguments(
                arguments,
                i + 1,
                acc.push(TypedIdent { ident: arguments[i].0, type_ }),
            ),
        }
    }
}

/// What a list of arguments means: a struct, if that is the sole argument,
/// else simple arguments only. Tuples are no arguments.
pub open spec fn arguments_of(arguments: Seq<(Span, ComplexTypeView<Span>)>) -> Result<
    ArgTypeView<Span>,
    ParseError,
> {
    if arguments.len() == 1 && arguments[0].1 is Struct {
        Ok(
            ArgTypeView::Struct {
                var_name: arguments[0].0,
                struct_name: arguments[0].1->Struct_0,
                fields: arguments[0].1->Struct_1,
            },
        )
    } else {
        match simple_arguments(arguments, 0, Seq::empty()) {
            Err(e) => Err(e),
            Ok(simple) => Ok(ArgTypeView::Args(simple)),
        }
    }
}

/// The arguments of a query at token `at`, parens included.
pub open spec fn arguments_at(bytes: Seq<u8>, tokens: Seq<(Token, Span)>, at: int) -> Result<
    (ArgTypeView<Span>, int),
    ParseError,
> {
    if !is_token(tokens, at, Token::LParen) {
        Err(error_at(tokens, at, "Expected a '(' here to start the query arguments."))
    } else {
        match argument_list_at(bytes, tokens, at + 1, tokens[at].1, Seq::empty()) {
            Err(e) => Err(e),
            Ok((arguments, next)) => match arguments_of(arguments) {
                Err(e) => Err(e),
                Ok(arguments) => Ok((arguments, next)),
            },
        }
    }
}

/// The kind of statement that a marker announces.
pub open spec fn statement_type_of(marker: Seq<u8>) -> Option<StatementType> {
    if marker == "@query".spec_bytes() {
        Some(StatementType::Single)
    } else if marker == "@begin".spec_bytes() {
        Some(StatementType::Multi)
    } else {
        None
    }
}

/// The result type that follows the arguments, from token `at` on: nothing,
/// or an arrow with a cardinality and a complex type.
pub open spec fn result_type_at(bytes: Seq<u8>, tokens: Seq<(Token, Span)>, at: int) -> Result<
    (ResultTypeView<Span>, int),
    ParseError,
> {
    if !(0 <= at < tokens.len()) {
        Ok((ResultTypeView::Unit, at))
    } else if tokens[at].0 == Token::ArrowOpt {
        match complex_type_at(bytes, tokens, at + 1) {
            Err(e) => Err(e),
            Ok((t, next)) => Ok((ResultTypeView::Option(t), next)),
        }
    } else if tokens[at].0 == Token::ArrowOne {
        match complex_type_at(bytes, tokens, at + 1) {
            Err(e) => Err(e),
            Ok((t, next)) => Ok((ResultTypeView::Single(t), next)),
        }
    } else if tokens[at].0 == Token::ArrowStar {
        match complex_type_at(bytes, tokens, at + 1) {
            Err(e) => Err(e),
            Ok((t, next)) => Ok((ResultTypeView::Iterator(t), next)),
        }
    } else if tokens[at].0 == Token::Arrow {
        Err(
            error_at(
                tokens,
                at,
                "A return type arrow must include the number of rows that the query will return: '->?' for zero or one, '->1' for exactly one, and '->*' for zero or more.",
            ),
        )
    } else {
        Err(
            error_at(
                tokens,
                at,
                "Expected either the end of the annotation and start of the query, or '->' followed by a cardinality and result type.",
            ),
        )
    }
}

/// An annotation at token `at`: the marker, the name of the query, its
/// arguments and its result type.
#[verifier::opaque]
pub open spec fn annotation_at(bytes: Seq<u8>, tokens: Seq<(Token, Span)>, at: int) -> Result<
    ((AnnotationView<Span>, StatementType), int),
    ParseError,
> {
    if !(0 <= at < tokens.len()) {
        Err(error_at(tokens, at, "Unexpected end of input, expected '@query' or '@begin' here."))
    } else if tokens[at].0 != Token::Marker || statement_type_of(tokens[at].1.of(bytes)) is None {
        Err(error_at(tokens, at, "Invalid annotation, expected '@query' or '@begin' here."))
    } else if !is_token(tokens, at + 1, Token::Ident) {
        Err(error_at(tokens, at + 1, "Expected an identifier here."))
    } else {
        match arguments_at(bytes, tokens, at + 2) {
            Err(e) => Err(e),
            Ok((arguments, next)) => match result_type_at(bytes, tokens, next) {
                Err(e) => Err(e),
                Ok((result_type, end)) => Ok(
                    (
                        (
                            AnnotationView { name: tokens[at + 1].1, arguments, result_type },
                            statement_type_of(tokens[at].1.of(bytes))->Some_0,
                        ),
                        end,
                    ),
                ),
            },
        }
    }
}

/// The token at which the parser rests when a typed identifier at token
/// `at` is refused.
pub open spec fn typed_ident_stop(tokens: Seq<(Token, Span)>, at: int) -> int {
    if !is_token(tokens, at, Token::Ident) {
        at
    } else if !is_token(tokens, at + 1, Token::Colon) {
        at + 1
    } else {
        at + 2
    }
}

/// The token at which the parser rests when the elements of a tuple from
/// token `at` on are refused.
pub open spec fn tuple_elements_stop(bytes: Seq<u8>, tokens: Seq<(Token, Span)>, at: int) -> int
    decreases tokens.len() - at,
{
    match simple_type_at(bytes, tokens, at) {
        Err(_) => at,
        Ok((_, next)) => if is_token(tokens, at, Token::RParen) {
            at
        } else if is_token(tokens, next, Token::RParen) {
            tuple_elements_stop(bytes, tokens, next)
        } else if is_token(tokens, next, Token::Comma) {
            tuple_elements_stop(bytes, tokens, next + 1)
        } else {
            next
        },
    }
}

/// The token at which the parser rests when a tuple at token `at` is
/// refused.
pub open spec fn tuple_stop(bytes: Seq<u8>, tokens: Seq<(Token, Span)>, at: int) -> int {
    if !is_token(tokens, at, Token::LParen) {
        at
    } else {
        tuple_elements_stop(bytes, tokens, at + 1)
    }
}

/// The token at which the parser rests when a complex type at token `at`
/// is refused.
pub open spec fn complex_type_stop(bytes: Seq<u8>, tokens: Seq<(Token, Span)>, at: int) -> int {
    if is_token(tokens, at, Token::LParen) {
        tuple_stop(bytes, tokens, at)
    } else {
        at
    }
}

/// The token at which the parser rests when the arguments from token `at`
/// on are refused before the closing paren is reached.
pub open spec fn argument_list_stop(bytes: Seq<u8>, tokens: Seq<(Token, Span)>, at: int) -> int
    decreases tokens.len() - at,
{
    if !is_token(tokens, at, Token::Ident) {
        at
    } else if !is_token(tokens, at + 1, Token::Colon) {
        at + 1
    } else {
        match complex_type_at(bytes, tokens, at + 2) {
            Err(_) => complex_type_stop(bytes, tokens, at + 2),
            Ok((_, next)) => if is_token(tokens, next, Token::Comma) {
                proof {
                    lemma_complex_type_advances(bytes, tokens, at + 2);
                }
                argument_list_stop(bytes, tokens, next + 1)
            } else {
                next
            },
        }
    }
}

/// The token at which the parser rests when the arguments of a query at
/// token `at` are refused. Arguments that are read to the closing paren and
/// refused for what they are leave the parser behind that paren.
pub open spec fn arguments_stop(bytes: Seq<u8>, tokens: Seq<(Token, Span)>, at: int) -> int {
    if !is_token(tokens, at, Token::LParen) {
        at
    } else {
        match argument_list_at(bytes, tokens, at + 1, tokens[at].1, Seq::empty()) {
            Err(_) => argument_list_stop(bytes, tokens, at + 1),
            Ok((_, next)) => next,
        }
    }
}

/// The token at which the parser rests when the result type from token
/// `at` on is refused.
pub open spec fn result_type_stop(bytes: Seq<u8>, tokens: Seq<(Token, Span)>, at: int) -> int {
    if is_token(tokens, at, Token::ArrowOpt) || is_token(tokens, at, Token::ArrowOne) || is_token(
        tokens,
        at,
        Token::ArrowStar,
    ) {
        complex_type_stop(bytes, tokens, at + 1)
    } else {
        at
    }
}

/// The token at which the parser rests when an annotation at token `at` is
/// refused.
pub open spec fn annotation_stop(bytes: Seq<u8>, tokens: Seq<(Token, Span)>, at: int) -> int {
    if !is_token(tokens, at, Token::Marker) || statement_type_of(tokens[at].1.of(bytes)) is None {
        at
    } else if !is_token(tokens, at + 1, Token::Ident) {
        at + 1
    } else {
        match arguments_at(bytes, tokens, at + 2) {
            Err(_) => arguments_stop(bytes, tokens, at + 2),
            Ok((_, next)) => result_type_stop(bytes, tokens, next),
        }
    }
}

/// A tuple takes at least its two parens.
pub proof fn lemma_tuple_elements_advance(
    bytes: Seq<u8>,
    tokens: Seq<(Token, Span)>,
    at: int,
    acc: Seq<SimpleType<Span>>,
)
    requires
        0 <= at,
    ensures
        tuple_elements_at(bytes, tokens, at, acc) matches Ok((_, next)) ==> at < next
            <= tokens.len(),
    decreases tokens.len() - at,
{
    if !is_token(tokens, at, Token::RParen) {
        match simple_type_at(bytes, tokens, at) {
            Err(e) => {},
            Ok((element, next)) => {
                if 0 <= next < tokens.len() {
                    if tokens[next].0 == Token::RParen {
                        lemma_tuple_elements_advance(bytes, tokens, next, acc.push(element));
                    } else if tokens[next].0 == Token::Comma {
                        lemma_tuple_elements_advance(bytes, tokens, next + 1, acc.push(element));
                    }
                }
            },
        }
    }
}

/// A complex type takes at least one token, and no more than there are.
pub proof fn lemma_complex_type_advances(bytes: Seq<u8>, tokens: Seq<(Token, Span)>, at: int)
    requires
        0 <= at,
    ensures
        complex_type_at(bytes, tokens, at) matches Ok((_, next)) ==> at < next <= tokens.len(),
{
    lemma_tuple_elements_advance(bytes, tokens, at + 1, Seq::empty());
}

} // verus!

verus! {

/// Whether `result`, with the parser then at token `after`, is what
/// `expected` says: the value and the next token, or the error with the
/// parser at token `stop`.
pub open spec fn agrees<T>(
    result: PResult<T>,
    after: int,
    expected: Result<(T, int), ParseError>,
    stop: int,
) -> bool {
    match expected {
        Ok((value, next)) => result == Ok::<T, ParseError>(value) && after == next,
        Err(e) => result == Err::<T, ParseError>(e) && after == stop,
    }
}

/// As [`agrees`], for a value that is compared by its view.
pub open spec fn agrees_in_view<T: View>(
    result: PResult<T>,
    after: int,
    expected: Result<(T::V, int), ParseError>,
    stop: int,
) -> bool {
    match expected {
        Ok((value, next)) => result matches Ok(r) && r@ == value && after == next,
        Err(e) => result == Err::<T, ParseError>(e) && after == stop,
    }
}

/// The model of an annotation together with its kind of statement.
pub open spec fn annotation_view(a: (Annotation<Span>, StatementType)) -> (
    AnnotationView<Span>,
    StatementType,
) {
    (a.0@, a.1)
}

/// The names of the arguments lie inside an input of `len` bytes.
pub open spec fn arguments_readable(arguments: ArgTypeView<Span>, len: nat) -> bool {
    arguments matches ArgTypeView::Args(args) ==> forall|i: int|
        0 <= i < args.len() ==> (#[trigger] args[i]).ident.start <= args[i].ident.end <= len
}

/// The model of a list of arguments before they are checked.
pub open spec fn arguments_view(arguments: Seq<(Span, ComplexType<Span>)>) -> Seq<
    (Span, ComplexTypeView<Span>),
> {
    arguments.map_values(|a: (Span, ComplexType<Span>)| (a.0, a.1@))
}

/// The message for a word that names no primitive type.
fn message_for_unknown_type(word: &[u8]) -> (message: &'static str)
    ensures
        message == unknown_type_message(word@),
{
    reveal(unknown_type_message);
    if equals_lowercased(word, "str".as_bytes()) || equals_lowercased(word, "string".as_bytes()) {
        "Unknown type, did you mean 'str'?"
    } else if equals_lowercased(word, "int".as_bytes()) || equals_lowercased(word, "i8".as_bytes())
        || equals_lowercased(word, "i16".as_bytes()) || equals_lowercased(word, "i32".as_bytes())
        || equals_lowercased(word, "i64".as_bytes()) || equals_lowercased(word, "uint".as_bytes())
        || equals_lowercased(word, "u8".as_bytes()) || equals_lowercased(word, "u16".as_bytes())
        || equals_lowercased(word, "u32".as_bytes()) || equals_lowercased(word, "u64".as_bytes())
        || equals_lowercased(word, "int4".as_bytes()) || equals_lowercased(word, "int8".as_bytes())
        || equals_lowercased(word, "integer".as_bytes()) || equals_lowercased(
        word,
        "bigint".as_bytes(),
    ) || equals_lowercased(word, "biginteger".as_bytes()) {
        "Unknown type, did you mean 'i32' or 'i64'?"
    } else if equals_lowercased(word, "float".as_bytes()) || equals_lowercased(
        word,
        "float4".as_bytes(),
    ) || equals_lowercased(word, "float8".as_bytes()) || equals_lowercased(
        word,
        "double".as_bytes(),
    ) {
        "Unknown type, did you mean 'f32' or 'f64'?"
    } else if equals_lowercased(word, "option".as_bytes()) || equals_lowercased(
        word,
        "optional".as_bytes(),
    ) || equals_lowercased(word, "maybe".as_bytes()) || equals_lowercased(word, "null".as_bytes())
        || equals_lowercased(word, "nullable".as_bytes()) {
        "Unknown type, did you mean to put '?' behind a type to make it optional?"
    } else {
        "Unknown type, expected a primitive type here."
    }
}

/// The primitive type that a word names, if it names one.
fn primitive_type_named(word: &[u8]) -> (type_: Option<PrimitiveType>)
    ensures
        type_ == primitive_named(word@),
{
    if bytes_equal(word, "str".as_bytes()) {
        Some(PrimitiveType::Str)
    } else if bytes_equal(word, "i32".as_bytes()) {
        Some(PrimitiveType::I32)
    } else if bytes_equal(word, "i64".as_bytes()) {
        Some(PrimitiveType::I64)
    } else if bytes_equal(word, "f32".as_bytes()) {
        Some(PrimitiveType::F32)
    } else if bytes_equal(word, "f64".as_bytes()) {
        Some(PrimitiveType::F64)
    } else if bytes_equal(word, "bytes".as_bytes()) {
        Some(PrimitiveType::Bytes)
    } else {
        None
    }
}

/// Decide what a list of arguments means, now that all of them are read.
fn check_arguments(list: Vec<(Span, ComplexType<Span>)>, Ghost(len): Ghost<nat>) -> (r: PResult<
    ArgType<Span>,
>)
    requires
        forall|i: int| 0 <= i < list@.len() ==> (#[trigger] list@[i]).0.within(len),
    ensures
        match arguments_of(arguments_view(list@)) {
            Ok(value) => r matches Ok(a) && a@ == value,
            Err(e) => r == Err::<ArgType<Span>, ParseError>(e),
        },
        r matches Ok(a) ==> arguments_readable(a@, len),
{
    let ghost all = arguments_view(list@);
    let mut arguments = list;
    if arguments.len() == 1 {
        proof {
            assert(all[0] == (arguments@[0].0, arguments@[0].1@));
        }
        let single = arguments.pop().unwrap();
        match single {
            (var_name, ComplexType::Struct(struct_name, fields)) => {
                let result = ArgType::Struct { var_name, struct_name, fields };
                return Ok(result);
            },
            (_, ComplexType::Tuple(span, _fields)) => {
                return Err(
                    ParseError {
                        span,
                        message: "Tuples can only be used in result types, not in arguments.",
                        note: None,
                    },
                );
            },
            (var_name, ComplexType::Simple(t)) => {
                let ti = TypedIdent { ident: var_name, type_: t };
                let simple = vec![ti];
                proof {
                    assert(simple@ =~= Seq::<TypedIdent<Span>>::empty().push(ti));
                    reveal_with_fuel(simple_arguments, 2);
                    assert(list@[0].0.within(len));
                }
                return Ok(ArgType::Args(simple));
            },
        }
    }
    let mut simple_args: Vec<TypedIdent<Span>> = Vec::new();
    let mut i: usize = 0;
    while i < arguments.len()
        invariant
            i <= arguments@.len(),
            all == arguments_view(arguments@),
            all == arguments_view(list@),
            arguments@ == list@,
            forall|k: int| 0 <= k < list@.len() ==> (#[trigger] list@[k]).0.within(len),
            forall|k: int|
                0 <= k < simple_args@.len() ==> (#[trigger] simple_args@[k]).ident.within(len),
            !(all.len() == 1 && all[0].1 is Struct),
            simple_arguments(all, i as int, simple_args@) == simple_arguments(all, 0, Seq::empty()),
        decreases arguments@.len() - i,
    {
        proof {
            assert(all[i as int] == (arguments@[i as int].0, arguments@[i as int].1@));
        }
        match &arguments[i].1 {
            ComplexType::Struct(struct_name, _fields) => {
                return Err(
                    ParseError {
                        span: *struct_name,
                        message: "Struct arguments can only be used in queries that take a single argument.",
                        note: None,
                    },
                );
            },
            ComplexType::Tuple(span, _fields) => {
                return Err(
                    ParseError {
                        span: *span,
                        message: "Tuples can only be used in result types, not in arguments.",
                        note: None,
                    },
                );
            },
            ComplexType::Simple(t) => {
                let ti = TypedIdent { ident: arguments[i].0, type_: *t };
                assert(list@[i as int].0.within(len));
                simple_args.push(ti);
            },
        }
        i += 1;
    }

    Ok(ArgType::Args(simple_args))
}

/// Annotation parser.
///
/// The annotation parser can parse annotation comments and its constituents,
/// including the simple types of the type comments in a query.
pub struct Parser<'a> {
    input: &'a [u8],
    tokens: &'a [(Token, Span)],
    cursor: usize,
}

impl<'a> Parser<'a> {
    /// The bytes of the input.
    pub closed spec fn bytes(&self) -> Seq<u8> {
        self.input@
    }

    /// The tokens that are parsed.
    pub closed spec fn toks(&self) -> Seq<(Token, Span)> {
        self.tokens@
    }

    /// The index of the token under the cursor.
    pub closed spec fn pos(&self) -> int {
        self.cursor as int
    }

    /// The parser can work: there is a token, no token is empty, and all
    /// tokens lie inside the input.
    pub open spec fn wf(&self) -> bool {
        &&& self.toks().len() > 0
        &&& 0 <= self.pos() <= self.toks().len()
        &&& forall|i: int|
            0 <= i < self.toks().len() ==> (#[trigger] self.toks()[i]).1.start < self.toks()[i].1.end
                <= self.bytes().len()
    }

    /// The parser still reads the same input and tokens as `other`.
    pub open spec fn same_input(&self, other: &Self) -> bool {
        self.bytes() == other.bytes() && self.toks() == other.toks()
    }

    /// A parser at the first of the tokens.
    pub fn new(input: &'a str, tokens: &'a [(Token, Span)]) -> (parser: Parser<'a>)
        ensures
            parser.bytes() == input.spec_bytes(),
            parser.toks() == tokens@,
            parser.pos() == 0,
            vstd::utf8::valid_utf8(parser.bytes()),
            parser.bytes().len() <= usize::MAX,
    {
        proof {
            vstd::utf8::encode_utf8_valid_utf8(input@);
        }
        let _ = input.as_bytes().len();
        Parser::over(input.as_bytes(), tokens)
    }

    /// A parser for an input that is at hand as bytes.
    pub fn over(input: &'a [u8], tokens: &'a [(Token, Span)]) -> (parser: Parser<'a>)
        ensures
            parser.bytes() == input@,
            parser.toks() == tokens@,
            parser.pos() == 0,
    {
        Parser { input, tokens, cursor: 0 }
    }

    /// Build a parse error at the current cursor location.
    fn error<T>(&self, message: &'static str) -> (r: PResult<T>)
        requires
            self.wf(),
        ensures
            r == Err::<T, ParseError>(error_at(self.toks(), self.pos(), message)),
    {
        let span = if self.cursor < self.tokens.len() {
            self.tokens[self.cursor].1
        } else {
            let last: Span = self.tokens[self.tokens.len() - 1].1;
            Span { start: last.end, end: last.end }
        };
        Err(ParseError { span, message, note: None })
    }

    /// Build a parse error at the current cursor location, and a note elsewhere.
    fn error_with_note<T>(&self, message: &'static str, note_span: Span, note: &'static str) -> (r:
        PResult<T>)
        requires
            self.wf(),
        ensures
            r == Err::<T, ParseError>(
                ParseError {
                    span: error_span(self.toks(), self.pos()),
                    message,
                    note: Some((note, note_span)),
                },
            ),
    {
        let span = if self.cursor < self.tokens.len() {
            self.tokens[self.cursor].1
        } else {
            let last: Span = self.tokens[self.tokens.len() - 1].1;
            Span { start: last.end, end: last.end }
        };
        Err(ParseError { span, message, note: Some((note, note_span)) })
    }

    /// Return the token under the cursor, if there is one.
    fn peek(&self) -> (token: Option<Token>)
        requires
            self.wf(),
        ensures
            token == if self.pos() < self.toks().len() {
                Some(self.toks()[self.pos()].0)
            } else {
                None
            },
    {
        if self.cursor < self.tokens.len() {
            Some(self.tokens[self.cursor].0)
        } else {
            None
        }
    }

    /// Return the token and its span under the cursor, if there is one.
    fn peek_with_span(&self) -> (token: Option<(Token, Span)>)
        requires
            self.wf(),
        ensures
            token == if self.pos() < self.toks().len() {
                Some(self.toks()[self.pos()])
            } else {
                None
            },
    {
        if self.cursor < self.tokens.len() {
            Some(self.tokens[self.cursor])
        } else {
            None
        }
    }

    /// Return the token before the cursor, assuming it exists.
    fn previous_span(&self) -> (span: Span)
        requires
            self.wf(),
            self.pos() > 0,
        ensures
            span == self.toks()[self.pos() - 1].1,
    {
        self.tokens[self.cursor - 1].1
    }

    /// Advance the cursor by one token, consuming the token under the cursor.
    ///
    /// Returns the span of the consumed token.
    fn consume(&mut self) -> (span: Span)
        requires
            old(self).wf(),
            old(self).pos() < old(self).toks().len(),
        ensures
            final(self).wf(),
            final(self).same_input(old(self)),
            final(self).pos() == old(self).pos() + 1,
            span == old(self).toks()[old(self).pos()].1,
    {
        let result = self.tokens[self.cursor].1;
        self.cursor += 1;
        result
    }

    /// Consume one token. If it does not match, return the error message.
    fn expect_consume(&mut self, expected: Token, message: &'static str) -> (r: PResult<Span>)
        requires
            old(self).wf(),
        ensures
            final(self).wf(),
            final(self).same_input(old(self)),
            agrees(
                r,
                final(self).pos(),
                if is_token(old(self).toks(), old(self).pos(), expected) {
                    Ok((old(self).toks()[old(self).pos()].1, old(self).pos() + 1))
                } else {
                    Err(error_at(old(self).toks(), old(self).pos(), message))
                },
                old(self).pos(),
            ),
    {
        match self.peek() {
            Some(token) => {
                if token == expected {
                    Ok(self.consume())
                } else {
                    self.error(message)
                }
            },
            None => self.error(message),
        }
    }

    /// Parse a typed identifier, such as `id: i64`.
    pub fn parse_typed_ident(&mut self) -> (r: PResult<TypedIdent<Span>>)
        requires
            old(self).wf(),
        ensures
            final(self).wf(),
            final(self).same_input(old(self)),
            agrees(
                r,
                final(self).pos(),
                typed_ident_at(old(self).bytes(), old(self).toks(), old(self).pos()),
                typed_ident_stop(old(self).toks(), old(self).pos()),
            ),
            fits(old(self).toks(), old(self).bytes()) ==> match r {
                Ok(ti) => ti.all(resolvable_in(old(self).bytes())),
                Err(e) => located(e, old(self).bytes().len()),
            },
    {
        proof {
            if fits(self.toks(), self.bytes()) {
                let upto = choose|upto: int| tokens_fit(self.toks(), self.bytes(), upto);
                lemma_typed_ident_at(self.bytes(), self.toks(), upto, self.pos());
            }
        }
        let ident = self.expect_consume(Token::Ident, "Expected an identifier here.")?;
        self.expect_consume(Token::Colon, "Expected a ':' here before the start of the type.")?;

        let type_ = self.parse_simple_type()?;

        let result = TypedIdent { ident, type_ };
        Ok(result)
    }

    /// Parse a primitive type.
    pub fn parse_primitive_type(&mut self) -> (r: PResult<(Span, PrimitiveType)>)
        requires
            old(self).wf(),
        ensures
            final(self).wf(),
            final(self).same_input(old(self)),
            match primitive_type_at(old(self).bytes(), old(self).toks(), old(self).pos()) {
                Ok(found) => r == Ok::<(Span, PrimitiveType), ParseError>(found) && final(self).pos()
                    == old(self).pos() + 1,
                Err(e) => r == Err::<(Span, PrimitiveType), ParseError>(e) && final(self).pos()
                    == old(self).pos(),
            },
    {
        match self.peek_with_span() {
            Some((Token::Ident, span)) => {
                let word = slice_subrange(self.input, span.start, span.end);
                match primitive_type_named(word) {
                    Some(result) => {
                        self.consume();
                        Ok((span, result))
                    },
                    // We know some alternative spellings of types that people
                    // might reasonably expect to work, so we can point them in
                    // the right direction in the error message.
                    None => self.error(message_for_unknown_type(word)),
                }
            },
            Some(_not_ident) => self.error("Expected a primitive type here."),
            None => self.error("Unexpected end of input, expected a primitive type here."),
        }
    }

    /// Parse a simple type (primitive or option).
    pub fn parse_simple_type(&mut self) -> (r: PResult<SimpleType<Span>>)
        requires
            old(self).wf(),
        ensures
            final(self).wf(),
            final(self).same_input(old(self)),
            agrees(
                r,
                final(self).pos(),
                simple_type_at(old(self).bytes(), old(self).toks(), old(self).pos()),
                old(self).pos(),
            ),
            fits(old(self).toks(), old(self).bytes()) ==> match r {
                Ok(t) => t.all(resolvable_in(old(self).bytes())),
                Err(e) => located(e, old(self).bytes().len()),
            },
    {
        proof {
            if fits(self.toks(), self.bytes()) {
                let upto = choose|upto: int| tokens_fit(self.toks(), self.bytes(), upto);
                lemma_simple_type_at(self.bytes(), self.toks(), upto, self.pos());
            }
        }
        let (inner, primitive) = self.parse_primitive_type()?;

        // If a primitive type is followed by a question mark, that
        // makes it an option type, if it's followed by anything else,
        // it remains primitive.
        let result = match self.peek() {
            Some(Token::Question) => {
                let mark = self.consume();
                SimpleType::Option {
                    outer: Span { start: inner.start, end: mark.end },
                    inner: inner,
                    type_: primitive,
                }
            },
            _ => SimpleType::Primitive { inner: inner, type_: primitive },
        };
        Ok(result)
    }

    /// Parse a complex type.
    ///
    /// Complex types can be either a regular simple type, or a struct or tuple.
    pub fn parse_complex_type(&mut self) -> (r: PResult<ComplexType<Span>>)
        requires
            old(self).wf(),
        ensures
            final(self).wf(),
            final(self).same_input(old(self)),
            agrees_in_view(
                r,
                final(self).pos(),
                complex_type_at(old(self).bytes(), old(self).toks(), old(self).pos()),
                complex_type_stop(old(self).bytes(), old(self).toks(), old(self).pos()),
            ),
            fits(old(self).toks(), old(self).bytes()) ==> match r {
                Ok(t) => t@.all(resolvable_in(old(self).bytes())),
                Err(e) => located(e, old(self).bytes().len()),
            },
    {
        proof {
            if fits(self.toks(), self.bytes()) {
                let upto = choose|upto: int| tokens_fit(self.toks(), self.bytes(), upto);
                lemma_complex_type_at(self.bytes(), self.toks(), upto, self.pos());
            }
        }
        match self.peek_with_span() {
            Some((Token::LParen, span)) => {
                proof {
                    lemma_tuple_elements_advance(
                        self.bytes(),
                        self.toks(),
                        self.pos() + 1,
                        Seq::empty(),
                    );
                }
                let inner = self.parse_tuple()?;
                let final_span = self.previous_span();
                let full_span = Span { start: span.start, end: final_span.end };
                Ok(ComplexType::Tuple(full_span, inner))
            },
            Some((Token::Ident, span)) => {
                // If it's an identifier, then it can be a user-defined type (a
                // struct), or a builtin type. Struct names start with an uppercase
                // letter, and no builtin types do, so that's how we distinguish.
                let is_struct = is_ascii_uppercase(self.input[span.start]);
                if is_struct {
                    self.consume();
                    Ok(ComplexType::Struct(span, Vec::new()))
                } else {
                    let simple = self.parse_simple_type()?;
                    Ok(ComplexType::Simple(simple))
                }
            },
            Some(_) => self.error("Expected a type here."),
            None => self.error("Unexpected end of input, expected a type here."),
        }
    }

    /// Parse a tuple, the cursor should be on the opening paren.
    fn parse_tuple(&mut self) -> (r: PResult<Vec<SimpleType<Span>>>)
        requires
            old(self).wf(),
        ensures
            final(self).wf(),
            final(self).same_input(old(self)),
            agrees_in_view(
                r,
                final(self).pos(),
                tuple_at(old(self).bytes(), old(self).toks(), old(self).pos()),
                tuple_stop(old(self).bytes(), old(self).toks(), old(self).pos()),
            ),
    {
        self.expect_consume(Token::LParen, "Expected a '(' here to start a tuple.")?;
        let mut elements: Vec<SimpleType<Span>> = Vec::new();
        loop
            invariant
                self.wf(),
                self.same_input(old(self)),
                tuple_elements_at(self.bytes(), self.toks(), self.pos(), elements@)
                    == tuple_at(old(self).bytes(), old(self).toks(), old(self).pos()),
                tuple_elements_stop(self.bytes(), self.toks(), self.pos()) == tuple_stop(
                    old(self).bytes(),
                    old(self).toks(),
                    old(self).pos(),
                ),
            decreases self.toks().len() - self.pos(),
        {
            if let Some(Token::RParen) = self.peek() {
                self.consume();
                return Ok(elements);
            }
            elements.push(self.parse_simple_type()?);

            match self.peek() {
                // Don't consume, the next iterator of the loop will do that.
                Some(Token::RParen) => continue ,
                // After a comma, we can either start again with a new element,
                // or the rparen can still follow, so the trailing comma is
                // optional.
                Some(Token::Comma) => {
                    self.consume();
                },
                Some(_unexpected) => {
                    return self.error("Unexpected token inside a tuple, expected ',' or ')' here.")
                },
                None => return self.error("Unexpected end of input, a tuple is not closed."),
            }
        }
    }

    /// Parse an argument list, the cursor should be on the opening paren.
    fn parse_arguments(&mut self) -> (r: PResult<ArgType<Span>>)
        requires
            old(self).wf(),
        ensures
            final(self).wf(),
            final(self).same_input(old(self)),
            agrees_in_view(
                r,
                final(self).pos(),
                arguments_at(old(self).bytes(), old(self).toks(), old(self).pos()),
                arguments_stop(old(self).bytes(), old(self).toks(), old(self).pos()),
            ),
            r matches Ok(a) ==> arguments_readable(a@, final(self).bytes().len()),
    {
        let start_span = self.expect_consume(
            Token::LParen,
            "Expected a '(' here to start the query arguments.",
        )?;

        // We first do a pass to collect all arguments as complex types, and
        // then later we validate.
        let mut arguments: Vec<(Span, ComplexType<Span>)> = Vec::new();
        let ghost whole = argument_list_at(
            self.bytes(),
            self.toks(),
            self.pos(),
            start_span,
            Seq::empty(),
        );
        let ghost rest = argument_list_stop(self.bytes(), self.toks(), self.pos());
        proof {
            assert(arguments_view(arguments@) =~= Seq::empty());
        }
        loop
            invariant_except_break
                argument_list_at(
                    self.bytes(),
                    self.toks(),
                    self.pos(),
                    start_span,
                    arguments_view(arguments@),
                ) == whole,
                argument_list_stop(self.bytes(), self.toks(), self.pos()) == rest,
            invariant
                self.wf(),
                self.same_input(old(self)),
                forall|k: int|
                    0 <= k < arguments@.len() ==> (#[trigger] arguments@[k]).0.within(
                        self.bytes().len(),
                    ),
                arguments_at(old(self).bytes(), old(self).toks(), old(self).pos()) == (match whole {
                    Err(e) => Err(e),
                    Ok((arguments, next)) => match arguments_of(arguments) {
                        Err(e) => Err(e),
                        Ok(arguments) => Ok((arguments, next)),
                    },
                }),
                arguments_stop(old(self).bytes(), old(self).toks(), old(self).pos()) == (match whole {
                    Err(_) => rest,
                    Ok((_, next)) => next,
                }),
            ensures
                whole == Ok::<(Seq<(Span, ComplexTypeView<Span>)>, int), ParseError>(
                    (arguments_view(arguments@), self.pos()),
                ),
            decreases self.toks().len() - self.pos(),
        {
            if let Some(Token::RParen) = self.peek() {
                self.consume();
                break ;
            }
            let ident = self.expect_consume(Token::Ident, "Expected an identifier here.")?;
            self.expect_consume(Token::Colon, "Expected a ':' here before the start of the type.")?;
            proof {
                lemma_complex_type_advances(self.bytes(), self.toks(), self.pos());
            }
            let type_ = self.parse_complex_type()?;

            let ghost before = arguments_view(arguments@);
            let ghost pushed = (ident, type_@);
            arguments.push((ident, type_));
            proof {
                assert(arguments_view(arguments@) =~= before.push(pushed));
            }

            match self.peek() {
                Some(Token::RParen) => {
                    self.consume();
                    break ;
                },
                Some(Token::Comma) => {
                    self.consume();
                    continue ;
                },
                Some(_unexpected) => {
                    return self.error(
                        "Unexpected token in query arguments, expected ')' or ',' here.",
                    )
                },
                None => {
                    return self.error_with_note(
                        "Unexpected end of input, expected ')' to close the query arguments.",
                        start_span,
                        "Unmatched '(' opened here.",
                    )
                },
            }
        }

        check_arguments(arguments, Ghost(self.bytes().len()))
    }

    /// Parse an annotation: the marker, the name of the query, its arguments
    /// and its result type.
    pub fn parse_annotation(&mut self) -> (r: PResult<(Annotation<Span>, StatementType)>)
        requires
            old(self).wf(),
        ensures
            final(self).wf(),
            final(self).same_input(old(self)),
            match annotation_at(old(self).bytes(), old(self).toks(), old(self).pos()) {
                Ok((value, next)) => r matches Ok(a) && annotation_view(a) == value
                    && final(self).pos() == next,
                Err(e) => r == Err::<(Annotation<Span>, StatementType), ParseError>(e)
                    && final(self).pos() == annotation_stop(
                    old(self).bytes(),
                    old(self).toks(),
                    old(self).pos(),
                ),
            },
            r matches Ok(a) ==> arguments_readable(a.0@.arguments, final(self).bytes().len()),
            fits(old(self).toks(), old(self).bytes()) ==> match r {
                Ok(a) => a.0@.all(resolvable_in(old(self).bytes())),
                Err(e) => located(e, old(self).bytes().len()),
            },
    {
        proof {
            if fits(self.toks(), self.bytes()) {
                let upto = choose|upto: int| tokens_fit(self.toks(), self.bytes(), upto);
                lemma_annotation_at(self.bytes(), self.toks(), upto, self.pos());
            }
        }
        reveal(annotation_at);
        // 1. The @query or @begin that marks the start of the annotation.
        let stmt_type = match self.peek_with_span() {
            Some((Token::Marker, mark)) => {
                let word = slice_subrange(self.input, mark.start, mark.end);
                if bytes_equal(word, "@query".as_bytes()) {
                    StatementType::Single
                } else if bytes_equal(word, "@begin".as_bytes()) {
                    StatementType::Multi
                } else {
                    return self.error("Invalid annotation, expected '@query' or '@begin' here.");
                }
            },
            Some(_) => {
                return self.error("Invalid annotation, expected '@query' or '@begin' here.")
            },
            None => {
                return self.error("Unexpected end of input, expected '@query' or '@begin' here.")
            },
        };
        self.consume();

        // 2. The name of the query..
        let name = self.expect_consume(Token::Ident, "Expected an identifier here.")?;

        // 3. The query arguments, including parens.
        let arguments = self.parse_arguments()?;

        // 4. Optionally an arrow followed by the result type.
        let result_type = match self.peek() {
            None => ResultType::Unit,
            Some(Token::ArrowOpt) => {
                self.consume();
                let type_ = self.parse_complex_type()?;
                ResultType::Option(type_)
            },
            Some(Token::ArrowOne) => {
                self.consume();
                let type_ = self.parse_complex_type()?;
                ResultType::Single(type_)
            },
            Some(Token::ArrowStar) => {
                self.consume();
                let type_ = self.parse_complex_type()?;
                ResultType::Iterator(type_)
            },
            Some(Token::Arrow) => {
                return self.error(
                    "A return type arrow must include the number of rows that the query will return: '->?' for zero or one, '->1' for exactly one, and '->*' for zero or more.",
                )
            },
            Some(_unexpected) => {
                return self.error(
                    "Expected either the end of the annotation and start of the query, or '->' followed by a cardinality and result type.",
                )
            },
        };

        let result = Annotation { name, arguments, result_type };
        Ok((result, stmt_type))
    }
}

} // verus!
