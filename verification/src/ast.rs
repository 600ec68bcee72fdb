//! The syntax tree of an annotated SQL document.
//!
//! Every node is generic in how it refers to the source: the parsers produce
//! trees of [`Span`]s, and `resolve` turns those into trees of string slices.
//! The types that own vectors have a view, in which a sequence stands for
//! each vector; the contracts of the parsers and of the type resolver speak
//! of those views.
use crate::Span;
use vstd::prelude::*;
use vstd::string::StringSliceAdditionalSpecFns;

verus! {

/// The primitive types that we support.
///
/// These types map to SQL types on the one hand, and types in the target
/// language on the other.
#[derive(Copy, Clone, Debug, PartialEq, Eq, Structural)]
pub enum PrimitiveType {
    Str,
    I32,
    I64,
    F32,
    F64,
    Bytes,
}

/// Whether a query is a single statement, or a block of several.
#[derive(Copy, Clone, Debug, PartialEq, Eq, Structural)]
pub enum StatementType {
    Single,
    Multi,
}

/// A simple type is a type that is not composite. It's primitive or a nullable primitive.
///
/// Simple types can be used everywhere, as opposed to complex types, which can
/// only be used in limited places.
#[derive(Copy, Clone, Debug, PartialEq, Eq)]
pub enum SimpleType<TSpan> {
    Primitive { inner: TSpan, type_: PrimitiveType },
    Option { outer: TSpan, inner: TSpan, type_: PrimitiveType },
}

/// An identifier and a type, e.g. `name: str`.
#[derive(Copy, Clone, Debug, PartialEq, Eq)]
pub struct TypedIdent<TSpan> {
    pub ident: TSpan,
    pub type_: SimpleType<TSpan>,
}

/// A complex type is either a simple type, or an aggregate of multiple simple types.
#[derive(Clone, Debug, PartialEq, Eq)]
pub enum ComplexType<TSpan> {
    Simple(SimpleType<TSpan>),
    /// A tuple of zero or more types.
    ///
    /// Field 0 contains the span of the full tuple.
    Tuple(TSpan, Vec<SimpleType<TSpan>>),
    /// A struct with zero or more fields.
    ///
    /// Field 0 contains the span of the name of the struct.
    Struct(TSpan, Vec<TypedIdent<TSpan>>),
}

/// The cardinality of the query, and the result type.
#[derive(Debug, PartialEq, Eq)]
pub enum ResultType<TSpan> {
    /// The query returns zero rows, the function returns unit.
    Unit,
    /// The query returns zero or one row, the function returns `Option<T>`.
    Option(ComplexType<TSpan>),
    /// The query returns exactly one row, the function returns `T`.
    Single(ComplexType<TSpan>),
    /// The query returns zero or more rows, the function returns `Iterator<Item=T>`.
    Iterator(ComplexType<TSpan>),
}

/// Inputs to the query, either named as separate arguments, or a single struct.
#[derive(Debug, PartialEq, Eq)]
pub enum ArgType<TSpan> {
    /// Zero or more named arguments, e.g. `(name: str, age: i32)`.
    ///
    /// Each one corresponds to a query parameter, `:name` and `:age` in the
    /// example.
    Args(Vec<TypedIdent<TSpan>>),
    /// A named struct and its fields, e.g. `(user: User)`.
    ///
    /// The fields are not populated by the parser, as there is no syntax to
    /// specify them in-line, the fields are inferred from the query body.
    ///
    /// Each field on the struct corresponds to a query parameter.
    Struct { var_name: TSpan, struct_name: TSpan, fields: Vec<TypedIdent<TSpan>> },
}

/// An annotation comment that describes the query that follows it.
#[derive(Debug, PartialEq, Eq)]
pub struct Annotation<TSpan> {
    pub name: TSpan,
    pub arguments: ArgType<TSpan>,
    pub result_type: ResultType<TSpan>,
}

/// A part of a statement.
///
/// We break down statements in consecutive spans of four kinds:
///
/// * Verbatim content where we don't really care about its inner structure.
/// * Typed identifiers, an output column followed by a type comment. The
///   span covers the column and the comment, so that the comment can be left
///   out of the final query.
/// * Untyped parameters. These include the leading `:`.
/// * Parameters followed by a type comment. These include the leading `:`.
#[derive(Copy, Clone, Debug, PartialEq, Eq)]
pub enum Fragment<TSpan> {
    Verbatim(TSpan),
    TypedIdent(TSpan, TypedIdent<TSpan>),
    Param(TSpan),
    TypedParam(TSpan, TypedIdent<TSpan>),
}

/// A single SQL statement, up to and including its closing semicolon.
#[derive(Debug, PartialEq, Eq)]
pub struct Statement<TSpan> {
    /// The spans that together reconstruct the statement, including whitespace.
    pub fragments: Vec<Fragment<TSpan>>,
}

/// An annotated query.
#[derive(Debug, PartialEq, Eq)]
pub struct Query<TSpan> {
    /// The lines of the comment that precedes the query, without `--`-prefix.
    pub docs: Vec<TSpan>,
    /// The annotation, which includes the name, parameters, and result type.
    pub annotation: Annotation<TSpan>,
    /// Whether the query is one statement or a block of statements.
    pub statement_type: StatementType,
    /// The statements of the query, in the order of the source.
    pub statements: Vec<Statement<TSpan>>,
}

/// A section of a document.
///
/// Section consists either of a single annotated query, which we parse further
/// to extract the details, or some section that is *not* an annotated query,
/// which we preserve verbatim, to ensure that the parser is lossless.
#[derive(Debug, PartialEq, Eq)]
pub enum Section<TSpan> {
    Verbatim(TSpan),
    Query(Query<TSpan>),
}

/// A parsed document: its sections in the order of the source.
#[derive(Debug, PartialEq, Eq)]
pub struct Document<TSpan> {
    pub sections: Vec<Section<TSpan>>,
}

/// The model of a [`ComplexType`].
pub enum ComplexTypeView<TSpan> {
    Simple(SimpleType<TSpan>),
    Tuple(TSpan, Seq<SimpleType<TSpan>>),
    Struct(TSpan, Seq<TypedIdent<TSpan>>),
}

/// The model of a [`ResultType`].
pub enum ResultTypeView<TSpan> {
    Unit,
    Option(ComplexTypeView<TSpan>),
    Single(ComplexTypeView<TSpan>),
    Iterator(ComplexTypeView<TSpan>),
}

/// The model of an [`ArgType`].
pub enum ArgTypeView<TSpan> {
    Args(Seq<TypedIdent<TSpan>>),
    Struct { var_name: TSpan, struct_name: TSpan, fields: Seq<TypedIdent<TSpan>> },
}

/// The model of an [`Annotation`].
pub struct AnnotationView<TSpan> {
    pub name: TSpan,
    pub arguments: ArgTypeView<TSpan>,
    pub result_type: ResultTypeView<TSpan>,
}

/// The model of a [`Query`]. A statement is the sequence of its fragments.
pub struct QueryView<TSpan> {
    pub docs: Seq<TSpan>,
    pub annotation: AnnotationView<TSpan>,
    pub statement_type: StatementType,
    pub statements: Seq<Seq<Fragment<TSpan>>>,
}

/// The model of a [`Section`].
pub enum SectionView<TSpan> {
    Verbatim(TSpan),
    Query(QueryView<TSpan>),
}

/// The model of a [`Document`]: the sequence of its sections.
pub struct DocumentView<TSpan> {
    pub sections: Seq<SectionView<TSpan>>,
}

impl<TSpan> View for ComplexType<TSpan> {
    type V = ComplexTypeView<TSpan>;

    open spec fn view(&self) -> ComplexTypeView<TSpan> {
        match self {
            ComplexType::Simple(t) => ComplexTypeView::Simple(*t),
            ComplexType::Tuple(span, elements) => ComplexTypeView::Tuple(*span, elements@),
            ComplexType::Struct(name, fields) => ComplexTypeView::Struct(*name, fields@),
        }
    }
}

impl<TSpan> View for ResultType<TSpan> {
    type V = ResultTypeView<TSpan>;

    open spec fn view(&self) -> ResultTypeView<TSpan> {
        match self {
            ResultType::Unit => ResultTypeView::Unit,
            ResultType::Option(t) => ResultTypeView::Option(t@),
            ResultType::Single(t) => ResultTypeView::Single(t@),
            ResultType::Iterator(t) => ResultTypeView::Iterator(t@),
        }
    }
}

impl<TSpan> View for ArgType<TSpan> {
    type V = ArgTypeView<TSpan>;

    open spec fn view(&self) -> ArgTypeView<TSpan> {
        match self {
            ArgType::Args(args) => ArgTypeView::Args(args@),
            ArgType::Struct { var_name, struct_name, fields } => ArgTypeView::Struct {
                var_name: *var_name,
                struct_name: *struct_name,
                fields: fields@,
            },
        }
    }
}

impl<TSpan> View for Annotation<TSpan> {
    type V = AnnotationView<TSpan>;

    open spec fn view(&self) -> AnnotationView<TSpan> {
        AnnotationView {
            name: self.name,
            arguments: self.arguments@,
            result_type: self.result_type@,
        }
    }
}

impl<TSpan> View for Statement<TSpan> {
    type V = Seq<Fragment<TSpan>>;

    open spec fn view(&self) -> Seq<Fragment<TSpan>> {
        self.fragments@
    }
}

impl<TSpan> View for Query<TSpan> {
    type V = QueryView<TSpan>;

    open spec fn view(&self) -> QueryView<TSpan> {
        QueryView {
            docs: self.docs@,
            annotation: self.annotation@,
            statement_type: self.statement_type,
            statements: self.statements@.map_values(|s: Statement<TSpan>| s@),
        }
    }
}

impl<TSpan> View for Section<TSpan> {
    type V = SectionView<TSpan>;

    open spec fn view(&self) -> SectionView<TSpan> {
        match self {
            Section::Verbatim(span) => SectionView::Verbatim(*span),
            Section::Query(query) => SectionView::Query(query@),
        }
    }
}

impl<TSpan> View for Document<TSpan> {
    type V = DocumentView<TSpan>;

    open spec fn view(&self) -> DocumentView<TSpan> {
        DocumentView { sections: self.sections@.map_values(|s: Section<TSpan>| s@) }
    }
}

impl<TSpan> SimpleType<TSpan> {
    /// The span of the whole type, question mark included.
    pub open spec fn full_span(self) -> TSpan {
        match self {
            SimpleType::Primitive { inner, .. } => inner,
            SimpleType::Option { outer, .. } => outer,
        }
    }

    /// The primitive type that the type is, or that it makes optional.
    pub open spec fn primitive(self) -> PrimitiveType {
        match self {
            SimpleType::Primitive { type_, .. } => type_,
            SimpleType::Option { type_, .. } => type_,
        }
    }

    /// Two types are equivalent when both are primitive or both optional,
    /// of the same primitive type. Where they are written does not count.
    pub open spec fn equivalent(self, other: SimpleType<TSpan>) -> bool {
        &&& (self is Option) == (other is Option)
        &&& self.primitive() == other.primitive()
    }

    /// The span of the whole type.
    pub fn span(&self) -> (span: TSpan) where TSpan: Copy
        ensures
            span == self.full_span(),
    {
        match self {
            SimpleType::Primitive { inner, .. } => *inner,
            SimpleType::Option { outer, .. } => *outer,
        }
    }

    /// The primitive type that the type is, or that it makes optional.
    pub fn inner_type(&self) -> (type_: PrimitiveType)
        ensures
            type_ == self.primitive(),
    {
        match self {
            SimpleType::Primitive { type_, .. } => *type_,
            SimpleType::Option { type_, .. } => *type_,
        }
    }

    /// Test equivalence of the types, regardless of the spans or formatting.
    pub fn is_equal_to(&self, other: &SimpleType<TSpan>) -> (equal: bool)
        ensures
            equal == self.equivalent(*other),
    {
        match (self, other) {
            (SimpleType::Primitive { type_: lhs, .. }, SimpleType::Primitive { type_: rhs, .. }) => {
                *lhs == *rhs
            },
            (SimpleType::Option { type_: lhs, .. }, SimpleType::Option { type_: rhs, .. }) => {
                *lhs == *rhs
            },
            _ => false,
        }
    }
}

impl<TSpan> Fragment<TSpan> {
    /// The span of the whole fragment, its type comment included.
    pub open spec fn full_span(self) -> TSpan {
        match self {
            Fragment::Verbatim(s) => s,
            Fragment::TypedIdent(s, _) => s,
            Fragment::Param(s) => s,
            Fragment::TypedParam(s, _) => s,
        }
    }
}

impl Fragment<Span> {
    /// The span that this fragment spans.
    pub fn span(&self) -> (span: Span)
        ensures
            span == self.full_span(),
    {
        match self {
            Fragment::Verbatim(s) => *s,
            Fragment::TypedIdent(s, _) => *s,
            Fragment::Param(s) => *s,
            Fragment::TypedParam(s, _) => *s,
        }
    }
}

impl<TSpan> ResultTypeView<TSpan> {
    /// The type of a row, if the query returns rows.
    pub open spec fn row_type(self) -> Option<ComplexTypeView<TSpan>> {
        match self {
            ResultTypeView::Unit => None,
            ResultTypeView::Option(t) => Some(t),
            ResultTypeView::Single(t) => Some(t),
            ResultTypeView::Iterator(t) => Some(t),
        }
    }
}

impl<TSpan> ResultType<TSpan> {
    /// The type of a row, if the query returns rows.
    pub fn get(&self) -> (t: Option<&ComplexType<TSpan>>)
        ensures
            match t {
                Some(t) => self@.row_type() == Some(t@),
                None => self@.row_type() is None,
            },
    {
        match self {
            ResultType::Unit => None,
            ResultType::Option(t) => Some(t),
            ResultType::Single(t) => Some(t),
            ResultType::Iterator(t) => Some(t),
        }
    }
}

/// What a span spells in `bytes`, as a function of the span.
pub open spec fn spelled_in(bytes: Seq<u8>) -> spec_fn(Span) -> Seq<u8> {
    |span: Span| span.of(bytes)
}

/// Whether a span can be resolved in `bytes`, as a predicate on spans.
pub open spec fn resolvable_in(bytes: Seq<u8>) -> spec_fn(Span) -> bool {
    |span: Span| span.resolvable(bytes)
}

/// The bytes of a text, as a function of the text.
pub open spec fn bytes_of<'a>() -> spec_fn(&'a str) -> Seq<u8> {
    |text: &'a str| text.spec_bytes()
}

impl<T> SimpleType<T> {
    /// The type with `f` applied to each reference to the source.
    pub open spec fn map<U>(self, f: spec_fn(T) -> U) -> SimpleType<U> {
        match self {
            SimpleType::Primitive { inner, type_ } => SimpleType::Primitive { inner: f(inner), type_ },
            SimpleType::Option { outer, inner, type_ } => SimpleType::Option {
                outer: f(outer),
                inner: f(inner),
                type_,
            },
        }
    }

    /// Whether `p` holds of each reference to the source.
    pub open spec fn all(self, p: spec_fn(T) -> bool) -> bool {
        match self {
            SimpleType::Primitive { inner, .. } => p(inner),
            SimpleType::Option { outer, inner, .. } => p(outer) && p(inner),
        }
    }
}

impl<T> TypedIdent<T> {
    /// The typed identifier with `f` applied to each reference to the source.
    pub open spec fn map<U>(self, f: spec_fn(T) -> U) -> TypedIdent<U> {
        TypedIdent { ident: f(self.ident), type_: self.type_.map(f) }
    }

    /// Whether `p` holds of each reference to the source.
    pub open spec fn all(self, p: spec_fn(T) -> bool) -> bool {
        p(self.ident) && self.type_.all(p)
    }
}

impl<T> ComplexTypeView<T> {
    /// The type with `f` applied to each reference to the source.
    pub open spec fn map<U>(self, f: spec_fn(T) -> U) -> ComplexTypeView<U> {
        match self {
            ComplexTypeView::Simple(t) => ComplexTypeView::Simple(t.map(f)),
            ComplexTypeView::Tuple(span, elements) => ComplexTypeView::Tuple(
                f(span),
                elements.map_values(|t: SimpleType<T>| t.map(f)),
            ),
            ComplexTypeView::Struct(name, fields) => ComplexTypeView::Struct(
                f(name),
                fields.map_values(|t: TypedIdent<T>| t.map(f)),
            ),
        }
    }

    /// Whether `p` holds of each reference to the source.
    pub open spec fn all(self, p: spec_fn(T) -> bool) -> bool {
        match self {
            ComplexTypeView::Simple(t) => t.all(p),
            ComplexTypeView::Tuple(span, elements) => p(span) && forall|i: int|
                0 <= i < elements.len() ==> (#[trigger] elements[i]).all(p),
            ComplexTypeView::Struct(name, fields) => p(name) && forall|i: int|
                0 <= i < fields.len() ==> (#[trigger] fields[i]).all(p),
        }
    }
}

impl SimpleType<Span> {
    /// The type with the text of the input in place of each span.
    pub fn resolve<'a>(&self, input: &'a str) -> (r: SimpleType<&'a str>)
        requires
            self.all(resolvable_in(input.spec_bytes())),
        ensures
            r.map(bytes_of()) == self.map(spelled_in(input.spec_bytes())),
    {
        match self {
            SimpleType::Primitive { inner, type_ } => SimpleType::Primitive {
                inner: inner.resolve(input),
                type_: *type_,
            },
            SimpleType::Option { inner, outer, type_ } => SimpleType::Option {
                outer: outer.resolve(input),
                inner: inner.resolve(input),
                type_: *type_,
            },
        }
    }
}

impl TypedIdent<Span> {
    /// The typed identifier with the text of the input in place of each span.
    pub fn resolve<'a>(&self, input: &'a str) -> (r: TypedIdent<&'a str>)
        requires
            self.all(resolvable_in(input.spec_bytes())),
        ensures
            r.map(bytes_of()) == self.map(spelled_in(input.spec_bytes())),
    {
        TypedIdent { ident: self.ident.resolve(input), type_: self.type_.resolve(input) }
    }
}

/// Resolve each of a list of simple types.
fn resolve_simple_types<'a>(types: &Vec<SimpleType<Span>>, input: &'a str) -> (r: Vec<
    SimpleType<&'a str>,
>)
    requires
        forall|i: int|
            0 <= i < types@.len() ==> (#[trigger] types@[i]).all(resolvable_in(input.spec_bytes())),
    ensures
        r@.map_values(|t: SimpleType<&'a str>| t.map(bytes_of())) == types@.map_values(
            |t: SimpleType<Span>| t.map(spelled_in(input.spec_bytes())),
        ),
{
    let mut out: Vec<SimpleType<&'a str>> = Vec::new();
    let mut i: usize = 0;
    while i < types.len()
        invariant
            i <= types@.len(),
            out@.len() == i,
            forall|k: int|
                0 <= k < types@.len() ==> (#[trigger] types@[k]).all(
                    resolvable_in(input.spec_bytes()),
                ),
            forall|k: int|
                0 <= k < i ==> (#[trigger] out@[k]).map(bytes_of()) == types@[k].map(
                    spelled_in(input.spec_bytes()),
                ),
        decreases types@.len() - i,
    {
        out.push(types[i].resolve(input));
        i += 1;
    }
    proof {
        assert(out@.map_values(|t: SimpleType<&'a str>| t.map(bytes_of())) =~= types@.map_values(
            |t: SimpleType<Span>| t.map(spelled_in(input.spec_bytes())),
        ));
    }
    out
}

/// Resolve each of a list of typed identifiers.
fn resolve_typed_idents<'a>(idents: &Vec<TypedIdent<Span>>, input: &'a str) -> (r: Vec<
    TypedIdent<&'a str>,
>)
    requires
        forall|i: int|
            0 <= i < idents@.len() ==> (#[trigger] idents@[i]).all(resolvable_in(input.spec_bytes())),
    ensures
        r@.map_values(|t: TypedIdent<&'a str>| t.map(bytes_of())) == idents@.map_values(
            |t: TypedIdent<Span>| t.map(spelled_in(input.spec_bytes())),
        ),
{
    let mut out: Vec<TypedIdent<&'a str>> = Vec::new();
    let mut i: usize = 0;
    while i < idents.len()
        invariant
            i <= idents@.len(),
            out@.len() == i,
            forall|k: int|
                0 <= k < idents@.len() ==> (#[trigger] idents@[k]).all(
                    resolvable_in(input.spec_bytes()),
                ),
            forall|k: int|
                0 <= k < i ==> (#[trigger] out@[k]).map(bytes_of()) == idents@[k].map(
                    spelled_in(input.spec_bytes()),
                ),
        decreases idents@.len() - i,
    {
        out.push(idents[i].resolve(input));
        i += 1;
    }
    proof {
        assert(out@.map_values(|t: TypedIdent<&'a str>| t.map(bytes_of())) =~= idents@.map_values(
            |t: TypedIdent<Span>| t.map(spelled_in(input.spec_bytes())),
        ));
    }
    out
}

impl ComplexType<Span> {
    /// The type with the text of the input in place of each span.
    pub fn resolve<'a>(&self, input: &'a str) -> (r: ComplexType<&'a str>)
        requires
            self@.all(resolvable_in(input.spec_bytes())),
        ensures
            r@.map(bytes_of()) == self@.map(spelled_in(input.spec_bytes())),
    {
        match self {
            ComplexType::Simple(inner) => ComplexType::Simple(inner.resolve(input)),
            ComplexType::Tuple(outer, fields) => {
                let fields = resolve_simple_types(fields, input);
                ComplexType::Tuple(outer.resolve(input), fields)
            },
            ComplexType::Struct(name, fields) => {
                let fields = resolve_typed_idents(fields, input);
                ComplexType::Struct(name.resolve(input), fields)
            },
        }
    }
}

impl<T> ResultTypeView<T> {
    /// The result type with `f` applied to each reference to the source.
    pub open spec fn map<U>(self, f: spec_fn(T) -> U) -> ResultTypeView<U> {
        match self {
            ResultTypeView::Unit => ResultTypeView::Unit,
            ResultTypeView::Option(t) => ResultTypeView::Option(t.map(f)),
            ResultTypeView::Single(t) => ResultTypeView::Single(t.map(f)),
            ResultTypeView::Iterator(t) => ResultTypeView::Iterator(t.map(f)),
        }
    }

    /// Whether `p` holds of each reference to the source.
    pub open spec fn all(self, p: spec_fn(T) -> bool) -> bool {
        match self {
            ResultTypeView::Unit => true,
            ResultTypeView::Option(t) => t.all(p),
            ResultTypeView::Single(t) => t.all(p),
            ResultTypeView::Iterator(t) => t.all(p),
        }
    }

    /// The result type with `row` as the type of a row. Unit has no rows.
    pub open spec fn with_row(self, row: ComplexTypeView<T>) -> ResultTypeView<T> {
        match self {
            ResultTypeView::Unit => ResultTypeView::Unit,
            ResultTypeView::Option(_) => ResultTypeView::Option(row),
            ResultTypeView::Single(_) => ResultTypeView::Single(row),
            ResultTypeView::Iterator(_) => ResultTypeView::Iterator(row),
        }
    }
}

impl<T> ArgTypeView<T> {
    /// The arguments with `f` applied to each reference to the source.
    pub open spec fn map<U>(self, f: spec_fn(T) -> U) -> ArgTypeView<U> {
        match self {
            ArgTypeView::Args(args) => ArgTypeView::Args(
                args.map_values(|t: TypedIdent<T>| t.map(f)),
            ),
            ArgTypeView::Struct { var_name, struct_name, fields } => ArgTypeView::Struct {
                var_name: f(var_name),
                struct_name: f(struct_name),
                fields: fields.map_values(|t: TypedIdent<T>| t.map(f)),
            },
        }
    }

    /// Whether `p` holds of each reference to the source.
    pub open spec fn all(self, p: spec_fn(T) -> bool) -> bool {
        match self {
            ArgTypeView::Args(args) => forall|i: int|
                0 <= i < args.len() ==> (#[trigger] args[i]).all(p),
            ArgTypeView::Struct { var_name, struct_name, fields } => p(var_name) && p(struct_name)
                && forall|i: int| 0 <= i < fields.len() ==> (#[trigger] fields[i]).all(p),
        }
    }
}

impl<T> AnnotationView<T> {
    /// The annotation with `f` applied to each reference to the source.
    pub open spec fn map<U>(self, f: spec_fn(T) -> U) -> AnnotationView<U> {
        AnnotationView {
            name: f(self.name),
            arguments: self.arguments.map(f),
            result_type: self.result_type.map(f),
        }
    }

    /// Whether `p` holds of each reference to the source.
    pub open spec fn all(self, p: spec_fn(T) -> bool) -> bool {
        p(self.name) && self.arguments.all(p) && self.result_type.all(p)
    }
}

impl<T> Fragment<T> {
    /// The fragment with `f` applied to each reference to the source.
    pub open spec fn map<U>(self, f: spec_fn(T) -> U) -> Fragment<U> {
        match self {
            Fragment::Verbatim(s) => Fragment::Verbatim(f(s)),
            Fragment::TypedIdent(s, ti) => Fragment::TypedIdent(f(s), ti.map(f)),
            Fragment::Param(s) => Fragment::Param(f(s)),
            Fragment::TypedParam(s, ti) => Fragment::TypedParam(f(s), ti.map(f)),
        }
    }

    /// Whether `p` holds of each reference to the source.
    pub open spec fn all(self, p: spec_fn(T) -> bool) -> bool {
        match self {
            Fragment::Verbatim(s) => p(s),
            Fragment::TypedIdent(s, ti) => p(s) && ti.all(p),
            Fragment::Param(s) => p(s),
            Fragment::TypedParam(s, ti) => p(s) && ti.all(p),
        }
    }

    /// The parameter that the fragment is, if it is one: the span of its
    /// name, colon included.
    pub open spec fn parameter(self) -> Option<T> {
        match self {
            Fragment::Verbatim(_) => None,
            Fragment::TypedIdent(_, _) => None,
            Fragment::Param(span) => Some(span),
            Fragment::TypedParam(_, ti) => Some(ti.ident),
        }
    }
}

/// The statement with `f` applied to each reference to the source.
pub open spec fn map_statement<T, U>(fragments: Seq<Fragment<T>>, f: spec_fn(T) -> U) -> Seq<
    Fragment<U>,
> {
    fragments.map_values(|fragment: Fragment<T>| fragment.map(f))
}

/// Whether `p` holds of each reference to the source in a statement.
pub open spec fn all_statement<T>(fragments: Seq<Fragment<T>>, p: spec_fn(T) -> bool) -> bool {
    forall|i: int| 0 <= i < fragments.len() ==> (#[trigger] fragments[i]).all(p)
}

/// The parameters among the fragments from index `i` on, behind `acc`.
pub open spec fn parameters_from<T>(fragments: Seq<Fragment<T>>, i: int, acc: Seq<T>) -> Seq<T>
    decreases fragments.len() - i,
{
    if i < 0 || i >= fragments.len() {
        acc
    } else {
        match fragments[i].parameter() {
            Some(span) => parameters_from(fragments, i + 1, acc.push(span)),
            None => parameters_from(fragments, i + 1, acc),
        }
    }
}

/// The parameters in the statements from index `i` on, behind `acc`.
pub open spec fn all_parameters_from<T>(statements: Seq<Seq<Fragment<T>>>, i: int, acc: Seq<T>) -> Seq<
    T,
>
    decreases statements.len() - i,
{
    if i < 0 || i >= statements.len() {
        acc
    } else {
        all_parameters_from(statements, i + 1, parameters_from(statements[i], 0, acc))
    }
}

impl<T> QueryView<T> {
    /// The query with `f` applied to each reference to the source.
    pub open spec fn map<U>(self, f: spec_fn(T) -> U) -> QueryView<U> {
        QueryView {
            docs: self.docs.map_values(f),
            annotation: self.annotation.map(f),
            statement_type: self.statement_type,
            statements: self.statements.map_values(
                |fragments: Seq<Fragment<T>>| map_statement(fragments, f),
            ),
        }
    }

    /// Whether `p` holds of each reference to the source.
    pub open spec fn all(self, p: spec_fn(T) -> bool) -> bool {
        &&& forall|i: int| 0 <= i < self.docs.len() ==> p(#[trigger] self.docs[i])
        &&& self.annotation.all(p)
        &&& forall|i: int|
            0 <= i < self.statements.len() ==> all_statement(#[trigger] self.statements[i], p)
    }

    /// All parameters of the body, typed or not, in the order of the body.
    pub open spec fn parameters(self) -> Seq<T> {
        all_parameters_from(self.statements, 0, Seq::empty())
    }
}

impl<T> SectionView<T> {
    /// The section with `f` applied to each reference to the source.
    pub open spec fn map<U>(self, f: spec_fn(T) -> U) -> SectionView<U> {
        match self {
            SectionView::Verbatim(s) => SectionView::Verbatim(f(s)),
            SectionView::Query(q) => SectionView::Query(q.map(f)),
        }
    }

    /// Whether `p` holds of each reference to the source.
    pub open spec fn all(self, p: spec_fn(T) -> bool) -> bool {
        match self {
            SectionView::Verbatim(s) => p(s),
            SectionView::Query(q) => q.all(p),
        }
    }
}

/// The queries among the sections from index `i` on, behind `acc`.
pub open spec fn queries_from<T>(sections: Seq<SectionView<T>>, i: int, acc: Seq<QueryView<T>>) -> Seq<
    QueryView<T>,
>
    decreases sections.len() - i,
{
    if i < 0 || i >= sections.len() {
        acc
    } else {
        match sections[i] {
            SectionView::Verbatim(_) => queries_from(sections, i + 1, acc),
            SectionView::Query(q) => queries_from(sections, i + 1, acc.push(q)),
        }
    }
}

impl<T> DocumentView<T> {
    /// The document with `f` applied to each reference to the source.
    pub open spec fn map<U>(self, f: spec_fn(T) -> U) -> DocumentView<U> {
        DocumentView { sections: self.sections.map_values(|s: SectionView<T>| s.map(f)) }
    }

    /// Whether `p` holds of each reference to the source.
    pub open spec fn all(self, p: spec_fn(T) -> bool) -> bool {
        forall|i: int| 0 <= i < self.sections.len() ==> (#[trigger] self.sections[i]).all(p)
    }

    /// The queries of the document, in the order of the document.
    pub open spec fn queries(self) -> Seq<QueryView<T>> {
        queries_from(self.sections, 0, Seq::empty())
    }
}

impl<TSpan> ResultType<TSpan> {
    /// The type of a row, to change it, if the query returns rows.
    pub fn get_mut(&mut self) -> (t: Option<&mut ComplexType<TSpan>>)
        ensures
            match t {
                Some(row) => old(self)@.row_type() == Some((*row)@) && final(self)@ == old(
                    self,
                )@.with_row((*final(row))@),
                None => old(self)@ is Unit && final(self)@ is Unit,
            },
    {
        match self {
            ResultType::Unit => None,
            ResultType::Option(t) => Some(t),
            ResultType::Single(t) => Some(t),
            ResultType::Iterator(t) => Some(t),
        }
    }
}

impl ResultType<Span> {
    /// The result type with the text of the input in place of each span.
    pub fn resolve<'a>(&self, input: &'a str) -> (r: ResultType<&'a str>)
        requires
            self@.all(resolvable_in(input.spec_bytes())),
        ensures
            r@.map(bytes_of()) == self@.map(spelled_in(input.spec_bytes())),
    {
        match self {
            ResultType::Unit => ResultType::Unit,
            ResultType::Option(t) => ResultType::Option(t.resolve(input)),
            ResultType::Single(t) => ResultType::Single(t.resolve(input)),
            ResultType::Iterator(t) => ResultType::Iterator(t.resolve(input)),
        }
    }
}

impl ArgType<Span> {
    /// The arguments with the text of the input in place of each span.
    pub fn resolve<'a>(&self, input: &'a str) -> (r: ArgType<&'a str>)
        requires
            self@.all(resolvable_in(input.spec_bytes())),
        ensures
            r@.map(bytes_of()) == self@.map(spelled_in(input.spec_bytes())),
    {
        match self {
            ArgType::Args(args) => ArgType::Args(resolve_typed_idents(args, input)),
            ArgType::Struct { var_name, struct_name, fields } => ArgType::Struct {
                var_name: var_name.resolve(input),
                struct_name: struct_name.resolve(input),
                fields: resolve_typed_idents(fields, input),
            },
        }
    }
}

impl Annotation<Span> {
    /// The annotation with the text of the input in place of each span.
    pub fn resolve<'a>(&self, input: &'a str) -> (r: Annotation<&'a str>)
        requires
            self@.all(resolvable_in(input.spec_bytes())),
        ensures
            r@.map(bytes_of()) == self@.map(spelled_in(input.spec_bytes())),
    {
        Annotation {
            name: self.name.resolve(input),
            arguments: self.arguments.resolve(input),
            result_type: self.result_type.resolve(input),
        }
    }
}

impl Fragment<Span> {
    /// The fragment with the text of the input in place of each span.
    pub fn resolve<'a>(&self, input: &'a str) -> (r: Fragment<&'a str>)
        requires
            self.all(resolvable_in(input.spec_bytes())),
        ensures
            r.map(bytes_of()) == self.map(spelled_in(input.spec_bytes())),
    {
        match self {
            Fragment::Verbatim(s) => Fragment::Verbatim(s.resolve(input)),
            Fragment::TypedIdent(s, ti) => Fragment::TypedIdent(s.resolve(input), ti.resolve(input)),
            Fragment::Param(s) => Fragment::Param(s.resolve(input)),
            Fragment::TypedParam(s, ti) => Fragment::TypedParam(s.resolve(input), ti.resolve(input)),
        }
    }
}

impl Statement<Span> {
    /// The statement with the text of the input in place of each span.
    pub fn resolve<'a>(&self, input: &'a str) -> (r: Statement<&'a str>)
        requires
            all_statement(self@, resolvable_in(input.spec_bytes())),
        ensures
            map_statement(r@, bytes_of()) == map_statement(self@, spelled_in(input.spec_bytes())),
    {
        let mut fragments: Vec<Fragment<&'a str>> = Vec::new();
        let mut i: usize = 0;
        while i < self.fragments.len()
            invariant
                i <= self.fragments@.len(),
                fragments@.len() == i,
                all_statement(self@, resolvable_in(input.spec_bytes())),
                forall|k: int|
                    0 <= k < i ==> (#[trigger] fragments@[k]).map(bytes_of())
                        == self.fragments@[k].map(spelled_in(input.spec_bytes())),
            decreases self.fragments@.len() - i,
        {
            fragments.push(self.fragments[i].resolve(input));
            i += 1;
        }
        proof {
            assert(map_statement(fragments@, bytes_of()) =~= map_statement(
                self@,
                spelled_in(input.spec_bytes()),
            ));
        }
        Statement { fragments }
    }
}

impl Query<Span> {
    /// The query with the text of the input in place of each span.
    pub fn resolve<'a>(&self, input: &'a str) -> (r: Query<&'a str>)
        requires
            self@.all(resolvable_in(input.spec_bytes())),
        ensures
            r@.map(bytes_of()) == self@.map(spelled_in(input.spec_bytes())),
    {
        let mut docs: Vec<&'a str> = Vec::new();
        let mut i: usize = 0;
        while i < self.docs.len()
            invariant
                i <= self.docs@.len(),
                docs@.len() == i,
                self@.all(resolvable_in(input.spec_bytes())),
                forall|k: int|
                    0 <= k < i ==> (#[trigger] docs@[k]).spec_bytes() == self.docs@[k].of(
                        input.spec_bytes(),
                    ),
            decreases self.docs@.len() - i,
        {
            assert(resolvable_in(input.spec_bytes())(self@.docs[i as int]));
            docs.push(self.docs[i].resolve(input));
            i += 1;
        }
        let mut statements: Vec<Statement<&'a str>> = Vec::new();
        let mut j: usize = 0;
        while j < self.statements.len()
            invariant
                j <= self.statements@.len(),
                statements@.len() == j,
                self@.all(resolvable_in(input.spec_bytes())),
                forall|k: int|
                    0 <= k < j ==> map_statement((#[trigger] statements@[k])@, bytes_of())
                        == map_statement(self.statements@[k]@, spelled_in(input.spec_bytes())),
            decreases self.statements@.len() - j,
        {
            assert(self@.statements[j as int] == self.statements@[j as int]@);
            statements.push(self.statements[j].resolve(input));
            j += 1;
        }
        let r = Query {
            docs,
            annotation: self.annotation.resolve(input),
            statement_type: self.statement_type,
            statements,
        };
        proof {
            assert(r@.map(bytes_of()).docs =~= self@.map(spelled_in(input.spec_bytes())).docs);
            assert(r@.map(bytes_of()).statements =~= self@.map(
                spelled_in(input.spec_bytes()),
            ).statements);
        }
        r
    }
}

impl<TSpan> Query<TSpan> {
    /// Extract all parameters from the query body (both typed and untyped).
    pub fn iter_parameters(&self) -> (parameters: Vec<TSpan>) where TSpan: Copy
        ensures
            parameters@ == self@.parameters(),
    {
        let mut parameters: Vec<TSpan> = Vec::new();
        let ghost all = self@.statements;
        let mut i: usize = 0;
        proof {
            assert(parameters@ =~= Seq::empty());
        }
        while i < self.statements.len()
            invariant
                i <= self.statements@.len(),
                all == self@.statements,
                all_parameters_from(all, i as int, parameters@) == self@.parameters(),
            decreases self.statements@.len() - i,
        {
            let statement = &self.statements[i];
            assert(all[i as int] == statement@);
            let ghost before = parameters@;
            let mut j: usize = 0;
            while j < statement.fragments.len()
                invariant
                    j <= statement@.len(),
                    parameters_from(statement@, j as int, parameters@) == parameters_from(
                        statement@,
                        0,
                        before,
                    ),
                decreases statement@.len() - j,
            {
                match &statement.fragments[j] {
                    Fragment::Verbatim(..) => {},
                    Fragment::TypedIdent(..) => {},
                    Fragment::Param(span) => parameters.push(*span),
                    Fragment::TypedParam(_full_span, ti) => parameters.push(ti.ident),
                }
                j += 1;
            }
            i += 1;
        }
        parameters
    }
}

impl Section<Span> {
    /// The section with the text of the input in place of each span.
    pub fn resolve<'a>(&self, input: &'a str) -> (r: Section<&'a str>)
        requires
            self@.all(resolvable_in(input.spec_bytes())),
        ensures
            r@.map(bytes_of()) == self@.map(spelled_in(input.spec_bytes())),
    {
        match self {
            Section::Verbatim(s) => Section::Verbatim(s.resolve(input)),
            Section::Query(q) => Section::Query(q.resolve(input)),
        }
    }
}

impl Document<Span> {
    /// The document with the text of the input in place of each span.
    pub fn resolve<'a>(&self, input: &'a str) -> (r: Document<&'a str>)
        requires
            self@.all(resolvable_in(input.spec_bytes())),
        ensures
            r@.map(bytes_of()) == self@.map(spelled_in(input.spec_bytes())),
    {
        let mut sections: Vec<Section<&'a str>> = Vec::new();
        let mut i: usize = 0;
        while i < self.sections.len()
            invariant
                i <= self.sections@.len(),
                sections@.len() == i,
                self@.all(resolvable_in(input.spec_bytes())),
                forall|k: int|
                    0 <= k < i ==> (#[trigger] sections@[k])@.map(bytes_of())
                        == self.sections@[k]@.map(spelled_in(input.spec_bytes())),
            decreases self.sections@.len() - i,
        {
            assert(self@.sections[i as int] == self.sections@[i as int]@);
            sections.push(self.sections[i].resolve(input));
            i += 1;
        }
        let r = Document { sections };
        proof {
            assert(r@.map(bytes_of()).sections =~= self@.map(
                spelled_in(input.spec_bytes()),
            ).sections);
        }
        r
    }
}

impl<TSpan> Document<TSpan> {
    /// Extract all queries from the document.
    pub fn iter_queries(&self) -> (queries: Vec<&Query<TSpan>>)
        ensures
            queries@.map_values(|q: &Query<TSpan>| q@) == self@.queries(),
    {
        let mut queries: Vec<&Query<TSpan>> = Vec::new();
        let ghost all = self@.sections;
        let mut i: usize = 0;
        proof {
            assert(queries@.map_values(|q: &Query<TSpan>| q@) =~= Seq::empty());
        }
        while i < self.sections.len()
            invariant
                i <= self.sections@.len(),
                all == self@.sections,
                queries_from(all, i as int, queries@.map_values(|q: &Query<TSpan>| q@))
                    == self@.queries(),
            decreases self.sections@.len() - i,
        {
            assert(all[i as int] == self.sections@[i as int]@);
            let ghost before = queries@.map_values(|q: &Query<TSpan>| q@);
            match &self.sections[i] {
                Section::Verbatim(..) => {},
                Section::Query(q) => {
                    queries.push(q);
                    proof {
                        assert(queries@.map_values(|q: &Query<TSpan>| q@) =~= before.push(q@));
                    }
                },
            }
            i += 1;
        }
        queries
    }
}

} // verus!
