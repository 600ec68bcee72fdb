//! The "typecheck" phase.
//!
//! There is not much to really typecheck, but we do have to resolve some
//! references and perform a few consistency checks. For example, every
//! parameter should be listed in the function signature, or it needs to have a
//! type annotation. For lack of a better word, we call this the "typecheck"
//! phase.
//!
//! Names are compared as the bytes that their spans cover. The name of a
//! parameter is what follows its colon.
use crate::ast::{
    Annotation, AnnotationView, ArgType, ArgTypeView, ComplexType, ComplexTypeView, Document,
    DocumentView, Fragment, Query, QueryView, ResultType, ResultTypeView, Section, SectionView,
    SimpleType, Statement, TypedIdent,
};
use crate::ast::resolvable_in;
use crate::error::{type_located, TResult, TypeError, TypeErrorView};
use crate::names::{lemma_resolved_document_sound, lemma_resolved_sound};
use crate::parser::spans::{lemma_sound_sections_resolvable, query_sound, sections_sound};
use crate::text::bytes_equal;
use crate::Span;
use vstd::prelude::*;
use vstd::slice::slice_subrange;
use vstd::string::StringSliceAdditionalSpecFns;

verus! {

/// The name that a span spells, without its first `skip` bytes.
pub open spec fn name_of(bytes: Seq<u8>, span: Span, skip: int) -> Seq<u8> {
    bytes.subrange(span.start + skip, span.end as int)
}

/// The first of `list` from index `i` on whose identifier, without its
/// first `skip` bytes, spells `name`.
pub open spec fn lookup_from(
    bytes: Seq<u8>,
    list: Seq<TypedIdent<Span>>,
    skip: int,
    name: Seq<u8>,
    i: int,
) -> Option<TypedIdent<Span>>
    decreases list.len() - i,
{
    if i < 0 || i >= list.len() {
        None
    } else if name_of(bytes, list[i].ident, skip) == name {
        Some(list[i])
    } else {
        lookup_from(bytes, list, skip, name, i + 1)
    }
}

/// The first of `list` whose identifier, without its first `skip` bytes,
/// spells `name`.
pub open spec fn lookup(bytes: Seq<u8>, list: Seq<TypedIdent<Span>>, skip: int, name: Seq<u8>) -> Option<
    TypedIdent<Span>,
> {
    lookup_from(bytes, list, skip, name, 0)
}

/// The error for a name that is defined for the second time.
pub open spec fn redefinition(message: Seq<char>, second: Span, first: Span) -> TypeErrorView {
    TypeErrorView::noted(second, message, first, "First defined here."@)
}

/// The error for a parameter whose type differs from an earlier one.
pub open spec fn type_differs(later: SimpleType<Span>, earlier: SimpleType<Span>) -> TypeErrorView {
    TypeErrorView::noted(
        later.full_span(),
        "Parameter type differs from an earlier definition."@,
        earlier.full_span(),
        "First defined here."@,
    )
}

/// The error for a parameter that is not defined.
pub open spec fn undefined_parameter(span: Span) -> TypeErrorView {
    TypeErrorView::hinted(
        span,
        "Undefined query parameter."@,
        "Define the parameter in the query signature, or add a type annotation here."@,
    )
}

/// The arguments of `args` from index `i` on, added to the arguments `acc`
/// that are declared already. No name may be declared twice.
pub open spec fn declared_from(
    bytes: Seq<u8>,
    args: Seq<TypedIdent<Span>>,
    i: int,
    acc: Seq<TypedIdent<Span>>,
) -> Result<Seq<TypedIdent<Span>>, TypeErrorView>
    decreases args.len() - i,
{
    if i < 0 || i >= args.len() {
        Ok(acc)
    } else {
        match lookup(bytes, acc, 0, name_of(bytes, args[i].ident, 0)) {
            Some(previous) => Err(
                redefinition("Redefinition of argument."@, args[i].ident, previous.ident),
            ),
            None => declared_from(bytes, args, i + 1, acc.push(args[i])),
        }
    }
}

/// The arguments that are declared when one of `args` from index `i` on
/// is refused: the arguments `acc`, and those before the one refused.
pub open spec fn declared_before(
    bytes: Seq<u8>,
    args: Seq<TypedIdent<Span>>,
    i: int,
    acc: Seq<TypedIdent<Span>>,
) -> Seq<TypedIdent<Span>>
    decreases args.len() - i,
{
    if i < 0 || i >= args.len() {
        acc
    } else if lookup(bytes, acc, 0, name_of(bytes, args[i].ident, 0)) is Some {
        acc
    } else {
        declared_before(bytes, args, i + 1, acc.push(args[i]))
    }
}

/// The arguments that the annotation declares. A struct declares none.
pub open spec fn declared(bytes: Seq<u8>, arguments: ArgTypeView<Span>) -> Result<
    Seq<TypedIdent<Span>>,
    TypeErrorView,
> {
    match arguments {
        ArgTypeView::Struct { .. } => Ok(Seq::empty()),
        ArgTypeView::Args(args) => declared_from(bytes, args, 0, Seq::empty()),
    }
}

/// The arguments that are declared when one of the annotation is refused.
pub open spec fn arguments_before(bytes: Seq<u8>, arguments: ArgTypeView<Span>) -> Seq<
    TypedIdent<Span>,
> {
    match arguments {
        ArgTypeView::Struct { .. } => Seq::empty(),
        ArgTypeView::Args(args) => declared_before(bytes, args, 0, Seq::empty()),
    }
}

/// What is known of a query while its body is checked.
pub struct Names {
    /// The arguments that the annotation declares.
    pub arguments: Seq<TypedIdent<Span>>,
    /// The typed parameters of the body, each name once, in the order of the
    /// body. The identifiers include the colon.
    pub inputs: Seq<TypedIdent<Span>>,
    /// The typed identifiers of the body, in the order of the body.
    pub outputs: Seq<TypedIdent<Span>>,
}

/// What is known after `fragment`, given what was known before it.
///
/// * A typed identifier is a new output; its name may not be an output already.
/// * A parameter without a type must be a declared argument.
/// * A parameter with a type is a new input, unless its name is an input
///   already; then the types must be equivalent. If its name is a declared
///   argument, the types must be equivalent too.
pub open spec fn after_fragment(bytes: Seq<u8>, names: Names, fragment: Fragment<Span>) -> Result<
    Names,
    TypeErrorView,
> {
    match fragment {
        Fragment::Verbatim(_) => Ok(names),
        Fragment::TypedIdent(_, ti) => match lookup(
            bytes,
            names.outputs,
            0,
            name_of(bytes, ti.ident, 0),
        ) {
            Some(previous) => Err(
                redefinition("Redefinition of query output."@, ti.ident, previous.ident),
            ),
            None => Ok(Names { outputs: names.outputs.push(ti), ..names }),
        },
        Fragment::Param(span) => if lookup(bytes, names.arguments, 0, name_of(bytes, span, 1))
            is None {
            Err(undefined_parameter(span))
        } else {
            Ok(names)
        },
        Fragment::TypedParam(_, ti) => {
            let name = name_of(bytes, ti.ident, 1);
            let earlier = lookup(bytes, names.inputs, 1, name);
            let argument = lookup(bytes, names.arguments, 0, name);
            if earlier is Some && !earlier->Some_0.type_.equivalent(ti.type_) {
                Err(type_differs(ti.type_, earlier->Some_0.type_))
            } else if argument is Some && !argument->Some_0.type_.equivalent(ti.type_) {
                Err(type_differs(ti.type_, argument->Some_0.type_))
            } else if earlier is Some {
                Ok(names)
            } else {
                Ok(Names { inputs: names.inputs.push(ti), ..names })
            }
        },
    }
}

/// What is known when `fragment` is refused: what was known before it. Only
/// a parameter with a type whose name is no input yet is an input by then,
/// since it is refused for the declared argument of its name.
pub open spec fn left_by(bytes: Seq<u8>, names: Names, fragment: Fragment<Span>) -> Names {
    match fragment {
        Fragment::TypedParam(_, ti) => if lookup(
            bytes,
            names.inputs,
            1,
            name_of(bytes, ti.ident, 1),
        ) is None {
            Names { inputs: names.inputs.push(ti), ..names }
        } else {
            names
        },
        _ => names,
    }
}

/// What is known after the fragments from index `i` on.
pub open spec fn after_fragments(
    bytes: Seq<u8>,
    names: Names,
    fragments: Seq<Fragment<Span>>,
    i: int,
) -> Result<Names, TypeErrorView>
    decreases fragments.len() - i,
{
    if i < 0 || i >= fragments.len() {
        Ok(names)
    } else {
        match after_fragment(bytes, names, fragments[i]) {
            Err(e) => Err(e),
            Ok(next) => after_fragments(bytes, next, fragments, i + 1),
        }
    }
}

/// What is known when one of the fragments from index `i` on is refused.
pub open spec fn left_by_fragments(
    bytes: Seq<u8>,
    names: Names,
    fragments: Seq<Fragment<Span>>,
    i: int,
) -> Names
    decreases fragments.len() - i,
{
    if i < 0 || i >= fragments.len() {
        names
    } else {
        match after_fragment(bytes, names, fragments[i]) {
            Err(_) => left_by(bytes, names, fragments[i]),
            Ok(next) => left_by_fragments(bytes, next, fragments, i + 1),
        }
    }
}

/// What is known when a fragment of one of the statements from index `i`
/// on is refused.
pub open spec fn left_by_statements(
    bytes: Seq<u8>,
    names: Names,
    statements: Seq<Seq<Fragment<Span>>>,
    i: int,
) -> Names
    decreases statements.len() - i,
{
    if i < 0 || i >= statements.len() {
        names
    } else {
        match after_fragments(bytes, names, statements[i], 0) {
            Err(_) => left_by_fragments(bytes, names, statements[i], 0),
            Ok(next) => left_by_statements(bytes, next, statements, i + 1),
        }
    }
}

/// What is known after the statements from index `i` on.
pub open spec fn after_statements(
    bytes: Seq<u8>,
    names: Names,
    statements: Seq<Seq<Fragment<Span>>>,
    i: int,
) -> Result<Names, TypeErrorView>
    decreases statements.len() - i,
{
    if i < 0 || i >= statements.len() {
        Ok(names)
    } else {
        match after_fragments(bytes, names, statements[i], 0) {
            Err(e) => Err(e),
            Ok(next) => after_statements(bytes, next, statements, i + 1),
        }
    }
}

/// A typed parameter as a field: its identifier without the colon.
pub open spec fn as_field(input: TypedIdent<Span>) -> TypedIdent<Span> {
    TypedIdent {
        ident: Span { start: (input.ident.start + 1) as usize, end: input.ident.end },
        type_: input.type_,
    }
}

/// The arguments with the typed parameters of the body as the fields of
/// the struct. A struct needs typed parameters, and typed parameters need a
/// struct.
pub open spec fn with_inputs(arguments: ArgTypeView<Span>, inputs: Seq<TypedIdent<Span>>) -> Result<
    ArgTypeView<Span>,
    TypeErrorView,
> {
    match arguments {
        ArgTypeView::Args(_) => if inputs.len() == 0 {
            Ok(arguments)
        } else {
            Err(
                TypeErrorView::hinted(
                    inputs[0].ident,
                    "Cannot create a field, query has no struct parameter."@,
                    "Annotated query parameters in the query body become fields of a struct, but this query has no struct parameter in its signature."@,
                ),
            )
        },
        ArgTypeView::Struct { var_name, struct_name, fields } => if inputs.len() == 0 {
            Err(
                TypeErrorView::hinted(
                    struct_name,
                    "Annotation contains a struct argument, but the query body contains no typed query parameters."@,
                    "Add query parameters with type annotations to the query, to turn them into fields of the struct."@,
                ),
            )
        } else {
            Ok(
                ArgTypeView::Struct {
                    var_name,
                    struct_name,
                    fields: fields + inputs.map_values(|input: TypedIdent<Span>| as_field(input)),
                },
            )
        },
    }
}

/// The error for outputs in a query whose result is no struct.
pub open spec fn stray_output(outputs: Seq<TypedIdent<Span>>) -> TypeErrorView {
    TypeErrorView::hinted(
        outputs[0].ident,
        "Cannot create a field, query does not return a struct."@,
        "Annotated outputs in the query body become fields of a struct, so this query would need to return a struct."@,
    )
}

/// The type of a row with the typed identifiers of the body as the fields
/// of the struct. A struct needs outputs, and outputs need a struct.
pub open spec fn row_with_outputs(row: ComplexTypeView<Span>, outputs: Seq<TypedIdent<Span>>) -> Result<
    ComplexTypeView<Span>,
    TypeErrorView,
> {
    match row {
        ComplexTypeView::Struct(name, fields) => if outputs.len() == 0 {
            Err(
                TypeErrorView::hinted(
                    name,
                    "The annotation specifies a struct as result type, but the query body contains no annotated outputs."@,
                    "Add a SELECT or RETURNING clause with type annotations to the query, to turn them into fields of the struct."@,
                ),
            )
        } else {
            Ok(ComplexTypeView::Struct(name, fields + outputs))
        },
        _ => if outputs.len() == 0 {
            Ok(row)
        } else {
            Err(stray_output(outputs))
        },
    }
}

/// The result type with the outputs of the body as the fields of its struct.
pub open spec fn with_outputs(result_type: ResultTypeView<Span>, outputs: Seq<TypedIdent<Span>>) -> Result<
    ResultTypeView<Span>,
    TypeErrorView,
> {
    match result_type {
        ResultTypeView::Unit => if outputs.len() == 0 {
            Ok(result_type)
        } else {
            Err(stray_output(outputs))
        },
        ResultTypeView::Option(row) => match row_with_outputs(row, outputs) {
            Err(e) => Err(e),
            Ok(row) => Ok(ResultTypeView::Option(row)),
        },
        ResultTypeView::Single(row) => match row_with_outputs(row, outputs) {
            Err(e) => Err(e),
            Ok(row) => Ok(ResultTypeView::Single(row)),
        },
        ResultTypeView::Iterator(row) => match row_with_outputs(row, outputs) {
            Err(e) => Err(e),
            Ok(row) => Ok(ResultTypeView::Iterator(row)),
        },
    }
}

/// What the body of a query defines, given the arguments that its
/// annotation declares.
pub open spec fn names_of(bytes: Seq<u8>, query: QueryView<Span>) -> Result<Names, TypeErrorView> {
    match declared(bytes, query.annotation.arguments) {
        Err(e) => Err(e),
        Ok(arguments) => after_statements(
            bytes,
            Names { arguments, inputs: Seq::empty(), outputs: Seq::empty() },
            query.statements,
            0,
        ),
    }
}

/// The query with its types resolved: the struct of its arguments and the
/// struct of its result have their fields. Or the first error in the query.
pub open spec fn resolved(bytes: Seq<u8>, query: QueryView<Span>) -> Result<
    QueryView<Span>,
    TypeErrorView,
> {
    match names_of(bytes, query) {
        Err(e) => Err(e),
        Ok(names) => match with_inputs(query.annotation.arguments, names.inputs) {
            Err(e) => Err(e),
            Ok(arguments) => match with_outputs(query.annotation.result_type, names.outputs) {
                Err(e) => Err(e),
                Ok(result_type) => Ok(
                    QueryView {
                        annotation: AnnotationView {
                            name: query.annotation.name,
                            arguments,
                            result_type,
                        },
                        ..query
                    },
                ),
            },
        },
    }
}

/// The sections from index `i` on with their queries resolved, behind the
/// sections `acc`.
pub open spec fn resolved_sections(
    bytes: Seq<u8>,
    sections: Seq<SectionView<Span>>,
    i: int,
    acc: Seq<SectionView<Span>>,
) -> Result<Seq<SectionView<Span>>, TypeErrorView>
    decreases sections.len() - i,
{
    if i < 0 || i >= sections.len() {
        Ok(acc)
    } else {
        match sections[i] {
            SectionView::Verbatim(span) => resolved_sections(
                bytes,
                sections,
                i + 1,
                acc.push(SectionView::Verbatim(span)),
            ),
            SectionView::Query(query) => match resolved(bytes, query) {
                Err(e) => Err(e),
                Ok(query) => resolved_sections(
                    bytes,
                    sections,
                    i + 1,
                    acc.push(SectionView::Query(query)),
                ),
            },
        }
    }
}

/// The document with all its queries resolved, or the first error.
pub open spec fn resolved_document(bytes: Seq<u8>, document: DocumentView<Span>) -> Result<
    DocumentView<Span>,
    TypeErrorView,
> {
    match resolved_sections(bytes, document.sections, 0, Seq::empty()) {
        Err(e) => Err(e),
        Ok(sections) => Ok(DocumentView { sections }),
    }
}

/// The names in a list of typed identifiers can be read from an input of
/// `len` bytes: every identifier lies inside it, behind its first `skip` bytes.
pub open spec fn names_readable(list: Seq<TypedIdent<Span>>, skip: int, len: nat) -> bool {
    forall|i: int| 0 <= i < list.len() ==> (#[trigger] list[i]).ident.start + skip <= list[i].ident.end
        <= len
}

/// The name in a fragment can be read from an input of `len` bytes. A
/// parameter has a colon before its name.
pub open spec fn fragment_readable(fragment: Fragment<Span>, len: nat) -> bool {
    match fragment {
        Fragment::Verbatim(_) => true,
        Fragment::TypedIdent(_, ti) => ti.ident.start <= ti.ident.end <= len,
        Fragment::Param(span) => span.start + 1 <= span.end <= len,
        Fragment::TypedParam(_, ti) => ti.ident.start + 1 <= ti.ident.end <= len,
    }
}

/// The names in all fragments of a statement can be read.
pub open spec fn statement_readable(fragments: Seq<Fragment<Span>>, len: nat) -> bool {
    forall|i: int| 0 <= i < fragments.len() ==> fragment_readable(#[trigger] fragments[i], len)
}

/// All names that the type resolver reads in a query lie inside an input
/// of `len` bytes.
pub open spec fn checkable(query: QueryView<Span>, len: nat) -> bool {
    &&& query.annotation.arguments matches ArgTypeView::Args(args) ==> names_readable(args, 0, len)
    &&& forall|i: int|
        0 <= i < query.statements.len() ==> statement_readable(#[trigger] query.statements[i], len)
}

/// All names that the type resolver reads in a document lie inside an
/// input of `len` bytes.
pub open spec fn document_checkable(document: DocumentView<Span>, len: nat) -> bool {
    forall|i: int|
        0 <= i < document.sections.len() ==> ((#[trigger] document.sections[i]) matches SectionView::Query(
            query,
        ) ==> checkable(query, len))
}

} // verus!

verus! {

/// Find the first of `list` whose identifier, without its first `skip`
/// bytes, spells `name`.
fn find(input: &[u8], list: &Vec<TypedIdent<Span>>, skip: usize, name: &[u8]) -> (found: Option<
    TypedIdent<Span>,
>)
    requires
        names_readable(list@, skip as int, input@.len()),
    ensures
        found == lookup(input@, list@, skip as int, name@),
{
    let mut i: usize = 0;
    while i < list.len()
        invariant
            i <= list@.len(),
            names_readable(list@, skip as int, input@.len()),
            lookup_from(input@, list@, skip as int, name@, i as int) == lookup(
                input@,
                list@,
                skip as int,
                name@,
            ),
        decreases list@.len() - i,
    {
        let candidate = list[i];
        let _ = input.len();
        let spelled = slice_subrange(input, candidate.ident.start + skip, candidate.ident.end);
        if bytes_equal(spelled, name) {
            return Some(candidate);
        }
        i += 1;
    }
    None
}

/// Holds the state across various stages of checking a query.
pub struct QueryChecker<'a> {
    /// Input file that the spans reference.
    input: &'a [u8],
    /// All the parameters specified in the annotation.
    query_args: Vec<TypedIdent<Span>>,
    /// Typed parameters in the query body in the order in which they occur.
    ///
    /// Does not contain duplicates, only the first reference. The
    /// identifiers include the leading `:`.
    input_fields_vec: Vec<TypedIdent<Span>>,
    /// Typed identifiers in the query body in the order in which they occur.
    output_fields_vec: Vec<TypedIdent<Span>>,
}

impl<'a> QueryChecker<'a> {
    /// The bytes of the input.
    pub closed spec fn bytes(&self) -> Seq<u8> {
        self.input@
    }

    /// What is known of the query so far.
    pub closed spec fn names(&self) -> Names {
        Names {
            arguments: self.query_args@,
            inputs: self.input_fields_vec@,
            outputs: self.output_fields_vec@,
        }
    }

    /// All names that are known can be read from the input.
    pub open spec fn wf(&self) -> bool {
        &&& names_readable(self.names().arguments, 0, self.bytes().len())
        &&& names_readable(self.names().inputs, 1, self.bytes().len())
        &&& names_readable(self.names().outputs, 0, self.bytes().len())
    }

    fn new(input: &'a [u8]) -> (checker: Self)
        ensures
            checker.bytes() == input@,
            checker.names() == (Names {
                arguments: Seq::empty(),
                inputs: Seq::empty(),
                outputs: Seq::empty(),
            }),
            checker.wf(),
    {
        Self {
            input,
            query_args: Vec::new(),
            input_fields_vec: Vec::new(),
            output_fields_vec: Vec::new(),
        }
    }

    /// Check the query for consistency and resolve its types.
    ///
    /// We ensure that every query parameter that occurs in the query is known
    /// (either because the query argument is a struct, or because the parameter
    /// was listed explicitly). We also fill the fields of structs.
    pub fn check_and_resolve(input: &'a str, query: Query<Span>) -> (r: TResult<Query<Span>>)
        requires
            checkable(query@, input.spec_bytes().len()),
        ensures
            match resolved(input.spec_bytes(), query@) {
                Ok(expected) => r matches Ok(q) && q@ == expected,
                Err(e) => r matches Err(error) && error@ == e,
            },
            query_sound(input.spec_bytes(), query@) ==> match r {
                Ok(q) => query_sound(input.spec_bytes(), q@),
                Err(e) => type_located(e@, input.spec_bytes().len()),
            },
    {
        let text = input;
        let input = text.as_bytes();
        let _ = input.len();
        proof {
            vstd::utf8::encode_utf8_valid_utf8(text@);
            if query_sound(input@, query@) {
                lemma_resolved_sound(input@, query@);
            }
        }
        let Query { docs, annotation, statement_type, statements } = query;

        let mut checker = Self::new(input);
        checker.populate_query_args(&annotation)?;
        proof {
            assert forall|i: int| 0 <= i < statements@.len() implies statement_readable(
                (#[trigger] statements@[i])@,
                input@.len(),
            ) by {
                assert(query@.statements[i] == statements@[i]@);
            }
        }
        checker.populate_inputs_outputs(&statements)?;

        let Annotation { name, arguments, result_type } = annotation;
        let arguments = checker.fill_input_struct(arguments)?;
        let result_type = checker.fill_output_struct(result_type)?;

        let query = Query {
            docs,
            annotation: Annotation { name, arguments, result_type },
            statement_type,
            statements,
        };

        Ok(query)
    }

    /// Walk the arguments in the query's annotation and record them.
    fn populate_query_args(&mut self, annotation: &Annotation<Span>) -> (r: TResult<()>)
        requires
            old(self).wf(),
            old(self).names().arguments.len() == 0,
            annotation@.arguments matches ArgTypeView::Args(args) ==> names_readable(
                args,
                0,
                old(self).bytes().len(),
            ),
        ensures
            final(self).bytes() == old(self).bytes(),
            final(self).wf(),
            match declared(old(self).bytes(), annotation@.arguments) {
                Ok(arguments) => r is Ok && final(self).names() == (Names {
                    arguments,
                    ..old(self).names()
                }),
                Err(e) => r matches Err(error) && error@ == e && final(self).names() == (Names {
                    arguments: arguments_before(old(self).bytes(), annotation@.arguments),
                    ..old(self).names()
                }),
            },
    {
        // Populate the query args with those provided in the annotation,
        // and at the same time ensure there are no duplicates.
        let args = match &annotation.arguments {
            ArgType::Struct { .. } => {
                proof {
                    assert(self.query_args@ =~= Seq::empty());
                }
                return Ok(());
            },
            ArgType::Args(args) => args,
        };
        proof {
            assert(self.query_args@ =~= Seq::empty());
        }

        let mut i: usize = 0;
        while i < args.len()
            invariant
                i <= args@.len(),
                self.wf(),
                self.bytes() == old(self).bytes(),
                self.names().inputs == old(self).names().inputs,
                self.names().outputs == old(self).names().outputs,
                annotation@.arguments == ArgTypeView::Args(args@),
                names_readable(args@, 0, self.bytes().len()),
                declared_from(self.bytes(), args@, i as int, self.names().arguments) == declared(
                    self.bytes(),
                    annotation@.arguments,
                ),
                declared_before(self.bytes(), args@, i as int, self.names().arguments)
                    == arguments_before(self.bytes(), annotation@.arguments),
            decreases args@.len() - i,
        {
            let arg = args[i];
            let _ = self.input.len();
            let name = slice_subrange(self.input, arg.ident.start, arg.ident.end);
            match find(self.input, &self.query_args, 0, name) {
                None => {
                    self.query_args.push(arg);
                },
                Some(previous) => {
                    let error = TypeError::with_note(
                        arg.ident,
                        "Redefinition of argument.",
                        previous.ident,
                        "First defined here.",
                    );
                    return Err(error);
                },
            };
            i += 1;
        }

        Ok(())
    }

    /// Handle fragments of the query body, populate inputs and outputs.
    fn populate_inputs_outputs(&mut self, statements: &Vec<Statement<Span>>) -> (r: TResult<()>)
        requires
            old(self).wf(),
            forall|i: int|
                0 <= i < statements@.len() ==> statement_readable(
                    (#[trigger] statements@[i])@,
                    old(self).bytes().len(),
                ),
        ensures
            final(self).bytes() == old(self).bytes(),
            final(self).wf(),
            match after_statements(
                old(self).bytes(),
                old(self).names(),
                statements@.map_values(|s: Statement<Span>| s@),
                0,
            ) {
                Ok(names) => r is Ok && final(self).names() == names,
                Err(e) => r matches Err(error) && error@ == e && final(self).names()
                    == left_by_statements(
                    old(self).bytes(),
                    old(self).names(),
                    statements@.map_values(|s: Statement<Span>| s@),
                    0,
                ),
            },
    {
        let ghost all = statements@.map_values(|s: Statement<Span>| s@);
        let ghost left = left_by_statements(self.bytes(), self.names(), all, 0);
        let mut i: usize = 0;
        while i < statements.len()
            invariant
                i <= statements@.len(),
                self.wf(),
                self.bytes() == old(self).bytes(),
                all == statements@.map_values(|s: Statement<Span>| s@),
                forall|i: int|
                    0 <= i < statements@.len() ==> statement_readable(
                        (#[trigger] statements@[i])@,
                        self.bytes().len(),
                    ),
                after_statements(self.bytes(), self.names(), all, i as int) == after_statements(
                    old(self).bytes(),
                    old(self).names(),
                    all,
                    0,
                ),
                left == left_by_statements(old(self).bytes(), old(self).names(), all, 0),
                left_by_statements(self.bytes(), self.names(), all, i as int) == left,
            decreases statements@.len() - i,
        {
            let statement = &statements[i];
            assert(all[i as int] == statement@);
            assert(statement_readable(statements@[i as int]@, self.bytes().len()));
            let ghost before = self.names();
            let mut j: usize = 0;
            while j < statement.fragments.len()
                invariant
                    j <= statement@.len(),
                    self.wf(),
                    self.bytes() == old(self).bytes(),
                    i < statements@.len(),
                    all[i as int] == statement@,
                    after_statements(self.bytes(), before, all, i as int) == after_statements(
                        old(self).bytes(),
                        old(self).names(),
                        all,
                        0,
                    ),
                    all == statements@.map_values(|s: Statement<Span>| s@),
                    statement_readable(statement@, self.bytes().len()),
                    after_fragments(self.bytes(), self.names(), statement@, j as int)
                        == after_fragments(self.bytes(), before, statement@, 0),
                    left == left_by_statements(old(self).bytes(), old(self).names(), all, 0),
                    left_by_statements(self.bytes(), before, all, i as int) == left,
                    left_by_fragments(self.bytes(), self.names(), statement@, j as int)
                        == left_by_fragments(self.bytes(), before, statement@, 0),
                decreases statement@.len() - j,
            {
                self.populate_input_output(&statement.fragments[j])?;
                j += 1;
            }
            i += 1;
        }
        Ok(())
    }

    /// Handle a single fragment of the query body, populate inputs and outputs.
    fn populate_input_output(&mut self, fragment: &Fragment<Span>) -> (r: TResult<()>)
        requires
            old(self).wf(),
            fragment_readable(*fragment, old(self).bytes().len()),
        ensures
            final(self).bytes() == old(self).bytes(),
            final(self).wf(),
            match after_fragment(old(self).bytes(), old(self).names(), *fragment) {
                Ok(names) => r is Ok && final(self).names() == names,
                Err(e) => r matches Err(error) && error@ == e && final(self).names() == left_by(
                    old(self).bytes(),
                    old(self).names(),
                    *fragment,
                ),
            },
    {
        let _ = self.input.len();
        match fragment {
            Fragment::Verbatim(..) => return Ok(()),
            Fragment::TypedIdent(_span, ti) => {
                // A typed identifier is an output that the query selects.
                let name = slice_subrange(self.input, ti.ident.start, ti.ident.end);
                match find(self.input, &self.output_fields_vec, 0, name) {
                    None => {
                        self.output_fields_vec.push(*ti);
                    },
                    Some(previous) => {
                        let error = TypeError::with_note(
                            ti.ident,
                            "Redefinition of query output.",
                            previous.ident,
                            "First defined here.",
                        );
                        return Err(error);
                    },
                }
            },
            Fragment::Param(span) => {
                // If there is a bare parameter without type annotation, then it
                // must be defined already.
                // Trim off the `:` that query parameters start with.
                let trimmed = span.trim_start(1);
                let name = slice_subrange(self.input, trimmed.start, trimmed.end);

                if find(self.input, &self.query_args, 0, name).is_none() {
                    let error = TypeError::with_hint(
                        *span,
                        "Undefined query parameter.",
                        "Define the parameter in the query signature, or add a type annotation here.",
                    );
                    return Err(error);
                }
            },
            Fragment::TypedParam(_span, ti) => {
                // A typed parameter is an input to the query that should not
                // occur in the arguments already.
                let trimmed = ti.ident.trim_start(1);
                let name = slice_subrange(self.input, trimmed.start, trimmed.end);

                match find(self.input, &self.input_fields_vec, 1, name) {
                    None => {
                        self.input_fields_vec.push(*ti);
                    },
                    Some(previous) => {
                        if !previous.type_.is_equal_to(&ti.type_) {
                            let error = TypeError::with_note(
                                ti.type_.span(),
                                "Parameter type differs from an earlier definition.",
                                previous.type_.span(),
                                "First defined here.",
                            );
                            return Err(error);
                        }
                        // If the parameter was already defined, but the types
                        // are compatible, there is nothing to do here.

                    },
                }

                if let Some(previous) = find(self.input, &self.query_args, 0, name) {
                    // If the parameter is typed but it was also defined in the
                    // arguments, then check they agree.
                    if !previous.type_.is_equal_to(&ti.type_) {
                        let error = TypeError::with_note(
                            ti.type_.span(),
                            "Parameter type differs from an earlier definition.",
                            previous.type_.span(),
                            "First defined here.",
                        );
                        return Err(error);
                    }
                }
            },
        }

        Ok(())
    }

    /// If the input is a struct type, fill its fields.
    fn fill_input_struct(&self, arguments: ArgType<Span>) -> (r: TResult<ArgType<Span>>)
        requires
            self.wf(),
        ensures
            match with_inputs(arguments@, self.names().inputs) {
                Ok(expected) => r matches Ok(a) && a@ == expected,
                Err(e) => r matches Err(error) && error@ == e,
            },
    {
        match arguments {
            ArgType::Args(args) => {
                // If there are parameters, but no struct, then we have
                // nowhere to put them.
                if self.input_fields_vec.len() == 0 {
                    return Ok(ArgType::Args(args));
                }
                let ti = &self.input_fields_vec[0];
                let error = TypeError::with_hint(
                    ti.ident,
                    "Cannot create a field, query has no struct parameter.",
                    "Annotated query parameters in the query body become fields of a struct, but this query has no struct parameter in its signature.",
                );
                Err(error)
            },
            ArgType::Struct { var_name, struct_name, fields } => {
                // Before we put the fields in, check if we have any. If not,
                // that's an error, because we would make an empty struct.
                if self.input_fields_vec.len() == 0 {
                    let error = TypeError::with_hint(
                        struct_name,
                        "Annotation contains a struct argument, but the query body contains no typed query parameters.",
                        "Add query parameters with type annotations to the query, to turn them into fields of the struct.",
                    );
                    return Err(error);
                }
                let mut fields = fields;
                let ghost given = fields@;
                let ghost inputs = self.input_fields_vec@;

                // The typed idents of the parameters include the colon,
                // but we don't want those in the field names, so remove them.
                let mut i: usize = 0;
                while i < self.input_fields_vec.len()
                    invariant
                        i <= self.input_fields_vec@.len(),
                        self.wf(),
                        inputs == self.input_fields_vec@,
                        inputs == self.names().inputs,
                        fields@ == given + inputs.subrange(0, i as int).map_values(
                            |input: TypedIdent<Span>| as_field(input),
                        ),
                    decreases self.input_fields_vec@.len() - i,
                {
                    let mut ti = self.input_fields_vec[i];
                    ti.ident = ti.ident.trim_start(1);
                    fields.push(ti);
                    proof {
                        let f = |input: TypedIdent<Span>| as_field(input);
                        assert(inputs.subrange(0, i + 1).map_values(f) =~= inputs.subrange(
                            0,
                            i as int,
                        ).map_values(f).push(as_field(inputs[i as int])));
                        assert(fields@ =~= given + inputs.subrange(0, i + 1).map_values(f));
                    }
                    i += 1;
                }
                proof {
                    assert(inputs.subrange(0, inputs.len() as int) =~= inputs);
                }
                Ok(ArgType::Struct { var_name, struct_name, fields })
            },
        }
    }

    /// The row type with the outputs of the body as the fields of its struct.
    fn fill_row(&self, row: ComplexType<Span>) -> (r: TResult<ComplexType<Span>>)
        ensures
            match row_with_outputs(row@, self.names().outputs) {
                Ok(expected) => r matches Ok(t) && t@ == expected,
                Err(e) => r matches Err(error) && error@ == e,
            },
    {
        match row {
            ComplexType::Struct(name_span, fields) => {
                // Before we put the fields in, check if we have any. If not,
                // that's an error, because we would make an empty struct.
                if self.output_fields_vec.len() == 0 {
                    let error = TypeError::with_hint(
                        name_span,
                        "The annotation specifies a struct as result type, but the query body contains no annotated outputs.",
                        "Add a SELECT or RETURNING clause with type annotations to the query, to turn them into fields of the struct.",
                    );
                    return Err(error);
                }
                let mut fields = fields;
                let ghost given = fields@;
                let ghost outputs = self.output_fields_vec@;
                let mut i: usize = 0;
                while i < self.output_fields_vec.len()
                    invariant
                        i <= self.output_fields_vec@.len(),
                        outputs == self.output_fields_vec@,
                        outputs == self.names().outputs,
                        fields@ == given + outputs.subrange(0, i as int),
                    decreases self.output_fields_vec@.len() - i,
                {
                    fields.push(self.output_fields_vec[i]);
                    proof {
                        assert(fields@ =~= given + outputs.subrange(0, i + 1));
                    }
                    i += 1;
                }
                proof {
                    assert(outputs.subrange(0, outputs.len() as int) =~= outputs);
                }
                Ok(ComplexType::Struct(name_span, fields))
            },
            other => {
                if self.output_fields_vec.len() == 0 {
                    return Ok(other);
                }
                Err(self.stray_output_error())
            },
        }
    }

    /// The error for outputs that have no struct to go to.
    fn stray_output_error(&self) -> (error: TypeError)
        requires
            self.names().outputs.len() > 0,
        ensures
            error@ == stray_output(self.names().outputs),
    {
        // Does not go out of bounds, there is an output.
        let ti = &self.output_fields_vec[0];
        TypeError::with_hint(
            ti.ident,
            "Cannot create a field, query does not return a struct.",
            "Annotated outputs in the query body become fields of a struct, so this query would need to return a struct.",
        )
    }

    /// If the result type is a struct, fill its fields.
    fn fill_output_struct(&self, result_type: ResultType<Span>) -> (r: TResult<ResultType<Span>>)
        ensures
            match with_outputs(result_type@, self.names().outputs) {
                Ok(expected) => r matches Ok(t) && t@ == expected,
                Err(e) => r matches Err(error) && error@ == e,
            },
    {
        match result_type {
            ResultType::Unit => {
                if self.output_fields_vec.len() == 0 {
                    return Ok(ResultType::Unit);
                }
                Err(self.stray_output_error())
            },
            ResultType::Option(row) => Ok(ResultType::Option(self.fill_row(row)?)),
            ResultType::Single(row) => Ok(ResultType::Single(self.fill_row(row)?)),
            ResultType::Iterator(row) => Ok(ResultType::Iterator(self.fill_row(row)?)),
        }
    }
}

/// Apply `check_and_resolve` to every query in the document.
pub fn check_document(input: &str, doc: Document<Span>) -> (r: TResult<Document<Span>>)
    requires
        document_checkable(doc@, input.spec_bytes().len()),
    ensures
        match resolved_document(input.spec_bytes(), doc@) {
            Ok(expected) => r matches Ok(d) && d@ == expected,
            Err(e) => r matches Err(error) && error@ == e,
        },
        sections_sound(input.spec_bytes(), doc@.sections) ==> match r {
            Ok(d) => sections_sound(input.spec_bytes(), d@.sections) && d@.all(
                resolvable_in(input.spec_bytes()),
            ),
            Err(e) => type_located(e@, input.spec_bytes().len()),
        },
{
    let bytes = input.as_bytes();
    let _ = bytes.len();
    proof {
        vstd::utf8::encode_utf8_valid_utf8(input@);
        if sections_sound(bytes@, doc@.sections) {
            lemma_resolved_document_sound(bytes@, doc@);
            match resolved_document(bytes@, doc@) {
                Ok(checked) => {
                    lemma_sound_sections_resolvable(bytes@, checked);
                },
                Err(_) => {},
            }
        }
    }
    let ghost all = doc@.sections;
    let mut sections: Vec<Section<Span>> = Vec::new();
    let mut rest = doc.sections;
    let ghost given = rest@;
    let mut taken: Vec<Section<Span>> = Vec::new();
    // Take the sections from the back, to own each of them, and put them
    // in order again afterwards.
    while rest.len() > 0
        invariant
            taken@.len() + rest@.len() == given.len(),
            rest@ == given.subrange(0, rest@.len() as int),
            forall|k: int| 0 <= k < taken@.len() ==> taken@[k] == given[given.len() - 1 - k],
        decreases rest@.len(),
    {
        let section = rest.pop().unwrap();
        taken.push(section);
    }
    proof {
        assert(sections@.map_values(|s: Section<Span>| s@) =~= Seq::empty());
    }
    while taken.len() > 0
        invariant
            bytes@ == input.spec_bytes(),
            all == given.map_values(|s: Section<Span>| s@),
            all == doc@.sections,
            document_checkable(doc@, bytes@.len()),
            taken@.len() <= given.len(),
            forall|k: int| 0 <= k < taken@.len() ==> taken@[k] == given[given.len() - 1 - k],
            resolved_sections(
                bytes@,
                all,
                given.len() - taken@.len(),
                sections@.map_values(|s: Section<Span>| s@),
            ) == resolved_sections(bytes@, all, 0, Seq::empty()),
            sections_sound(bytes@, all) ==> match resolved_document(bytes@, doc@) {
                Ok(checked) => sections_sound(bytes@, checked.sections) && checked.all(
                    resolvable_in(bytes@),
                ),
                Err(e) => type_located(e, bytes@.len()),
            },
        decreases taken@.len(),
    {
        let ghost index = given.len() - taken@.len();
        let ghost before = sections@.map_values(|s: Section<Span>| s@);
        let section = taken.pop().unwrap();
        assert(section == given[index]);
        assert(all[index] == section@);
        match section {
            Section::Verbatim(s) => {
                sections.push(Section::Verbatim(s));
                proof {
                    assert(sections@.map_values(|s: Section<Span>| s@) =~= before.push(
                        SectionView::Verbatim(s),
                    ));
                }
            },
            Section::Query(q) => {
                let checked = QueryChecker::check_and_resolve(input, q)?;
                let ghost added = checked@;
                sections.push(Section::Query(checked));
                proof {
                    assert(sections@.map_values(|s: Section<Span>| s@) =~= before.push(
                        SectionView::Query(added),
                    ));
                }
            },
        }
    }

    let result = Document { sections };

    Ok(result)
}

} // verus!
