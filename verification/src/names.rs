//! What holds of the names in a query whose types are resolved.
//!
//! Every parameter of the body is defined, all definitions of a parameter
//! agree on its type, and the fields of the structs are the typed
//! parameters and the typed outputs of the body.
use crate::ast::{
    resolvable_in, ArgTypeView, ComplexTypeView, DocumentView, Fragment, QueryView, SectionView,
    TypedIdent,
};
use crate::error::{type_located};
use crate::lexer::document::Token;
use crate::parser::layout::{document_tiles, query_within, section_spans, sections_tile};
use crate::parser::spans::{
    fragment_sound, fragments_sound, query_sound, section_sound, sections_sound, statements_sound,
};
use crate::typecheck::{resolved_document, resolved_sections};
use vstd::utf8::valid_utf8;
use crate::typecheck::{
    after_fragment, after_fragments, after_statements, as_field, declared, declared_from, lookup,
    lookup_from, name_of, names_of, resolved, with_inputs, Names,
};
use crate::Span;
use vstd::prelude::*;

verus! {

/// What is found among `list` is one of `list`, and the first that has the name.
pub proof fn lemma_lookup_from_found(
    bytes: Seq<u8>,
    list: Seq<TypedIdent<Span>>,
    skip: int,
    name: Seq<u8>,
    i: int,
)
    requires
        0 <= i,
    ensures
        match lookup_from(bytes, list, skip, name, i) {
            Some(found) => exists|k: int|
                i <= k < list.len() && #[trigger] list[k] == found && name_of(
                    bytes,
                    list[k].ident,
                    skip,
                ) == name,
            None => forall|k: int|
                i <= k < list.len() ==> name_of(bytes, (#[trigger] list[k]).ident, skip) != name,
        },
    decreases list.len() - i,
{
    if i < list.len() {
        if name_of(bytes, list[i].ident, skip) == name {
            assert(list[i] == list[i]);
        } else {
            lemma_lookup_from_found(bytes, list, skip, name, i + 1);
        }
    }
}

/// What is found among a list is still found when the list gets longer;
/// what is not found there is found at the end, if it has the name.
pub proof fn lemma_lookup_from_push(
    bytes: Seq<u8>,
    list: Seq<TypedIdent<Span>>,
    skip: int,
    name: Seq<u8>,
    last: TypedIdent<Span>,
    i: int,
)
    requires
        0 <= i <= list.len(),
    ensures
        lookup_from(bytes, list.push(last), skip, name, i) == match lookup_from(
            bytes,
            list,
            skip,
            name,
            i,
        ) {
            Some(found) => Some(found),
            None => if name_of(bytes, last.ident, skip) == name {
                Some(last)
            } else {
                None
            },
        },
    decreases list.len() - i,
{
    let longer = list.push(last);
    if i < list.len() {
        assert(longer[i] == list[i]);
        if name_of(bytes, list[i].ident, skip) != name {
            lemma_lookup_from_push(bytes, list, skip, name, last, i + 1);
        }
    } else {
        assert(longer[i] == last);
        assert(lookup_from(bytes, longer, skip, name, i + 1) is None);
    }
}

/// A fragment is in order with what is known of the query:
///
/// * a parameter without a type is a declared argument;
/// * a parameter with a type is among the inputs, with an equivalent
///   type, and if it is a declared argument too, that has an equivalent type;
/// * a typed identifier is the output of its name.
pub open spec fn fragment_in_order(bytes: Seq<u8>, names: Names, fragment: Fragment<Span>) -> bool {
    match fragment {
        Fragment::Verbatim(_) => true,
        Fragment::TypedIdent(_, ti) => lookup(bytes, names.outputs, 0, name_of(bytes, ti.ident, 0))
            == Some(ti),
        Fragment::Param(span) => lookup(bytes, names.arguments, 0, name_of(bytes, span, 1)) is Some,
        Fragment::TypedParam(_, ti) => {
            let name = name_of(bytes, ti.ident, 1);
            &&& lookup(bytes, names.inputs, 1, name) matches Some(input) && input.type_.equivalent(
                ti.type_,
            )
            &&& lookup(bytes, names.arguments, 0, name) matches Some(argument)
                ==> argument.type_.equivalent(ti.type_)
        },
    }
}

/// All fragments that are in order with `before` are in order with
/// `after`, and both know the same arguments.
pub open spec fn keeps_order(bytes: Seq<u8>, before: Names, after: Names) -> bool {
    &&& before.arguments == after.arguments
    &&& forall|fragment: Fragment<Span>| #[trigger]
        fragment_in_order(bytes, before, fragment) ==> fragment_in_order(bytes, after, fragment)
}

/// A fragment that is checked is in order afterwards, and so is every
/// fragment that was in order before.
pub proof fn lemma_after_fragment(bytes: Seq<u8>, names: Names, fragment: Fragment<Span>)
    ensures
        after_fragment(bytes, names, fragment) matches Ok(after) ==> fragment_in_order(
            bytes,
            after,
            fragment,
        ) && keeps_order(bytes, names, after),
{
    match after_fragment(bytes, names, fragment) {
        Err(_) => {},
        Ok(after) => {
            match fragment {
                Fragment::Verbatim(_) => {},
                Fragment::Param(_) => {},
                Fragment::TypedIdent(_, ti) => {
                    lemma_lookup_from_push(
                        bytes,
                        names.outputs,
                        0,
                        name_of(bytes, ti.ident, 0),
                        ti,
                        0,
                    );
                    assert forall|other: Fragment<Span>| #[trigger]
                        fragment_in_order(bytes, names, other) implies fragment_in_order(
                        bytes,
                        after,
                        other,
                    ) by {
                        match other {
                            Fragment::TypedIdent(_, seen) => {
                                lemma_lookup_from_push(
                                    bytes,
                                    names.outputs,
                                    0,
                                    name_of(bytes, seen.ident, 0),
                                    ti,
                                    0,
                                );
                            },
                            _ => {},
                        }
                    }
                },
                Fragment::TypedParam(_, ti) => {
                    let name = name_of(bytes, ti.ident, 1);
                    if lookup(bytes, names.inputs, 1, name) is None {
                        lemma_lookup_from_push(bytes, names.inputs, 1, name, ti, 0);
                        assert forall|other: Fragment<Span>| #[trigger]
                            fragment_in_order(bytes, names, other) implies fragment_in_order(
                            bytes,
                            after,
                            other,
                        ) by {
                            match other {
                                Fragment::TypedParam(_, seen) => {
                                    lemma_lookup_from_push(
                                        bytes,
                                        names.inputs,
                                        1,
                                        name_of(bytes, seen.ident, 1),
                                        ti,
                                        0,
                                    );
                                },
                                _ => {},
                            }
                        }
                    }
                },
            }
        },
    }
}

/// The fragments of a statement that is checked are in order afterwards.
pub proof fn lemma_after_fragments(
    bytes: Seq<u8>,
    names: Names,
    fragments: Seq<Fragment<Span>>,
    i: int,
)
    requires
        0 <= i,
    ensures
        after_fragments(bytes, names, fragments, i) matches Ok(after) ==> keeps_order(
            bytes,
            names,
            after,
        ) && forall|k: int|
            i <= k < fragments.len() ==> fragment_in_order(bytes, after, #[trigger] fragments[k]),
    decreases fragments.len() - i,
{
    if i < fragments.len() {
        lemma_after_fragment(bytes, names, fragments[i]);
        match after_fragment(bytes, names, fragments[i]) {
            Err(_) => {},
            Ok(next) => {
                lemma_after_fragments(bytes, next, fragments, i + 1);
                match after_fragments(bytes, next, fragments, i + 1) {
                    Err(_) => {},
                    Ok(after) => {
                        assert(fragment_in_order(bytes, next, fragments[i]));
                    },
                }
            },
        }
    }
}

/// The fragments of all statements that are checked are in order afterwards.
pub proof fn lemma_after_statements(
    bytes: Seq<u8>,
    names: Names,
    statements: Seq<Seq<Fragment<Span>>>,
    i: int,
)
    requires
        0 <= i,
    ensures
        after_statements(bytes, names, statements, i) matches Ok(after) ==> keeps_order(
            bytes,
            names,
            after,
        ) && forall|s: int, f: int|
            i <= s < statements.len() && 0 <= f < statements[s].len() ==> fragment_in_order(
                bytes,
                after,
                #[trigger] statements[s][f],
            ),
    decreases statements.len() - i,
{
    if i < statements.len() {
        lemma_after_fragments(bytes, names, statements[i], 0);
        match after_fragments(bytes, names, statements[i], 0) {
            Err(_) => {},
            Ok(next) => {
                lemma_after_statements(bytes, next, statements, i + 1);
                match after_statements(bytes, next, statements, i + 1) {
                    Err(_) => {},
                    Ok(after) => {
                        assert forall|s: int, f: int|
                            i <= s < statements.len() && 0 <= f
                                < statements[s].len() implies fragment_in_order(
                            bytes,
                            after,
                            #[trigger] statements[s][f],
                        ) by {
                            if s == i {
                                assert(fragment_in_order(bytes, next, statements[i][f]));
                            }
                        }
                    },
                }
            },
        }
    }
}

/// Arguments that are declared without error are the arguments as they
/// are written.
pub proof fn lemma_declared_from(
    bytes: Seq<u8>,
    args: Seq<TypedIdent<Span>>,
    i: int,
    acc: Seq<TypedIdent<Span>>,
)
    requires
        0 <= i <= args.len(),
        acc == args.subrange(0, i),
    ensures
        declared_from(bytes, args, i, acc) matches Ok(all) ==> all == args,
    decreases args.len() - i,
{
    if i < args.len() {
        if lookup(bytes, acc, 0, name_of(bytes, args[i].ident, 0)) is None {
            assert(acc.push(args[i]) =~= args.subrange(0, i + 1));
            lemma_declared_from(bytes, args, i + 1, acc.push(args[i]));
        }
    } else {
        assert(acc =~= args);
    }
}

/// All fragments of a query are in order with what its body defines.
pub proof fn lemma_names_of(bytes: Seq<u8>, query: QueryView<Span>)
    ensures
        names_of(bytes, query) matches Ok(names) ==> {
            &&& forall|s: int, f: int|
                0 <= s < query.statements.len() && 0 <= f
                    < query.statements[s].len() ==> fragment_in_order(
                    bytes,
                    names,
                    #[trigger] query.statements[s][f],
                )
            &&& match query.annotation.arguments {
                ArgTypeView::Args(args) => names.arguments == args,
                ArgTypeView::Struct { .. } => names.arguments.len() == 0,
            }
        },
{
    match declared(bytes, query.annotation.arguments) {
        Err(_) => {},
        Ok(arguments) => {
            match query.annotation.arguments {
                ArgTypeView::Args(args) => {
                    assert(Seq::<TypedIdent<Span>>::empty() =~= args.subrange(0, 0));
                    lemma_declared_from(bytes, args, 0, Seq::empty());
                },
                ArgTypeView::Struct { .. } => {},
            }
            lemma_after_statements(
                bytes,
                Names { arguments, inputs: Seq::empty(), outputs: Seq::empty() },
                query.statements,
                0,
            );
        },
    }
}

/// Whether `name` is an argument of the query: one of the arguments of
/// the list, or a field of the struct.
pub open spec fn is_argument(bytes: Seq<u8>, arguments: ArgTypeView<Span>, name: Seq<u8>) -> bool {
    match arguments {
        ArgTypeView::Args(args) => lookup(bytes, args, 0, name) is Some,
        ArgTypeView::Struct { fields, .. } => lookup(bytes, fields, 0, name) is Some,
    }
}

/// A name that is found among the inputs is found among the fields that
/// the inputs make, behind any other fields.
pub proof fn lemma_lookup_fields(
    bytes: Seq<u8>,
    given: Seq<TypedIdent<Span>>,
    inputs: Seq<TypedIdent<Span>>,
    name: Seq<u8>,
)
    requires
        lookup(bytes, inputs, 1, name) is Some,
        forall|k: int| 0 <= k < inputs.len() ==> (#[trigger] inputs[k]).ident.start < usize::MAX,
    ensures
        lookup(
            bytes,
            given + inputs.map_values(|input: TypedIdent<Span>| as_field(input)),
            0,
            name,
        ) is Some,
{
    let fields = given + inputs.map_values(|input: TypedIdent<Span>| as_field(input));
    lemma_lookup_from_found(bytes, inputs, 1, name, 0);
    let k = choose|k: int|
        0 <= k < inputs.len() && #[trigger] inputs[k] == lookup(bytes, inputs, 1, name)->Some_0
            && name_of(bytes, inputs[k].ident, 1) == name;
    assert(fields[given.len() + k] == as_field(inputs[k]));
    assert(name_of(bytes, as_field(inputs[k]).ident, 0) == name);
    lemma_lookup_from_found(bytes, fields, 0, name, 0);
}

/// In a query whose types are resolved, the name of
/// every parameter of the body, typed or not, is an argument of the list of
/// arguments or a field of the struct argument.
pub proof fn lemma_parameters_resolved(bytes: Seq<u8>, query: QueryView<Span>, s: int, f: int)
    requires
        0 <= s < query.statements.len(),
        0 <= f < query.statements[s].len(),
        crate::typecheck::checkable(query, bytes.len()),
    ensures
        resolved(bytes, query) matches Ok(checked) ==> (checked.statements[s][f].parameter() matches Some(
            span,
        ) ==> is_argument(bytes, checked.annotation.arguments, name_of(bytes, span, 1))),
{
    lemma_names_of(bytes, query);
    match names_of(bytes, query) {
        Err(_) => {},
        Ok(names) => {
            let fragment = query.statements[s][f];
            assert(fragment_in_order(bytes, names, fragment));
            match with_inputs(query.annotation.arguments, names.inputs) {
                Err(_) => {},
                Ok(arguments) => {
                    match fragment {
                        Fragment::TypedParam(_, ti) => {
                            match query.annotation.arguments {
                                ArgTypeView::Struct { fields, .. } => {
                                    lemma_inputs_are_parameters(bytes, query);
                                    lemma_lookup_fields(
                                        bytes,
                                        fields,
                                        names.inputs,
                                        name_of(bytes, ti.ident, 1),
                                    );
                                },
                                ArgTypeView::Args(_) => {},
                            }
                        },
                        _ => {},
                    }
                },
            }
        },
    }
}

/// In a query whose types are resolved, two typed
/// parameters of the same name have equivalent types, and so have a typed
/// parameter and the declared argument of its name.
pub proof fn lemma_types_agree(
    bytes: Seq<u8>,
    query: QueryView<Span>,
    s1: int,
    f1: int,
    s2: int,
    f2: int,
)
    requires
        0 <= s1 < query.statements.len(),
        0 <= f1 < query.statements[s1].len(),
        0 <= s2 < query.statements.len(),
        0 <= f2 < query.statements[s2].len(),
    ensures
        resolved(bytes, query) matches Ok(checked) ==> (checked.statements[s1][f1] matches Fragment::TypedParam(
            _,
            one,
        ) ==> {
            &&& checked.statements[s2][f2] matches Fragment::TypedParam(_, other) ==> (name_of(
                bytes,
                one.ident,
                1,
            ) == name_of(bytes, other.ident, 1) ==> one.type_.equivalent(other.type_))
            &&& checked.annotation.arguments matches ArgTypeView::Args(args) ==> (lookup(
                bytes,
                args,
                0,
                name_of(bytes, one.ident, 1),
            ) matches Some(argument) ==> argument.type_.equivalent(one.type_))
        }),
{
    lemma_names_of(bytes, query);
    match names_of(bytes, query) {
        Err(_) => {},
        Ok(names) => {
            assert(fragment_in_order(bytes, names, query.statements[s1][f1]));
            assert(fragment_in_order(bytes, names, query.statements[s2][f2]));
        },
    }
}

/// The typed parameters among the fragments from index `i` on, each name
/// once, in the order of the fragments, behind those of `acc`.
pub open spec fn inputs_from(
    bytes: Seq<u8>,
    fragments: Seq<Fragment<Span>>,
    i: int,
    acc: Seq<TypedIdent<Span>>,
) -> Seq<TypedIdent<Span>>
    decreases fragments.len() - i,
{
    if i < 0 || i >= fragments.len() {
        acc
    } else {
        match fragments[i] {
            Fragment::TypedParam(_, ti) => if lookup(
                bytes,
                acc,
                1,
                name_of(bytes, ti.ident, 1),
            ) is None {
                inputs_from(bytes, fragments, i + 1, acc.push(ti))
            } else {
                inputs_from(bytes, fragments, i + 1, acc)
            },
            _ => inputs_from(bytes, fragments, i + 1, acc),
        }
    }
}

/// The typed parameters in the statements from index `i` on, each name
/// once, in the order of the body, behind those of `acc`.
pub open spec fn all_inputs_from(
    bytes: Seq<u8>,
    statements: Seq<Seq<Fragment<Span>>>,
    i: int,
    acc: Seq<TypedIdent<Span>>,
) -> Seq<TypedIdent<Span>>
    decreases statements.len() - i,
{
    if i < 0 || i >= statements.len() {
        acc
    } else {
        all_inputs_from(bytes, statements, i + 1, inputs_from(bytes, statements[i], 0, acc))
    }
}

/// The typed identifiers among the fragments from index `i` on, in the
/// order of the fragments, behind those of `acc`.
pub open spec fn outputs_from(fragments: Seq<Fragment<Span>>, i: int, acc: Seq<TypedIdent<Span>>) -> Seq<
    TypedIdent<Span>,
>
    decreases fragments.len() - i,
{
    if i < 0 || i >= fragments.len() {
        acc
    } else {
        match fragments[i] {
            Fragment::TypedIdent(_, ti) => outputs_from(fragments, i + 1, acc.push(ti)),
            _ => outputs_from(fragments, i + 1, acc),
        }
    }
}

/// The typed identifiers in the statements from index `i` on, in the order
/// of the body, behind those of `acc`.
pub open spec fn all_outputs_from(
    statements: Seq<Seq<Fragment<Span>>>,
    i: int,
    acc: Seq<TypedIdent<Span>>,
) -> Seq<TypedIdent<Span>>
    decreases statements.len() - i,
{
    if i < 0 || i >= statements.len() {
        acc
    } else {
        all_outputs_from(statements, i + 1, outputs_from(statements[i], 0, acc))
    }
}

/// The typed parameters of the body of a query, each name once, in the
/// order of the body. The identifiers include the colon.
pub open spec fn typed_parameters(bytes: Seq<u8>, query: QueryView<Span>) -> Seq<TypedIdent<Span>> {
    all_inputs_from(bytes, query.statements, 0, Seq::empty())
}

/// The typed identifiers of the body of a query, in the order of the body.
pub open spec fn typed_outputs(query: QueryView<Span>) -> Seq<TypedIdent<Span>> {
    all_outputs_from(query.statements, 0, Seq::empty())
}

proof fn lemma_fragments_collect(
    bytes: Seq<u8>,
    names: Names,
    fragments: Seq<Fragment<Span>>,
    i: int,
)
    requires
        0 <= i,
    ensures
        after_fragments(bytes, names, fragments, i) matches Ok(after) ==> after.inputs == inputs_from(
            bytes,
            fragments,
            i,
            names.inputs,
        ) && after.outputs == outputs_from(fragments, i, names.outputs),
    decreases fragments.len() - i,
{
    if i < fragments.len() {
        match after_fragment(bytes, names, fragments[i]) {
            Err(_) => {},
            Ok(next) => {
                lemma_fragments_collect(bytes, next, fragments, i + 1);
            },
        }
    }
}

proof fn lemma_statements_collect(
    bytes: Seq<u8>,
    names: Names,
    statements: Seq<Seq<Fragment<Span>>>,
    i: int,
)
    requires
        0 <= i,
    ensures
        after_statements(bytes, names, statements, i) matches Ok(after) ==> after.inputs
            == all_inputs_from(bytes, statements, i, names.inputs) && after.outputs
            == all_outputs_from(statements, i, names.outputs),
    decreases statements.len() - i,
{
    if i < statements.len() {
        lemma_fragments_collect(bytes, names, statements[i], 0);
        match after_fragments(bytes, names, statements[i], 0) {
            Err(_) => {},
            Ok(next) => {
                lemma_statements_collect(bytes, next, statements, i + 1);
            },
        }
    }
}

/// What the body of a query defines are its typed parameters, each name
/// once, and its typed identifiers, both in the order of the body.
pub proof fn lemma_names_collected(bytes: Seq<u8>, query: QueryView<Span>)
    ensures
        names_of(bytes, query) matches Ok(names) ==> names.inputs == typed_parameters(bytes, query)
            && names.outputs == typed_outputs(query),
{
    match declared(bytes, query.annotation.arguments) {
        Err(_) => {},
        Ok(arguments) => {
            lemma_statements_collect(
                bytes,
                Names { arguments, inputs: Seq::empty(), outputs: Seq::empty() },
                query.statements,
                0,
            );
        },
    }
}

/// The struct of the row type, if the result type has one: its fields.
pub open spec fn result_fields(query: QueryView<Span>) -> Option<Seq<TypedIdent<Span>>> {
    match query.annotation.result_type.row_type() {
        Some(ComplexTypeView::Struct(_, fields)) => Some(fields),
        _ => None,
    }
}

/// In a query whose types are resolved, the fields of
/// a struct argument are the fields that it had, followed by the typed
/// parameters of the body, each name once, in the order of the body and
/// without their colons. The fields of a struct result are the fields that
/// it had, followed by the typed identifiers of the body in their order.
pub proof fn lemma_structs_populated(bytes: Seq<u8>, query: QueryView<Span>)
    ensures
        resolved(bytes, query) matches Ok(checked) ==> {
            &&& (checked.annotation.arguments matches ArgTypeView::Struct { fields, .. } ==> (
            query.annotation.arguments matches ArgTypeView::Struct { fields: given, .. } && fields
                == given + typed_parameters(bytes, query).map_values(
                |input: TypedIdent<Span>| as_field(input),
            )))
            &&& (result_fields(checked) matches Some(fields) ==> (result_fields(query) matches Some(
                given,
            ) && fields == given + typed_outputs(query)))
        },
{
    lemma_names_collected(bytes, query);
}

/// The inputs of a query are parameters of its body.
proof fn lemma_inputs_are_parameters(bytes: Seq<u8>, query: QueryView<Span>)
    requires
        crate::typecheck::checkable(query, bytes.len()),
    ensures
        names_of(bytes, query) matches Ok(names) ==> forall|k: int|
            0 <= k < names.inputs.len() ==> (#[trigger] names.inputs[k]).ident.start < usize::MAX,
{
    match declared(bytes, query.annotation.arguments) {
        Err(_) => {},
        Ok(arguments) => {
            lemma_statements_bounded(
                bytes,
                Names { arguments, inputs: Seq::empty(), outputs: Seq::empty() },
                query.statements,
                0,
            );
        },
    }
}

proof fn lemma_fragments_bounded(
    bytes: Seq<u8>,
    names: Names,
    fragments: Seq<Fragment<Span>>,
    i: int,
)
    requires
        0 <= i,
        crate::typecheck::statement_readable(fragments, bytes.len()),
        forall|k: int| 0 <= k < names.inputs.len() ==> (#[trigger] names.inputs[k]).ident.start < usize::MAX,
    ensures
        after_fragments(bytes, names, fragments, i) matches Ok(after) ==> forall|k: int|
            0 <= k < after.inputs.len() ==> (#[trigger] after.inputs[k]).ident.start < usize::MAX,
    decreases fragments.len() - i,
{
    if i < fragments.len() {
        assert(crate::typecheck::fragment_readable(fragments[i], bytes.len()));
        match after_fragment(bytes, names, fragments[i]) {
            Err(_) => {},
            Ok(next) => {
                lemma_fragments_bounded(bytes, next, fragments, i + 1);
            },
        }
    }
}

proof fn lemma_statements_bounded(
    bytes: Seq<u8>,
    names: Names,
    statements: Seq<Seq<Fragment<Span>>>,
    i: int,
)
    requires
        0 <= i,
        forall|s: int|
            0 <= s < statements.len() ==> crate::typecheck::statement_readable(
                #[trigger] statements[s],
                bytes.len(),
            ),
        forall|k: int| 0 <= k < names.inputs.len() ==> (#[trigger] names.inputs[k]).ident.start < usize::MAX,
    ensures
        after_statements(bytes, names, statements, i) matches Ok(after) ==> forall|k: int|
            0 <= k < after.inputs.len() ==> (#[trigger] after.inputs[k]).ident.start < usize::MAX,
    decreases statements.len() - i,
{
    if i < statements.len() {
        lemma_fragments_bounded(bytes, names, statements[i], 0);
        match after_fragments(bytes, names, statements[i], 0) {
            Err(_) => {},
            Ok(next) => {
                lemma_statements_bounded(bytes, next, statements, i + 1);
            },
        }
    }
}

/// All spans of the typed identifiers can be resolved.
pub open spec fn list_resolvable(bytes: Seq<u8>, list: Seq<TypedIdent<Span>>) -> bool {
    forall|k: int| 0 <= k < list.len() ==> (#[trigger] list[k]).all(resolvable_in(bytes))
}

/// All spans of what is known of a query can be resolved, and every input
/// is a colon with a name behind it.
pub open spec fn names_sound(bytes: Seq<u8>, names: Names) -> bool {
    &&& list_resolvable(bytes, names.arguments)
    &&& list_resolvable(bytes, names.inputs)
    &&& list_resolvable(bytes, names.outputs)
    &&& forall|k: int|
        0 <= k < names.inputs.len() ==> (#[trigger] names.inputs[k]).ident.start
            < names.inputs[k].ident.end && bytes[names.inputs[k].ident.start as int] == 0x3a
}

/// One more typed identifier that can be resolved keeps the list resolvable.
pub proof fn lemma_list_push(bytes: Seq<u8>, list: Seq<TypedIdent<Span>>, last: TypedIdent<Span>)
    requires
        list_resolvable(bytes, list),
        last.all(resolvable_in(bytes)),
    ensures
        list_resolvable(bytes, list.push(last)),
{
    let all = list.push(last);
    assert forall|k: int| 0 <= k < all.len() implies (#[trigger] all[k]).all(resolvable_in(bytes)) by {
        if k < list.len() {
            assert(all[k] == list[k]);
        }
    }
}

/// What is found in a list that can be resolved can be resolved.
pub proof fn lemma_lookup_resolvable(
    bytes: Seq<u8>,
    list: Seq<TypedIdent<Span>>,
    skip: int,
    name: Seq<u8>,
)
    requires
        list_resolvable(bytes, list),
    ensures
        lookup(bytes, list, skip, name) matches Some(found) ==> found.all(resolvable_in(bytes)),
{
    lemma_lookup_from_found(bytes, list, skip, name, 0);
}

/// Checking a sound fragment keeps what is known sound, and an error
/// points into the input.
pub proof fn lemma_after_fragment_sound(bytes: Seq<u8>, names: Names, fragment: Fragment<Span>)
    requires
        names_sound(bytes, names),
        fragment_sound(bytes, fragment),
    ensures
        match after_fragment(bytes, names, fragment) {
            Ok(after) => names_sound(bytes, after),
            Err(e) => type_located(e, bytes.len()),
        },
{
    match fragment {
        Fragment::Verbatim(_) => {},
        Fragment::Param(span) => {},
        Fragment::TypedIdent(_, ti) => {
            lemma_lookup_resolvable(bytes, names.outputs, 0, name_of(bytes, ti.ident, 0));
            lemma_list_push(bytes, names.outputs, ti);
        },
        Fragment::TypedParam(_, ti) => {
            let name = name_of(bytes, ti.ident, 1);
            lemma_lookup_resolvable(bytes, names.inputs, 1, name);
            lemma_lookup_resolvable(bytes, names.arguments, 0, name);
            lemma_list_push(bytes, names.inputs, ti);
            let more = names.inputs.push(ti);
            assert forall|k: int| 0 <= k < more.len() implies (#[trigger] more[k]).ident.start
                < more[k].ident.end && bytes[more[k].ident.start as int] == 0x3a by {
                if k < names.inputs.len() {
                    assert(more[k] == names.inputs[k]);
                }
            }
        },
    }
}

/// Checking sound fragments keeps what is known sound.
pub proof fn lemma_after_fragments_sound(
    bytes: Seq<u8>,
    names: Names,
    fragments: Seq<Fragment<Span>>,
    i: int,
)
    requires
        0 <= i,
        names_sound(bytes, names),
        fragments_sound(bytes, fragments),
    ensures
        match after_fragments(bytes, names, fragments, i) {
            Ok(after) => names_sound(bytes, after),
            Err(e) => type_located(e, bytes.len()),
        },
    decreases fragments.len() - i,
{
    if i < fragments.len() {
        lemma_after_fragment_sound(bytes, names, fragments[i]);
        match after_fragment(bytes, names, fragments[i]) {
            Err(_) => {},
            Ok(next) => {
                lemma_after_fragments_sound(bytes, next, fragments, i + 1);
            },
        }
    }
}

/// Checking sound statements keeps what is known sound.
pub proof fn lemma_after_statements_sound(
    bytes: Seq<u8>,
    names: Names,
    statements: Seq<Seq<Fragment<Span>>>,
    i: int,
)
    requires
        0 <= i,
        names_sound(bytes, names),
        statements_sound(bytes, statements),
    ensures
        match after_statements(bytes, names, statements, i) {
            Ok(after) => names_sound(bytes, after),
            Err(e) => type_located(e, bytes.len()),
        },
    decreases statements.len() - i,
{
    if i < statements.len() {
        lemma_after_fragments_sound(bytes, names, statements[i], 0);
        match after_fragments(bytes, names, statements[i], 0) {
            Err(_) => {},
            Ok(next) => {
                lemma_after_statements_sound(bytes, next, statements, i + 1);
            },
        }
    }
}

/// Arguments that can be resolved are declared without a loss, and an
/// error points into the input.
pub proof fn lemma_declared_from_sound(
    bytes: Seq<u8>,
    args: Seq<TypedIdent<Span>>,
    i: int,
    acc: Seq<TypedIdent<Span>>,
)
    requires
        0 <= i,
        list_resolvable(bytes, args),
        list_resolvable(bytes, acc),
    ensures
        match declared_from(bytes, args, i, acc) {
            Ok(all) => list_resolvable(bytes, all),
            Err(e) => type_located(e, bytes.len()),
        },
    decreases args.len() - i,
{
    if i < args.len() {
        lemma_lookup_resolvable(bytes, acc, 0, name_of(bytes, args[i].ident, 0));
        lemma_list_push(bytes, acc, args[i]);
        lemma_declared_from_sound(bytes, args, i + 1, acc.push(args[i]));
    }
}

/// The fields that the inputs make can be resolved.
pub proof fn lemma_fields_resolvable(
    bytes: Seq<u8>,
    given: Seq<TypedIdent<Span>>,
    inputs: Seq<TypedIdent<Span>>,
)
    requires
        valid_utf8(bytes),
        bytes.len() <= usize::MAX,
        list_resolvable(bytes, given),
        list_resolvable(bytes, inputs),
        forall|k: int|
            0 <= k < inputs.len() ==> (#[trigger] inputs[k]).ident.start < inputs[k].ident.end
                && bytes[inputs[k].ident.start as int] == 0x3a,
    ensures
        list_resolvable(
            bytes,
            given + inputs.map_values(|input: TypedIdent<Span>| as_field(input)),
        ),
{
    let fields = given + inputs.map_values(|input: TypedIdent<Span>| as_field(input));
    assert forall|k: int| 0 <= k < fields.len() implies (#[trigger] fields[k]).all(
        resolvable_in(bytes),
    ) by {
        if k < given.len() {
            assert(fields[k] == given[k]);
        } else {
            let input = inputs[k - given.len()];
            assert(fields[k] == as_field(input));
            assert(input.all(resolvable_in(bytes)));
            crate::text::lemma_ascii_edge_is_boundary(bytes, input.ident.start + 1);
        }
    }
}

/// If all spans of a query can be
/// resolved and its typed parameters are colons with names, then all spans
/// of the query with its types resolved can be resolved, and an error
/// points into the input.
pub proof fn lemma_resolved_sound(bytes: Seq<u8>, query: QueryView<Span>)
    requires
        valid_utf8(bytes),
        bytes.len() <= usize::MAX,
        query_sound(bytes, query),
    ensures
        match resolved(bytes, query) {
            Ok(checked) => query_sound(bytes, checked),
            Err(e) => type_located(e, bytes.len()),
        },
{
    let start = Names { arguments: Seq::empty(), inputs: Seq::empty(), outputs: Seq::empty() };
    match query.annotation.arguments {
        ArgTypeView::Args(args) => {
            lemma_declared_from_sound(bytes, args, 0, Seq::empty());
        },
        ArgTypeView::Struct { .. } => {},
    }
    match declared(bytes, query.annotation.arguments) {
        Err(_) => {},
        Ok(arguments) => {
            let names0 = Names { arguments, inputs: Seq::empty(), outputs: Seq::empty() };
            lemma_after_statements_sound(bytes, names0, query.statements, 0);
            match after_statements(bytes, names0, query.statements, 0) {
                Err(_) => {},
                Ok(names) => {
                    match query.annotation.arguments {
                        ArgTypeView::Struct { fields, .. } => {
                            lemma_fields_resolvable(bytes, fields, names.inputs);
                        },
                        ArgTypeView::Args(_) => {
                            if names.inputs.len() > 0 {
                                assert(names.inputs[0].all(resolvable_in(bytes)));
                            }
                        },
                    }
                    if names.outputs.len() > 0 {
                        assert(names.outputs[0].all(resolvable_in(bytes)));
                    }
                    match query.annotation.result_type.row_type() {
                        Some(ComplexTypeView::Struct(_, fields)) => {
                            let all = fields + names.outputs;
                            assert forall|k: int| 0 <= k < all.len() implies (#[trigger] all[k]).all(
                                resolvable_in(bytes),
                            ) by {
                                if k < fields.len() {
                                    assert(all[k] == fields[k]);
                                } else {
                                    assert(all[k] == names.outputs[k - fields.len()]);
                                }
                            }
                        },
                        _ => {},
                    }
                },
            }
        },
    }
}

/// Resolving the types of sound sections gives sound sections.
pub proof fn lemma_resolved_sections_sound(
    bytes: Seq<u8>,
    sections: Seq<SectionView<Span>>,
    i: int,
    acc: Seq<SectionView<Span>>,
)
    requires
        valid_utf8(bytes),
        bytes.len() <= usize::MAX,
        0 <= i,
        sections_sound(bytes, sections),
        sections_sound(bytes, acc),
    ensures
        match resolved_sections(bytes, sections, i, acc) {
            Ok(all) => sections_sound(bytes, all),
            Err(e) => type_located(e, bytes.len()),
        },
    decreases sections.len() - i,
{
    if i < sections.len() {
        assert(section_sound(bytes, sections[i]));
        match sections[i] {
            SectionView::Verbatim(span) => {
                let more = acc.push(SectionView::Verbatim(span));
                assert forall|k: int| 0 <= k < more.len() implies section_sound(
                    bytes,
                    #[trigger] more[k],
                ) by {
                    if k < acc.len() {
                        assert(more[k] == acc[k]);
                    }
                }
                lemma_resolved_sections_sound(bytes, sections, i + 1, more);
            },
            SectionView::Query(query) => {
                lemma_resolved_sound(bytes, query);
                match resolved(bytes, query) {
                    Err(_) => {},
                    Ok(checked) => {
                        let more = acc.push(SectionView::Query(checked));
                        assert forall|k: int| 0 <= k < more.len() implies section_sound(
                            bytes,
                            #[trigger] more[k],
                        ) by {
                            if k < acc.len() {
                                assert(more[k] == acc[k]);
                            }
                        }
                        lemma_resolved_sections_sound(bytes, sections, i + 1, more);
                    },
                }
            },
        }
    }
}

/// Resolving the types of a
/// sound document gives a sound document, or an error that points into the
/// input.
pub proof fn lemma_resolved_document_sound(bytes: Seq<u8>, document: DocumentView<Span>)
    requires
        valid_utf8(bytes),
        bytes.len() <= usize::MAX,
        sections_sound(bytes, document.sections),
    ensures
        match resolved_document(bytes, document) {
            Ok(checked) => sections_sound(bytes, checked.sections),
            Err(e) => type_located(e, bytes.len()),
        },
{
    lemma_resolved_sections_sound(bytes, document.sections, 0, Seq::empty());
}

/// Resolving the types of sections keeps them where they are: sections
/// that tile the tokens between some cuts still do so afterwards.
pub proof fn lemma_resolved_sections_tile(
    bytes: Seq<u8>,
    tokens: Seq<(Token, Span)>,
    sections: Seq<SectionView<Span>>,
    i: int,
    acc: Seq<SectionView<Span>>,
    cuts: Seq<int>,
)
    requires
        0 <= i <= sections.len(),
        acc.len() == i,
        sections_tile(tokens, sections, cuts),
        forall|k: int| 0 <= k < i ==> section_spans(tokens, #[trigger] acc[k], cuts[k], cuts[k + 1]),
    ensures
        resolved_sections(bytes, sections, i, acc) matches Ok(all) ==> sections_tile(
            tokens,
            all,
            cuts,
        ),
    decreases sections.len() - i,
{
    if i < sections.len() {
        assert(section_spans(tokens, sections[i], cuts[i], cuts[i + 1]));
        match sections[i] {
            SectionView::Verbatim(span) => {
                let more = acc.push(SectionView::Verbatim(span));
                assert forall|k: int| 0 <= k < i + 1 implies section_spans(
                    tokens,
                    #[trigger] more[k],
                    cuts[k],
                    cuts[k + 1],
                ) by {
                    if k < i {
                        assert(more[k] == acc[k]);
                    }
                }
                lemma_resolved_sections_tile(bytes, tokens, sections, i + 1, more, cuts);
            },
            SectionView::Query(query) => {
                match resolved(bytes, query) {
                    Err(_) => {},
                    Ok(checked) => {
                        assert(checked.statements == query.statements);
                        assert(query_within(tokens, checked, cuts[i], cuts[i + 1]));
                        let more = acc.push(SectionView::Query(checked));
                        assert forall|k: int| 0 <= k < i + 1 implies section_spans(
                            tokens,
                            #[trigger] more[k],
                            cuts[k],
                            cuts[k + 1],
                        ) by {
                            if k < i {
                                assert(more[k] == acc[k]);
                            }
                        }
                        lemma_resolved_sections_tile(bytes, tokens, sections, i + 1, more, cuts);
                    },
                }
            },
        }
    }
}

/// In a document whose types are resolved, the
/// sections still tile the tokens.
pub proof fn lemma_resolved_document_tiles(
    bytes: Seq<u8>,
    tokens: Seq<(Token, Span)>,
    document: DocumentView<Span>,
    at: int,
)
    requires
        document_tiles(tokens, document.sections, at),
    ensures
        resolved_document(bytes, document) matches Ok(checked) ==> document_tiles(
            tokens,
            checked.sections,
            at,
        ),
{
    let cuts = choose|cuts: Seq<int>| #[trigger]
        sections_tile(tokens, document.sections, cuts) && cuts[0] == at && (at < tokens.len()
            ==> cuts.last() == tokens.len());
    lemma_resolved_sections_tile(bytes, tokens, document.sections, 0, Seq::empty(), cuts);
    match resolved_document(bytes, document) {
        Err(_) => {},
        Ok(checked) => {
            assert(sections_tile(tokens, checked.sections, cuts) && cuts[0] == at && (at
                < tokens.len() ==> cuts.last() == tokens.len()));
        },
    }
}

} // verus!
