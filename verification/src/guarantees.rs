//! What becomes of a request, said of documents and responses alone: each refusal with the
//! documents that it meets, and the operation that runs where there is none.

use vstd::prelude::*;

use crate::cycles::{
    fragments_on_path, law_reported_cycle_is_there, lemma_scan_fragment_exact, name_returns,
    scan_fragment, sound_fragment, sound_fragments, FragmentFault, FragmentScan,
};
use crate::depth::{fields_on_path, nests_within, MAX_SELECTION_DEPTH};
use crate::document::{
    Definition, FragmentDefinition, Mutation, OperationDefinition, Query, Selection,
};
use crate::request::{
    chosen, dispatched, execution_of, first_fault, fragments_of, law_cyclic_document_runs_nothing,
    law_every_definition_is_kept, lemma_first_fault, lemma_first_of_name, operation_text,
    operation_texts, operations_of, resolution, ExecutionView, ResolutionView,
};
use crate::response::Omit;

verus! {

/// The operation is a query or a mutation that is written with that name.
pub open spec fn declares(operation: OperationDefinition, name: Seq<char>) -> bool {
    match operation {
        OperationDefinition::Query(query) => query.name matches Some(n) && n@ == name,
        OperationDefinition::Mutation(mutation) => mutation.name matches Some(n) && n@ == name,
        _ => false,
    }
}

/// The operation has no name by which it could be asked for.
pub open spec fn anonymous(operation: OperationDefinition) -> bool {
    match operation {
        OperationDefinition::Query(query) => query.name is None,
        OperationDefinition::Mutation(mutation) => mutation.name is None,
        _ => true,
    }
}

/// An anonymous operation stands beside another.
pub open spec fn crowded(operations: Seq<OperationDefinition>) -> bool {
    operations.len() > 1 && exists|i: int|
        0 <= i < operations.len() && #[trigger] anonymous(operations[i])
}

/// Two operations are written with one name.
pub open spec fn clashing(operations: Seq<OperationDefinition>) -> bool {
    exists|i: int, j: int, name: Seq<char>|
        0 <= i < j < operations.len() && #[trigger] declares(operations[i], name)
            && #[trigger] declares(operations[j], name)
}

/// The operation is the one asked for: it is written with the name that is given, or it is
/// the only one and no name is given.
pub open spec fn asked_for(
    operations: Seq<OperationDefinition>,
    wanted: Option<Seq<char>>,
    i: int,
) -> bool {
    &&& 0 <= i < operations.len()
    &&& match wanted {
        Some(name) => declares(operations[i], name),
        None => operations.len() == 1,
    }
}

/// The request is answered with that error alone, and without data.
pub open spec fn turned_away(resolution: ResolutionView, text: Seq<char>) -> bool {
    &&& resolution matches ResolutionView::Respond(response)
    &&& response.data is Omitted
    &&& response.errors matches Omit::Present(errors)
    &&& errors.len() == 1
    &&& errors[0] == text
}

/// Some way down into the selections meets as many fields as the maximum depth, or more.
pub open spec fn too_deep(items: Seq<Selection>, fragments: Seq<FragmentDefinition>) -> bool {
    exists|path: Seq<int>| #[trigger]
        fields_on_path(items, fragments, path) >= MAX_SELECTION_DEPTH
}

/// The operation selects fields, and some of them nest too deeply.
pub open spec fn selects_too_deep(
    operation: OperationDefinition,
    fragments: Seq<FragmentDefinition>,
) -> bool {
    match operation {
        OperationDefinition::SelectionSet(selection_set) => too_deep(
            selection_set.items@,
            fragments,
        ),
        OperationDefinition::Query(query) => too_deep(query.selection_set.items@, fragments),
        OperationDefinition::Mutation(mutation) => too_deep(
            mutation.selection_set.items@,
            fragments,
        ),
        OperationDefinition::Subscription(_) => false,
    }
}

/// The run is that of the operation: of its selections, on the root type of its kind, under
/// the variable definitions that it declares and under every fragment of the document.
pub open spec fn runs(
    execution: ExecutionView,
    operations: Seq<OperationDefinition>,
    fragments: Seq<FragmentDefinition>,
    i: int,
) -> bool {
    &&& execution.operation == i
    &&& execution.fragment_definitions == fragments
    &&& match operations[i] {
        OperationDefinition::SelectionSet(selection_set) => {
            &&& execution.root is Query
            &&& execution.selection_set == selection_set
            &&& execution.variable_definitions.len() == 0
        },
        OperationDefinition::Query(query) => {
            &&& execution.root is Query
            &&& execution.selection_set == query.selection_set
            &&& execution.variable_definitions == query.variable_definitions@
        },
        OperationDefinition::Mutation(mutation) => {
            &&& execution.root is Mutation
            &&& execution.selection_set == mutation.selection_set
            &&& execution.variable_definitions == mutation.variable_definitions@
        },
        OperationDefinition::Subscription(_) => false,
    }
}

/// The messages of the refusals are different: all but two in length, and those two in their
/// first character.
proof fn lemma_messages_differ()
    ensures
        "variables must be an object"@.len() == 27,
        "Anonymous operations must be the only defined operation"@.len() == 55,
        "Operation names must be unique"@.len() == 30,
        "Found a cycle between fragments"@.len() == 31,
        "Fragment cycle depth is greater than 50"@.len() == 39,
        "Operation not found"@.len() == 19,
        "Subscriptions are not supported"@.len() == 31,
        "Query selection depth exceeds the maximum allowed depth of 32"@.len() == 61,
        "Found a cycle between fragments"@[0] == 'F',
        "Subscriptions are not supported"@[0] == 'S',
{
    reveal_strlit("variables must be an object");
    reveal_strlit("Anonymous operations must be the only defined operation");
    reveal_strlit("Operation names must be unique");
    reveal_strlit("Found a cycle between fragments");
    reveal_strlit("Fragment cycle depth is greater than 50");
    reveal_strlit("Operation not found");
    reveal_strlit("Subscriptions are not supported");
    reveal_strlit("Query selection depth exceeds the maximum allowed depth of 32");
}

/// What the names of the operations come to.
proof fn lemma_names(operations: Seq<OperationDefinition>, wanted: Option<Seq<char>>)
    ensures
        ({
            let names = operation_texts(operations);
            &&& names.len() == operations.len()
            &&& (names.len() > 1 && names.contains(None)) <==> crowded(operations)
            &&& !crowded(operations) ==> (names.no_duplicates() <==> !clashing(operations))
            &&& !crowded(operations) && !clashing(operations) ==> forall|i: int|
                chosen(names, wanted) == Some(i) <==> #[trigger] asked_for(operations, wanted, i)
            &&& chosen(names, wanted) matches Some(i) ==> 0 <= i < operations.len()
        }),
{
    let names = operation_texts(operations);
    lemma_first_of_name(names, wanted);
    assert forall|i: int| 0 <= i < operations.len() implies (#[trigger] names[i] is None
        <==> anonymous(operations[i])) && forall|name: Seq<char>|
        names[i] == Some(name) <==> #[trigger] declares(operations[i], name) by {
        assert(names[i] == operation_text(operations[i]));
    }
    if crowded(operations) {
        let i = choose|i: int| 0 <= i < operations.len() && #[trigger] anonymous(operations[i]);
        assert(names[i] is None);
    }
    if names.len() > 1 && names.contains(None) {
        let i = choose|i: int| 0 <= i < names.len() && names[i] == None::<Seq<char>>;
        assert(anonymous(operations[i]));
    }
    if !crowded(operations) {
        if clashing(operations) {
            let (i, j, name) = choose|i: int, j: int, name: Seq<char>|
                0 <= i < j < operations.len() && #[trigger] declares(operations[i], name)
                    && #[trigger] declares(operations[j], name);
            assert(names[i] == Some(name) && names[j] == Some(name));
        } else {
            assert forall|i: int, j: int| 0 <= i < j < names.len() implies names[i] != names[j] by {
                assert(!anonymous(operations[i]));
                assert(names[i] is Some);
                assert(declares(operations[i], names[i]->0));
                if names[i] == names[j] {
                    assert(declares(operations[j], names[i]->0));
                }
            }
            assert forall|i: int|
                chosen(names, wanted) == Some(i) <==> #[trigger] asked_for(
                    operations,
                    wanted,
                    i,
                ) by {
                if asked_for(operations, wanted, i) {
                    if let Some(name) = wanted {
                        assert(names[i] == Some(name));
                    }
                }
                if chosen(names, wanted) == Some(i) {
                    match wanted {
                        Some(name) => {
                            assert(declares(operations[i], name));
                        },
                        None => {
                            if names.len() != 1 {
                                assert(anonymous(operations[i]));
                            }
                        },
                    }
                }
            }
        }
    }
}

/// Nesting within the limit is the absence of a way that is too deep.
proof fn lemma_too_deep(items: Seq<Selection>, fragments: Seq<FragmentDefinition>)
    ensures
        nests_within(items, fragments, MAX_SELECTION_DEPTH - 1) <==> !too_deep(items, fragments),
{
    if nests_within(items, fragments, MAX_SELECTION_DEPTH - 1) {
        assert forall|path: Seq<int>| !(#[trigger] fields_on_path(items, fragments, path)
            >= MAX_SELECTION_DEPTH) by {
            assert(fields_on_path(items, fragments, path) <= MAX_SELECTION_DEPTH - 1);
        }
    } else {
        let path = choose|path: Seq<int>| #[trigger]
            fields_on_path(items, fragments, path) > MAX_SELECTION_DEPTH - 1;
        assert(fields_on_path(items, fragments, path) >= MAX_SELECTION_DEPTH);
    }
}

/// What becomes of a request whose operation is decided on.
proof fn lemma_dispatched(
    operations: Seq<OperationDefinition>,
    fragments: Seq<FragmentDefinition>,
    i: int,
)
    requires
        0 <= i < operations.len(),
    ensures
        match dispatched(operations, fragments, i) {
            ResolutionView::Execute(execution) => runs(execution, operations, fragments, i)
                && !(operations[i] is Subscription) && !selects_too_deep(operations[i], fragments),
            ResolutionView::Respond(_) => if operations[i] is Subscription {
                turned_away(
                    dispatched(operations, fragments, i),
                    "Subscriptions are not supported"@,
                )
            } else {
                selects_too_deep(operations[i], fragments) && turned_away(
                    dispatched(operations, fragments, i),
                    "Query selection depth exceeds the maximum allowed depth of 32"@,
                )
            },
        },
{
    if let Some(execution) = execution_of(operations[i], fragments, i) {
        lemma_too_deep(execution.selection_set.items@, fragments);
    }
}

/// Everything that [`resolution`] comes to, in the order in which a request is looked at.
proof fn lemma_resolution(
    operations: Seq<OperationDefinition>,
    fragments: Seq<FragmentDefinition>,
    variables_are_object: bool,
    wanted: Option<Seq<char>>,
)
    ensures
        ({
            let r = resolution(operations, fragments, variables_are_object, wanted);
            if !variables_are_object {
                turned_away(r, "variables must be an object"@)
            } else if crowded(operations) {
                turned_away(r, "Anonymous operations must be the only defined operation"@)
            } else if clashing(operations) {
                turned_away(r, "Operation names must be unique"@)
            } else if !sound_fragments(fragments) {
                &&& first_fault(fragments, 0) is Some
                &&& first_fault(fragments, 0) == Some(FragmentFault::Cycle) ==> turned_away(
                    r,
                    "Found a cycle between fragments"@,
                )
                &&& first_fault(fragments, 0) == Some(FragmentFault::TooDeep) ==> turned_away(
                    r,
                    "Fragment cycle depth is greater than 50"@,
                )
            } else {
                &&& (forall|i: int| !#[trigger] asked_for(operations, wanted, i)) ==> turned_away(
                    r,
                    "Operation not found"@,
                )
                &&& forall|i: int| #[trigger]
                    asked_for(operations, wanted, i) ==> r == dispatched(operations, fragments, i)
            }
        }),
{
    lemma_names(operations, wanted);
    lemma_first_fault(fragments, 0);
    let names = operation_texts(operations);
    if variables_are_object && !crowded(operations) && !clashing(operations) && sound_fragments(
        fragments,
    ) {
        if chosen(names, wanted) is Some {
            assert(asked_for(operations, wanted, chosen(names, wanted)->0));
        }
    }
}

/// Nothing is wrong with the document as a whole.
pub open spec fn in_order(
    operations: Seq<OperationDefinition>,
    fragments: Seq<FragmentDefinition>,
) -> bool {
    !crowded(operations) && !clashing(operations) && sound_fragments(fragments)
}

/// Which of its ends a request comes to.
proof fn lemma_decided(
    operations: Seq<OperationDefinition>,
    fragments: Seq<FragmentDefinition>,
    variables_are_object: bool,
    wanted: Option<Seq<char>>,
)
    ensures
        ({
            let r = resolution(operations, fragments, variables_are_object, wanted);
            let goes_on = variables_are_object && in_order(operations, fragments);
            &&& turned_away(r, "variables must be an object"@) <==> !variables_are_object
            &&& turned_away(r, "Anonymous operations must be the only defined operation"@)
                <==> variables_are_object && crowded(operations)
            &&& turned_away(r, "Operation names must be unique"@) <==> variables_are_object
                && !crowded(operations) && clashing(operations)
            &&& turned_away(r, "Found a cycle between fragments"@) <==> variables_are_object
                && !crowded(operations) && !clashing(operations) && first_fault(fragments, 0)
                == Some(FragmentFault::Cycle)
            &&& turned_away(r, "Fragment cycle depth is greater than 50"@)
                <==> variables_are_object && !crowded(operations) && !clashing(operations)
                && first_fault(fragments, 0) == Some(FragmentFault::TooDeep)
            &&& turned_away(r, "Operation not found"@) <==> goes_on && forall|i: int|
                !#[trigger] asked_for(operations, wanted, i)
            &&& turned_away(r, "Subscriptions are not supported"@) <==> goes_on && exists|i: int|
                #[trigger] asked_for(operations, wanted, i) && operations[i] is Subscription
            &&& turned_away(r, "Query selection depth exceeds the maximum allowed depth of 32"@)
                <==> goes_on && exists|i: int| #[trigger]
                asked_for(operations, wanted, i) && selects_too_deep(operations[i], fragments)
            &&& forall|i: int| #[trigger]
                asked_for(operations, wanted, i) && goes_on && !(operations[i] is Subscription)
                    && !selects_too_deep(operations[i], fragments) ==> (r
                    matches ResolutionView::Execute(execution) && runs(
                    execution,
                    operations,
                    fragments,
                    i,
                ))
            &&& r is Execute ==> goes_on && exists|i: int| #[trigger]
                asked_for(operations, wanted, i) && !(operations[i] is Subscription)
                    && !selects_too_deep(operations[i], fragments)
        }),
{
    lemma_messages_differ();
    lemma_resolution(operations, fragments, variables_are_object, wanted);
    lemma_first_fault(fragments, 0);
    if variables_are_object && in_order(operations, fragments) {
        if exists|i: int| #[trigger] asked_for(operations, wanted, i) {
            let i = choose|i: int| #[trigger] asked_for(operations, wanted, i);
            lemma_dispatched(operations, fragments, i);
            lemma_names(operations, wanted);
            assert forall|j: int| #[trigger] asked_for(operations, wanted, j) implies j == i by {
                assert(chosen(operation_texts(operations), wanted) == Some(i));
                assert(chosen(operation_texts(operations), wanted) == Some(j));
            }
        }
    }
}

/// A request is told that its variables must be an object exactly where they are not one,
/// whatever else is wrong with it.
pub proof fn law_variables_must_be_an_object(
    operations: Seq<OperationDefinition>,
    fragments: Seq<FragmentDefinition>,
    variables_are_object: bool,
    wanted: Option<Seq<char>>,
)
    ensures
        turned_away(
            resolution(operations, fragments, variables_are_object, wanted),
            "variables must be an object"@,
        ) <==> !variables_are_object,
{
    lemma_decided(operations, fragments, variables_are_object, wanted);
}

/// A request is told that an anonymous operation must stand alone exactly where one stands
/// beside another operation. Of the operations only queries and mutations can have a name.
pub proof fn law_anonymous_operation_stands_alone(
    operations: Seq<OperationDefinition>,
    fragments: Seq<FragmentDefinition>,
    variables_are_object: bool,
    wanted: Option<Seq<char>>,
)
    requires
        variables_are_object,
    ensures
        turned_away(
            resolution(operations, fragments, variables_are_object, wanted),
            "Anonymous operations must be the only defined operation"@,
        ) <==> operations.len() > 1 && exists|i: int|
            0 <= i < operations.len() && #[trigger] anonymous(operations[i]),
{
    lemma_decided(operations, fragments, variables_are_object, wanted);
}

/// A request is told that names must be unique exactly where two operations are written with
/// one name. Names that differ anywhere do not clash.
pub proof fn law_only_equal_names_clash(
    operations: Seq<OperationDefinition>,
    fragments: Seq<FragmentDefinition>,
    variables_are_object: bool,
    wanted: Option<Seq<char>>,
)
    requires
        variables_are_object,
        !crowded(operations),
    ensures
        turned_away(
            resolution(operations, fragments, variables_are_object, wanted),
            "Operation names must be unique"@,
        ) <==> exists|i: int, j: int, name: Seq<char>|
            0 <= i < j < operations.len() && #[trigger] declares(operations[i], name)
                && #[trigger] declares(operations[j], name),
{
    lemma_decided(operations, fragments, variables_are_object, wanted);
}

/// A document is refused for its fragments exactly where one of them is not sound, whichever
/// operation is asked for.
pub proof fn law_unsound_fragments_are_refused(
    operations: Seq<OperationDefinition>,
    fragments: Seq<FragmentDefinition>,
    variables_are_object: bool,
    wanted: Option<Seq<char>>,
)
    requires
        variables_are_object,
        !crowded(operations),
        !clashing(operations),
    ensures
        turned_away(
            resolution(operations, fragments, variables_are_object, wanted),
            "Found a cycle between fragments"@,
        ) || turned_away(
            resolution(operations, fragments, variables_are_object, wanted),
            "Fragment cycle depth is greater than 50"@,
        ) <==> !sound_fragments(fragments),
{
    lemma_decided(operations, fragments, variables_are_object, wanted);
    lemma_first_fault(fragments, 0);
}

/// The first fragment that is not sound decides which fault is told.
pub proof fn law_first_unsound_fragment_is_told(
    operations: Seq<OperationDefinition>,
    fragments: Seq<FragmentDefinition>,
    variables_are_object: bool,
    wanted: Option<Seq<char>>,
    m: int,
)
    requires
        variables_are_object,
        !crowded(operations),
        !clashing(operations),
        0 <= m < fragments.len(),
        forall|j: int|
            0 <= j < m ==> #[trigger] sound_fragment(fragments[j], Set::empty(), fragments, 1),
    ensures
        scan_fragment(fragments[m], Set::empty(), fragments, 1) matches FragmentScan::Fault {
            fault: FragmentFault::Cycle,
            ..
        } ==> turned_away(
            resolution(operations, fragments, variables_are_object, wanted),
            "Found a cycle between fragments"@,
        ),
        scan_fragment(fragments[m], Set::empty(), fragments, 1) matches FragmentScan::Fault {
            fault: FragmentFault::TooDeep,
            ..
        } ==> turned_away(
            resolution(operations, fragments, variables_are_object, wanted),
            "Fragment cycle depth is greater than 50"@,
        ),
{
    lemma_decided(operations, fragments, variables_are_object, wanted);
    lemma_fault_after_sound(fragments, 0, m);
}

/// A request that is told of a cycle has one: a fragment from which some way leads back to
/// its own name.
pub proof fn law_told_cycle_is_there(
    operations: Seq<OperationDefinition>,
    fragments: Seq<FragmentDefinition>,
    variables_are_object: bool,
    wanted: Option<Seq<char>>,
)
    requires
        turned_away(
            resolution(operations, fragments, variables_are_object, wanted),
            "Found a cycle between fragments"@,
        ),
    ensures
        exists|k: int, path: Seq<int>|
            0 <= k < fragments.len() && #[trigger] name_returns(fragments, k, path),
{
    lemma_decided(operations, fragments, variables_are_object, wanted);
    let m = lemma_first_fault_of(fragments, 0);
    law_reported_cycle_is_there(fragments, m);
}

/// A request is told that its operation is not found exactly where nothing else is wrong and
/// no operation is the one asked for: none is written with the whole name that is given, or
/// no name is given and the document has not just one operation.
pub proof fn law_not_found_is_told(
    operations: Seq<OperationDefinition>,
    fragments: Seq<FragmentDefinition>,
    variables_are_object: bool,
    wanted: Option<Seq<char>>,
)
    requires
        variables_are_object,
        in_order(operations, fragments),
    ensures
        turned_away(
            resolution(operations, fragments, variables_are_object, wanted),
            "Operation not found"@,
        ) <==> match wanted {
            Some(name) => forall|i: int|
                0 <= i < operations.len() ==> !#[trigger] declares(operations[i], name),
            None => operations.len() != 1,
        },
{
    lemma_decided(operations, fragments, variables_are_object, wanted);
    match wanted {
        Some(name) => {
            if forall|i: int| !#[trigger] asked_for(operations, wanted, i) {
                assert forall|i: int| 0 <= i < operations.len() implies !#[trigger] declares(
                    operations[i],
                    name,
                ) by {
                    assert(!asked_for(operations, wanted, i));
                }
            }
        },
        None => {
            if operations.len() == 1 {
                assert(asked_for(operations, wanted, 0));
            }
        },
    }
}

/// A request is told that subscriptions are not supported exactly where nothing else is wrong
/// and the operation asked for is one, however deeply it nests.
pub proof fn law_subscriptions_are_refused(
    operations: Seq<OperationDefinition>,
    fragments: Seq<FragmentDefinition>,
    variables_are_object: bool,
    wanted: Option<Seq<char>>,
)
    requires
        variables_are_object,
        in_order(operations, fragments),
    ensures
        turned_away(
            resolution(operations, fragments, variables_are_object, wanted),
            "Subscriptions are not supported"@,
        ) <==> exists|i: int| #[trigger]
            asked_for(operations, wanted, i) && operations[i] is Subscription,
{
    lemma_decided(operations, fragments, variables_are_object, wanted);
}

/// A request is told of too much depth exactly where nothing else is wrong and some way down
/// into the operation asked for meets as many fields as the maximum, or more. How many fields
/// stand side by side has no part in it.
pub proof fn law_depth_refusal_is_exact(
    operations: Seq<OperationDefinition>,
    fragments: Seq<FragmentDefinition>,
    variables_are_object: bool,
    wanted: Option<Seq<char>>,
)
    requires
        variables_are_object,
        in_order(operations, fragments),
    ensures
        turned_away(
            resolution(operations, fragments, variables_are_object, wanted),
            "Query selection depth exceeds the maximum allowed depth of 32"@,
        ) <==> exists|i: int| #[trigger]
            asked_for(operations, wanted, i) && selects_too_deep(operations[i], fragments),
{
    lemma_decided(operations, fragments, variables_are_object, wanted);
}

/// Where nothing is wrong with a request, the operation asked for runs: its selections, on the
/// root type of its kind, under its variable definitions and every fragment of the document.
pub proof fn law_sound_operation_runs(
    operations: Seq<OperationDefinition>,
    fragments: Seq<FragmentDefinition>,
    variables_are_object: bool,
    wanted: Option<Seq<char>>,
    i: int,
)
    requires
        variables_are_object,
        in_order(operations, fragments),
        asked_for(operations, wanted, i),
        !(operations[i] is Subscription),
        !selects_too_deep(operations[i], fragments),
    ensures
        resolution(
            operations,
            fragments,
            variables_are_object,
            wanted,
        ) matches ResolutionView::Execute(execution) && runs(execution, operations, fragments, i),
{
    lemma_decided(operations, fragments, variables_are_object, wanted);
}

/// Nothing runs but the operation asked for, and that only where nothing is wrong.
pub proof fn law_nothing_else_runs(
    operations: Seq<OperationDefinition>,
    fragments: Seq<FragmentDefinition>,
    variables_are_object: bool,
    wanted: Option<Seq<char>>,
)
    requires
        resolution(operations, fragments, variables_are_object, wanted) is Execute,
    ensures
        variables_are_object,
        in_order(operations, fragments),
        exists|i: int| #[trigger]
            asked_for(operations, wanted, i) && !(operations[i] is Subscription)
                && !selects_too_deep(operations[i], fragments) && runs(
                resolution(operations, fragments, variables_are_object, wanted)->Execute_0,
                operations,
                fragments,
                i,
            ),
{
    lemma_decided(operations, fragments, variables_are_object, wanted);
}

/// Every request comes to one of its ends: it is refused with one of the messages, or it runs.
pub proof fn law_every_request_ends(
    operations: Seq<OperationDefinition>,
    fragments: Seq<FragmentDefinition>,
    variables_are_object: bool,
    wanted: Option<Seq<char>>,
)
    ensures
        ({
            let r = resolution(operations, fragments, variables_are_object, wanted);
            ||| r is Execute
            ||| turned_away(r, "variables must be an object"@)
            ||| turned_away(r, "Anonymous operations must be the only defined operation"@)
            ||| turned_away(r, "Operation names must be unique"@)
            ||| turned_away(r, "Found a cycle between fragments"@)
            ||| turned_away(r, "Fragment cycle depth is greater than 50"@)
            ||| turned_away(r, "Operation not found"@)
            ||| turned_away(r, "Subscriptions are not supported"@)
            ||| turned_away(r, "Query selection depth exceeds the maximum allowed depth of 32"@)
        }),
{
    lemma_decided(operations, fragments, variables_are_object, wanted);
    lemma_first_fault(fragments, 0);
}

/// Where nothing is wrong with a document, a query that is written in it with a name, wherever
/// it stands among the definitions, runs when that name is asked for, unless it nests too
/// deeply.
pub proof fn law_written_query_runs_by_its_name(
    definitions: Seq<Definition>,
    d: int,
    query: Query,
    name: String,
)
    requires
        0 <= d < definitions.len(),
        definitions[d] == Definition::Operation(OperationDefinition::Query(query)),
        query.name == Some(name),
        in_order(operations_of(definitions), fragments_of(definitions)),
        !too_deep(query.selection_set.items@, fragments_of(definitions)),
    ensures
        resolution(
            operations_of(definitions),
            fragments_of(definitions),
            true,
            Some(name@),
        ) matches ResolutionView::Execute(execution) && execution.root is Query
            && execution.selection_set == query.selection_set && execution.variable_definitions
            == query.variable_definitions@ && execution.fragment_definitions == fragments_of(
            definitions,
        ),
{
    let operations = operations_of(definitions);
    let fragments = fragments_of(definitions);
    law_every_definition_is_kept(definitions, d);
    let i = choose|i: int|
        0 <= i < operations.len() && operations[i] == OperationDefinition::Query(query);
    assert(asked_for(operations, Some(name@), i));
    law_sound_operation_runs(operations, fragments, true, Some(name@), i);
}

/// The same of a mutation.
pub proof fn law_written_mutation_runs_by_its_name(
    definitions: Seq<Definition>,
    d: int,
    mutation: Mutation,
    name: String,
)
    requires
        0 <= d < definitions.len(),
        definitions[d] == Definition::Operation(OperationDefinition::Mutation(mutation)),
        mutation.name == Some(name),
        in_order(operations_of(definitions), fragments_of(definitions)),
        !too_deep(mutation.selection_set.items@, fragments_of(definitions)),
    ensures
        resolution(
            operations_of(definitions),
            fragments_of(definitions),
            true,
            Some(name@),
        ) matches ResolutionView::Execute(execution) && execution.root is Mutation
            && execution.selection_set == mutation.selection_set && execution.variable_definitions
            == mutation.variable_definitions@ && execution.fragment_definitions == fragments_of(
            definitions,
        ),
{
    let operations = operations_of(definitions);
    let fragments = fragments_of(definitions);
    law_every_definition_is_kept(definitions, d);
    let i = choose|i: int|
        0 <= i < operations.len() && operations[i] == OperationDefinition::Mutation(mutation);
    assert(asked_for(operations, Some(name@), i));
    law_sound_operation_runs(operations, fragments, true, Some(name@), i);
}

/// A document in which a fragment spreads itself runs nothing, wherever the fragment stands
/// among the definitions and whether or not it is used: before the first operation too.
pub proof fn law_written_cycle_runs_nothing(
    definitions: Seq<Definition>,
    d: int,
    fragment: FragmentDefinition,
    path: Seq<int>,
    variables_are_object: bool,
    wanted: Option<Seq<char>>,
)
    requires
        0 <= d < definitions.len(),
        definitions[d] == Definition::Fragment(fragment),
        fragments_on_path(
            fragment.selection_set.items@,
            fragments_of(definitions),
            path,
        ).contains(fragment.name@),
    ensures
        resolution(
            operations_of(definitions),
            fragments_of(definitions),
            variables_are_object,
            wanted,
        ) is Respond,
{
    let operations = operations_of(definitions);
    let fragments = fragments_of(definitions);
    law_every_definition_is_kept(definitions, d);
    let i = choose|i: int| 0 <= i < fragments.len() && fragments[i] == fragment;
    law_cyclic_document_runs_nothing(
        operations,
        fragments,
        variables_are_object,
        wanted,
        i,
        path,
    );
}

/// The fault of the first fragment from the index on that has one.
proof fn lemma_first_fault_of(fragments: Seq<FragmentDefinition>, from: int) -> (m: int)
    requires
        0 <= from,
        first_fault(fragments, from) is Some,
    ensures
        from <= m < fragments.len(),
        scan_fragment(fragments[m], Set::empty(), fragments, 1) matches FragmentScan::Fault {
            fault,
            ..
        } && first_fault(fragments, from) == Some(fault),
    decreases fragments.len() - from,
{
    if scan_fragment(fragments[from], Set::empty(), fragments, 1) is Clear {
        lemma_first_fault_of(fragments, from + 1)
    } else {
        from
    }
}

/// Sound fragments are passed over in the search for the first fault.
proof fn lemma_fault_after_sound(fragments: Seq<FragmentDefinition>, from: int, m: int)
    requires
        0 <= from <= m < fragments.len(),
        forall|j: int|
            from <= j < m ==> #[trigger] sound_fragment(fragments[j], Set::empty(), fragments, 1),
    ensures
        first_fault(fragments, from) == first_fault(fragments, m),
    decreases m - from,
{
    if from < m {
        lemma_scan_fragment_exact(fragments[from], Set::empty(), fragments, 1);
        assert(sound_fragment(fragments[from], Set::empty(), fragments, 1));
        lemma_fault_after_sound(fragments, from + 1, m);
    }
}

} // verus!
