//! From the operation that is to run to the query or the mutation that carries it out.

use vstd::prelude::*;

use crate::document::{
    Field, FragmentDefinition, Mutation, OperationDefinition, Query, SelectionSet,
    VariableDefinition,
};
use crate::error::GraphQLResult;
use crate::fields::FieldOutcome;
use crate::mutation::{
    mutation_run, mutation_start, resolve_mutation_selection_set, MutationStep, MutationStepView,
};
use crate::query::{query_run, query_start, resolve_selection_set, QueryStep, QueryStepView};
use crate::request::{
    law_only_sound_operations_run, mutation_execution, query_execution, resolution,
    selection_set_execution, Execution, ExecutionView, ResolutionView, RootType,
};
use crate::schema::ObjectType;

verus! {

/// What an operation does next.
pub enum OperationStep {
    Query(QueryStep),
    Mutation(MutationStep),
}

/// What an operation does next, as the contracts speak of it.
pub enum OperationStepView {
    Query(QueryStepView),
    Mutation(MutationStepView),
}

impl View for OperationStep {
    type V = OperationStepView;

    open spec fn view(&self) -> OperationStepView {
        match self {
            OperationStep::Query(step) => OperationStepView::Query(step@),
            OperationStep::Mutation(step) => OperationStepView::Mutation(step@),
        }
    }
}

/// The name of the root type on which the operation selects fields, where the schema has it.
pub open spec fn root_text(
    root: RootType,
    query_type: ObjectType,
    mutation_type: Option<ObjectType>,
) -> Option<Seq<char>> {
    match root {
        RootType::Query => Some(query_type@.name),
        RootType::Mutation => match mutation_type {
            Some(mutation_type) => Some(mutation_type@.name),
            None => None,
        },
    }
}

/// The name of the root type on which the operation selects fields. A schema may have no
/// mutation root.
pub fn root_name(
    execution: &Execution,
    query_type: &ObjectType,
    mutation_type: &Option<ObjectType>,
) -> (r: Option<String>)
    ensures
        match r {
            Some(name) => root_text(execution.root, *query_type, *mutation_type) == Some(name@),
            None => root_text(execution.root, *query_type, *mutation_type) is None,
        },
{
    match execution.root {
        RootType::Query => Some(query_type.name().clone()),
        RootType::Mutation => match mutation_type {
            Some(mutation_type) => Some(mutation_type.name().clone()),
            None => None,
        },
    }
}

/// How an operation begins, given the selections on its root type after fragments and
/// directives are resolved, or the error that this met.
pub open spec fn operation_start(
    root: RootType,
    query_type: ObjectType,
    mutation_type: Option<ObjectType>,
    selections: GraphQLResult<Vec<Field>>,
) -> OperationStepView {
    match root {
        RootType::Query => OperationStepView::Query(query_start(query_type, selections)),
        RootType::Mutation => OperationStepView::Mutation(
            mutation_start(
                match mutation_type {
                    Some(mutation_type) => Some((mutation_type, selections)),
                    None => None,
                },
            ),
        ),
    }
}

/// Begins to carry out an operation. The selections are those of its selection set on its root
/// type, after fragments and directives are resolved, or the error that this met; without the
/// root type they are not looked at.
pub fn begin_operation(
    execution: &Execution,
    query_type: ObjectType,
    mutation_type: Option<ObjectType>,
    selections: GraphQLResult<Vec<Field>>,
) -> (r: OperationStep)
    ensures
        r@ == operation_start(execution.root, query_type, mutation_type, selections),
{
    match execution.root {
        RootType::Query => OperationStep::Query(resolve_selection_set(query_type, selections)),
        RootType::Mutation => {
            let root = match mutation_type {
                Some(mutation_type) => Some((mutation_type, selections)),
                None => None,
            };
            OperationStep::Mutation(resolve_mutation_selection_set(root))
        },
    }
}

/// What an operation reads from outside: how a selection set on a type of that name, under
/// those fragments, resolves to fields, and the outcomes of the work behind such fields, under
/// those fragments and variable definitions.
pub struct OutsideReads {
    pub resolved: spec_fn(SelectionSet, Seq<FragmentDefinition>, Seq<char>) -> GraphQLResult<
        Vec<Field>,
    >,
    pub outcomes: spec_fn(
        GraphQLResult<Vec<Field>>,
        Seq<FragmentDefinition>,
        Seq<VariableDefinition>,
    ) -> Seq<FieldOutcome>,
}

/// The answer to a selection set on the query root.
pub open spec fn selection_set_answer(
    selection_set: SelectionSet,
    query_type: ObjectType,
    fragments: Seq<FragmentDefinition>,
    variable_definitions: Seq<VariableDefinition>,
    reads: OutsideReads,
) -> QueryStepView {
    let selections = (reads.resolved)(selection_set, fragments, query_type@.name);
    query_run(
        query_start(query_type, selections),
        (reads.outcomes)(selections, fragments, variable_definitions),
    )
}

/// The end of a selection set on the mutation root.
pub open spec fn mutation_selection_set_end(
    selection_set: SelectionSet,
    mutation_type: Option<ObjectType>,
    fragments: Seq<FragmentDefinition>,
    variable_definitions: Seq<VariableDefinition>,
    reads: OutsideReads,
) -> MutationStepView {
    match mutation_type {
        None => mutation_start(None),
        Some(mutation_type) => {
            let selections = (reads.resolved)(selection_set, fragments, mutation_type@.name);
            mutation_run(
                mutation_start(Some((mutation_type, selections))),
                (reads.outcomes)(selections, fragments, variable_definitions),
            )
        },
    }
}

/// An operation that is handed the outcomes, one each time it asks for work.
pub open spec fn operation_run(
    step: OperationStepView,
    outcomes: Seq<FieldOutcome>,
) -> OperationStepView {
    match step {
        OperationStepView::Query(step) => OperationStepView::Query(query_run(step, outcomes)),
        OperationStepView::Mutation(step) => OperationStepView::Mutation(
            mutation_run(step, outcomes),
        ),
    }
}

/// The end of an operation that begins with what its selection set resolves to on its root
/// type, and is handed the outcomes of the work that it asks for.
pub open spec fn operation_end(
    execution: ExecutionView,
    query_type: ObjectType,
    mutation_type: Option<ObjectType>,
    reads: OutsideReads,
) -> OperationStepView {
    let root = match root_text(execution.root, query_type, mutation_type) {
        Some(root) => root,
        None => Seq::empty(),
    };
    let selections = (reads.resolved)(
        execution.selection_set,
        execution.fragment_definitions,
        root,
    );
    operation_run(
        operation_start(execution.root, query_type, mutation_type, selections),
        (reads.outcomes)(
            selections,
            execution.fragment_definitions,
            execution.variable_definitions,
        ),
    )
}

/// A query is answered as its selection set is on the query root, under the query's variable
/// definitions.
pub proof fn law_query_answers_as_its_selection_set(
    operation: int,
    query: Query,
    fragments: Seq<FragmentDefinition>,
    query_type: ObjectType,
    mutation_type: Option<ObjectType>,
    reads: OutsideReads,
)
    ensures
        operation_end(
            query_execution(operation, query, fragments),
            query_type,
            mutation_type,
            reads,
        ) == OperationStepView::Query(
            selection_set_answer(
                query.selection_set,
                query_type,
                fragments,
                query.variable_definitions@,
                reads,
            ),
        ),
{
}

/// A bare selection set is answered on the query root, under no variable definitions.
pub proof fn law_bare_selection_set_answers(
    operation: int,
    selection_set: SelectionSet,
    fragments: Seq<FragmentDefinition>,
    query_type: ObjectType,
    mutation_type: Option<ObjectType>,
    reads: OutsideReads,
)
    ensures
        operation_end(
            selection_set_execution(operation, selection_set, fragments),
            query_type,
            mutation_type,
            reads,
        ) == OperationStepView::Query(
            selection_set_answer(selection_set, query_type, fragments, Seq::empty(), reads),
        ),
{
}

/// A mutation ends as its selection set does on the mutation root, under the mutation's
/// variable definitions: with the same response or the same raised error.
pub proof fn law_mutation_ends_as_its_selection_set(
    operation: int,
    mutation: Mutation,
    fragments: Seq<FragmentDefinition>,
    query_type: ObjectType,
    mutation_type: Option<ObjectType>,
    reads: OutsideReads,
)
    ensures
        operation_end(
            mutation_execution(operation, mutation, fragments),
            query_type,
            mutation_type,
            reads,
        ) == OperationStepView::Mutation(
            mutation_selection_set_end(
                mutation.selection_set,
                mutation_type,
                fragments,
                mutation.variable_definitions@,
                reads,
            ),
        ),
{
}

/// A request that runs an operation ends as the selection set of that operation does on its
/// root type, under the variable definitions that it declares.
pub proof fn law_request_ends_as_its_selection_set(
    operations: Seq<OperationDefinition>,
    fragments: Seq<FragmentDefinition>,
    variables_are_object: bool,
    wanted: Option<Seq<char>>,
    query_type: ObjectType,
    mutation_type: Option<ObjectType>,
    reads: OutsideReads,
)
    ensures
        resolution(
            operations,
            fragments,
            variables_are_object,
            wanted,
        ) matches ResolutionView::Execute(execution) ==> {
            let end = operation_end(execution, query_type, mutation_type, reads);
            match operations[execution.operation] {
                OperationDefinition::SelectionSet(selection_set) => end
                    == OperationStepView::Query(
                    selection_set_answer(selection_set, query_type, fragments, Seq::empty(), reads),
                ),
                OperationDefinition::Query(query) => end == OperationStepView::Query(
                    selection_set_answer(
                        query.selection_set,
                        query_type,
                        fragments,
                        query.variable_definitions@,
                        reads,
                    ),
                ),
                OperationDefinition::Mutation(mutation) => end == OperationStepView::Mutation(
                    mutation_selection_set_end(
                        mutation.selection_set,
                        mutation_type,
                        fragments,
                        mutation.variable_definitions@,
                        reads,
                    ),
                ),
                OperationDefinition::Subscription(_) => false,
            }
        },
{
    law_only_sound_operations_run(operations, fragments, variables_are_object, wanted);
}

/// The name of a query has no part in its answer.
pub proof fn law_query_name_is_irrelevant(
    operation: int,
    query: Query,
    other: Query,
    fragments: Seq<FragmentDefinition>,
    query_type: ObjectType,
    mutation_type: Option<ObjectType>,
    reads: OutsideReads,
)
    requires
        query.selection_set == other.selection_set,
        query.variable_definitions == other.variable_definitions,
    ensures
        operation_end(
            query_execution(operation, query, fragments),
            query_type,
            mutation_type,
            reads,
        ) == operation_end(
            query_execution(operation, other, fragments),
            query_type,
            mutation_type,
            reads,
        ),
{
}

/// The name of a mutation has no part in how it ends.
pub proof fn law_mutation_name_is_irrelevant(
    operation: int,
    mutation: Mutation,
    other: Mutation,
    fragments: Seq<FragmentDefinition>,
    query_type: ObjectType,
    mutation_type: Option<ObjectType>,
    reads: OutsideReads,
)
    requires
        mutation.selection_set == other.selection_set,
        mutation.variable_definitions == other.variable_definitions,
    ensures
        operation_end(
            mutation_execution(operation, mutation, fragments),
            query_type,
            mutation_type,
            reads,
        ) == operation_end(
            mutation_execution(operation, other, fragments),
            query_type,
            mutation_type,
            reads,
        ),
{
}

/// An operation selects on the root type of its kind, and begins as the query or the mutation of
/// those selections does.
pub proof fn law_operation_begins_on_its_root(
    query_type: ObjectType,
    mutation_type: ObjectType,
    other: Option<ObjectType>,
    selections: GraphQLResult<Vec<Field>>,
)
    ensures
        root_text(RootType::Query, query_type, other) == Some(query_type@.name),
        root_text(RootType::Mutation, query_type, Some(mutation_type)) == Some(mutation_type@.name),
        root_text(RootType::Mutation, query_type, None) is None,
        operation_start(RootType::Query, query_type, other, selections)
            == OperationStepView::Query(query_start(query_type, selections)),
        operation_start(RootType::Mutation, query_type, Some(mutation_type), selections)
            == OperationStepView::Mutation(mutation_start(Some((mutation_type, selections)))),
        operation_start(RootType::Mutation, query_type, None, selections)
            == OperationStepView::Mutation(mutation_start(None)),
{
}

/// A step of an operation is seen as the step of a query or of a mutation that it is.
pub proof fn law_operation_step_is_seen_whole(step: OperationStep)
    ensures
        step matches OperationStep::Query(query) ==> step@ == OperationStepView::Query(query@),
        step matches OperationStep::Mutation(mutation) ==> step@ == OperationStepView::Mutation(
            mutation@,
        ),
{
}

} // verus!
