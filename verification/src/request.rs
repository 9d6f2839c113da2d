//! From a document to the one operation that runs, or to the response that refuses it.

use vstd::prelude::*;

use crate::cycles::{
    detect_fragment_cycles, law_acyclic_fragments_let_the_walk_end,
    law_sound_fragments_are_acyclic, law_sound_fragments_have_no_cycle,
    lemma_scan_fragment_exact, name_returns, scan_fragment, sound_fragment, sound_fragments,
    FragmentFault, FragmentScan, StringHashSet,
};
use crate::depth::{
    depth_text, fields_on_path, nests_within, validate_selection_depth, MAX_SELECTION_DEPTH,
};
use crate::document::{
    Definition, Document, FragmentDefinition, Mutation, OperationDefinition, Query, Selection,
    SelectionSet, VariableDefinition,
};
use crate::error::{ErrorView, GraphQLResult};
use crate::json::json_view;
use crate::names::{all_distinct, any_missing, name_text, name_texts, same_name};
use crate::response::{refusal, refused, GraphQLResponse, Omit, ResponseView};

verus! {

/// The root type whose fields an operation selects.
#[derive(Debug)]
pub enum RootType {
    Query,
    Mutation,
}

/// The operation that is to run: a selection set on a root type, with what its fields are
/// read under.
#[derive(Debug)]
pub struct Execution {
    /// Its index among the operations of the document.
    pub operation: usize,
    pub root: RootType,
    pub selection_set: SelectionSet,
    pub fragment_definitions: Vec<FragmentDefinition>,
    pub variable_definitions: Vec<VariableDefinition>,
}

/// The operation that is to run, as the contracts speak of it.
pub struct ExecutionView {
    pub operation: int,
    pub root: RootType,
    pub selection_set: SelectionSet,
    pub fragment_definitions: Seq<FragmentDefinition>,
    pub variable_definitions: Seq<VariableDefinition>,
}

impl View for Execution {
    type V = ExecutionView;

    open spec fn view(&self) -> ExecutionView {
        ExecutionView {
            operation: self.operation as int,
            root: self.root,
            selection_set: self.selection_set,
            fragment_definitions: self.fragment_definitions@,
            variable_definitions: self.variable_definitions@,
        }
    }
}

/// What becomes of a request.
#[derive(Debug)]
pub enum Resolution {
    /// It is answered without running anything.
    Respond(GraphQLResponse),
    /// One of its operations runs.
    Execute(Execution),
}

/// A resolution as the contracts speak of it.
pub enum ResolutionView {
    Respond(ResponseView),
    Execute(ExecutionView),
}

impl View for Resolution {
    type V = ResolutionView;

    open spec fn view(&self) -> ResolutionView {
        match self {
            Resolution::Respond(response) => ResolutionView::Respond(response@),
            Resolution::Execute(execution) => ResolutionView::Execute(execution@),
        }
    }
}

/// The operations among the definitions, in source order.
pub open spec fn operations_of(definitions: Seq<Definition>) -> Seq<OperationDefinition>
    decreases definitions.len(),
{
    if definitions.len() == 0 {
        Seq::empty()
    } else {
        let before = operations_of(definitions.drop_last());
        match definitions.last() {
            Definition::Operation(operation) => before.push(operation),
            Definition::Fragment(_) => before,
        }
    }
}

/// The fragments among the definitions, in source order.
pub open spec fn fragments_of(definitions: Seq<Definition>) -> Seq<FragmentDefinition>
    decreases definitions.len(),
{
    if definitions.len() == 0 {
        Seq::empty()
    } else {
        let before = fragments_of(definitions.drop_last());
        match definitions.last() {
            Definition::Operation(_) => before,
            Definition::Fragment(fragment) => before.push(fragment),
        }
    }
}

/// Two stretches of definitions have the operations and the fragments of the first, and then
/// those of the second: none is lost, added or moved for what stands around it.
pub proof fn law_definitions_are_split_alike(left: Seq<Definition>, right: Seq<Definition>)
    ensures
        operations_of(left + right) == operations_of(left) + operations_of(right),
        fragments_of(left + right) == fragments_of(left) + fragments_of(right),
    decreases right.len(),
{
    if right.len() == 0 {
        assert(left + right =~= left);
        assert(operations_of(left) + operations_of(right) =~= operations_of(left));
        assert(fragments_of(left) + fragments_of(right) =~= fragments_of(left));
    } else {
        law_definitions_are_split_alike(left, right.drop_last());
        assert((left + right).drop_last() =~= left + right.drop_last());
        assert((left + right).last() == right.last());
        assert(operations_of(left + right) =~= operations_of(left) + operations_of(right));
        assert(fragments_of(left + right) =~= fragments_of(left) + fragments_of(right));
    }
}

/// A definition alone is an operation or a fragment, and the one that it is.
pub proof fn law_definition_is_one_of_its_kind(
    operation: OperationDefinition,
    fragment: FragmentDefinition,
)
    ensures
        operations_of(seq![Definition::Operation(operation)]) == seq![operation],
        fragments_of(seq![Definition::Operation(operation)]).len() == 0,
        operations_of(seq![Definition::Fragment(fragment)]).len() == 0,
        fragments_of(seq![Definition::Fragment(fragment)]) == seq![fragment],
{
    reveal_with_fuel(operations_of, 2);
    reveal_with_fuel(fragments_of, 2);
    assert(seq![Definition::Operation(operation)].drop_last() =~= Seq::empty());
    assert(seq![Definition::Fragment(fragment)].drop_last() =~= Seq::empty());
    assert(operations_of(seq![Definition::Operation(operation)]) =~= seq![operation]);
    assert(fragments_of(seq![Definition::Fragment(fragment)]) =~= seq![fragment]);
}

/// Every definition of a document is kept as what it is, wherever it stands, and nothing is
/// there beside them.
pub proof fn law_every_definition_is_kept(definitions: Seq<Definition>, d: int)
    requires
        0 <= d < definitions.len(),
    ensures
        match definitions[d] {
            Definition::Operation(operation) => operations_of(definitions).contains(operation),
            Definition::Fragment(fragment) => fragments_of(definitions).contains(fragment),
        },
        operations_of(definitions).len() + fragments_of(definitions).len() == definitions.len(),
    decreases definitions.len(),
{
    let before = definitions.drop_last();
    let operations = operations_of(definitions);
    let fragments = fragments_of(definitions);
    if before.len() == 0 {
        reveal_with_fuel(operations_of, 2);
        reveal_with_fuel(fragments_of, 2);
    } else {
        law_every_definition_is_kept(before, if d < before.len() {
            d
        } else {
            0
        });
    }
    if d < before.len() {
        match definitions[d] {
            Definition::Operation(operation) => {
                let i = choose|i: int|
                    0 <= i < operations_of(before).len() && operations_of(before)[i] == operation;
                assert(operations[i] == operation);
            },
            Definition::Fragment(fragment) => {
                let i = choose|i: int|
                    0 <= i < fragments_of(before).len() && fragments_of(before)[i] == fragment;
                assert(fragments[i] == fragment);
            },
        }
    } else {
        match definitions[d] {
            Definition::Operation(operation) => {
                assert(operations[operations.len() - 1] == operation);
            },
            Definition::Fragment(fragment) => {
                assert(fragments[fragments.len() - 1] == fragment);
            },
        }
    }
}

/// The name of an operation. Only queries and mutations are known by a name.
pub open spec fn operation_text(operation: OperationDefinition) -> Option<Seq<char>> {
    match operation {
        OperationDefinition::Query(query) => name_text(query.name),
        OperationDefinition::Mutation(mutation) => name_text(mutation.name),
        _ => None,
    }
}

/// The names of the operations.
pub open spec fn operation_texts(operations: Seq<OperationDefinition>) -> Seq<Option<Seq<char>>> {
    Seq::new(operations.len(), |i: int| operation_text(operations[i]))
}

/// The selections of an operation.
pub open spec fn operation_items(operation: OperationDefinition) -> Seq<Selection> {
    match operation {
        OperationDefinition::SelectionSet(selection_set) => selection_set.items@,
        OperationDefinition::Query(query) => query.selection_set.items@,
        OperationDefinition::Mutation(mutation) => mutation.selection_set.items@,
        OperationDefinition::Subscription(subscription) => subscription.selection_set.items@,
    }
}

/// The index of the first of the names that is the given one.
pub open spec fn first_of_name(
    names: Seq<Option<Seq<char>>>,
    name: Option<Seq<char>>,
) -> Option<int>
    decreases names.len(),
{
    if names.len() == 0 {
        None
    } else if names.first() == name {
        Some(0)
    } else {
        match first_of_name(names.drop_first(), name) {
            Some(i) => Some(i + 1),
            None => None,
        }
    }
}

/// What [`first_of_name`] means: nothing before the index is the name.
pub proof fn lemma_first_of_name(names: Seq<Option<Seq<char>>>, name: Option<Seq<char>>)
    ensures
        match first_of_name(names, name) {
            Some(i) => 0 <= i < names.len() && names[i] == name && forall|j: int|
                0 <= j < i ==> #[trigger] names[j] != name,
            None => forall|j: int| 0 <= j < names.len() ==> #[trigger] names[j] != name,
        },
    decreases names.len(),
{
    if names.len() > 0 {
        let rest = names.drop_first();
        lemma_first_of_name(rest, name);
        assert forall|j: int| 0 < j < names.len() implies #[trigger] names[j] == rest[j - 1] by {}
    }
}

/// The index of the operation that is asked for: the only one where no name is given, else
/// the first of the given name.
pub open spec fn chosen(names: Seq<Option<Seq<char>>>, wanted: Option<Seq<char>>) -> Option<int> {
    if names.len() == 1 && wanted is None {
        Some(0)
    } else {
        first_of_name(names, wanted)
    }
}

/// The fault of the first fragment, from the index on, that has one.
pub open spec fn first_fault(fragments: Seq<FragmentDefinition>, from: int) -> Option<
    FragmentFault,
>
    decreases fragments.len() - from,
{
    if from >= fragments.len() {
        None
    } else {
        match scan_fragment(fragments[from], Set::empty(), fragments, 1) {
            FragmentScan::Fault { fault, .. } => Some(fault),
            FragmentScan::Clear => first_fault(fragments, from + 1),
        }
    }
}

/// A bare selection set runs on the query root, under no variable definitions.
pub open spec fn selection_set_execution(
    operation: int,
    selection_set: SelectionSet,
    fragments: Seq<FragmentDefinition>,
) -> ExecutionView {
    ExecutionView {
        operation,
        root: RootType::Query,
        selection_set,
        fragment_definitions: fragments,
        variable_definitions: Seq::empty(),
    }
}

/// A query runs its selection set on the query root, under its own variable definitions.
pub open spec fn query_execution(
    operation: int,
    query: Query,
    fragments: Seq<FragmentDefinition>,
) -> ExecutionView {
    ExecutionView {
        operation,
        root: RootType::Query,
        selection_set: query.selection_set,
        fragment_definitions: fragments,
        variable_definitions: query.variable_definitions@,
    }
}

/// A mutation runs its selection set on the mutation root, under its own variable definitions.
pub open spec fn mutation_execution(
    operation: int,
    mutation: Mutation,
    fragments: Seq<FragmentDefinition>,
) -> ExecutionView {
    ExecutionView {
        operation,
        root: RootType::Mutation,
        selection_set: mutation.selection_set,
        fragment_definitions: fragments,
        variable_definitions: mutation.variable_definitions@,
    }
}

/// How an operation runs. A subscription does not.
pub open spec fn execution_of(
    definition: OperationDefinition,
    fragments: Seq<FragmentDefinition>,
    operation: int,
) -> Option<ExecutionView> {
    match definition {
        OperationDefinition::SelectionSet(selection_set) => Some(
            selection_set_execution(operation, selection_set, fragments),
        ),
        OperationDefinition::Query(query) => Some(query_execution(operation, query, fragments)),
        OperationDefinition::Mutation(mutation) => Some(
            mutation_execution(operation, mutation, fragments),
        ),
        OperationDefinition::Subscription(_) => None,
    }
}

/// How the chosen operation runs, if nothing in it nests too deeply.
pub open spec fn dispatched(
    operations: Seq<OperationDefinition>,
    fragments: Seq<FragmentDefinition>,
    operation: int,
) -> ResolutionView {
    match execution_of(operations[operation], fragments, operation) {
        None => ResolutionView::Respond(refused("Subscriptions are not supported"@)),
        Some(execution) => if nests_within(
            execution.selection_set.items@,
            fragments,
            MAX_SELECTION_DEPTH - 1,
        ) {
            ResolutionView::Execute(execution)
        } else {
            ResolutionView::Respond(refused(depth_text()))
        },
    }
}

/// What becomes of a request, given whether its variables are an object and the name of the
/// operation that it asks for.
pub open spec fn resolution(
    operations: Seq<OperationDefinition>,
    fragments: Seq<FragmentDefinition>,
    variables_are_object: bool,
    wanted: Option<Seq<char>>,
) -> ResolutionView {
    let names = operation_texts(operations);
    if !variables_are_object {
        ResolutionView::Respond(refused("variables must be an object"@))
    } else if names.len() > 1 && names.contains(None) {
        ResolutionView::Respond(refused("Anonymous operations must be the only defined operation"@))
    } else if !names.no_duplicates() {
        ResolutionView::Respond(refused("Operation names must be unique"@))
    } else if first_fault(fragments, 0) is Some {
        ResolutionView::Respond(refused(first_fault(fragments, 0)->0.text()))
    } else if chosen(names, wanted) is None {
        ResolutionView::Respond(refused("Operation not found"@))
    } else {
        dispatched(operations, fragments, chosen(names, wanted)->0)
    }
}

/// The operations and the fragments of a document.
fn split_definitions(document: Document) -> (r: (Vec<OperationDefinition>, Vec<FragmentDefinition>))
    ensures
        r.0@ == operations_of(document.definitions@),
        r.1@ == fragments_of(document.definitions@),
{
    let mut operations: Vec<OperationDefinition> = Vec::new();
    let mut fragments: Vec<FragmentDefinition> = Vec::new();
    let ghost definitions = document.definitions@;
    for definition in it: document.definitions
        invariant
            it.seq() == definitions,
            operations@ == operations_of(definitions.take(it.index())),
            fragments@ == fragments_of(definitions.take(it.index())),
    {
        proof {
            let next = definitions.take(it.index() + 1);
            assert(next.drop_last() =~= definitions.take(it.index()));
            assert(next.last() == definition);
        }
        match definition {
            Definition::Operation(operation) => operations.push(operation),
            Definition::Fragment(fragment) => fragments.push(fragment),
        }
    }
    assert(definitions.take(definitions.len() as int) =~= definitions);
    (operations, fragments)
}

/// The names of the operations.
fn operation_names(operations: &Vec<OperationDefinition>) -> (r: Vec<Option<String>>)
    ensures
        name_texts(r@) == operation_texts(operations@),
{
    let mut names: Vec<Option<String>> = Vec::new();
    let mut i: usize = 0;
    while i < operations.len()
        invariant
            i <= operations@.len(),
            names@.len() == i,
            forall|j: int|
                0 <= j < i ==> name_text(#[trigger] names@[j]) == operation_text(operations@[j]),
        decreases operations@.len() - i,
    {
        let name: Option<String> = match &operations[i] {
            OperationDefinition::Query(query) => query.name.clone(),
            OperationDefinition::Mutation(mutation) => mutation.name.clone(),
            _ => None,
        };
        names.push(name);
        i = i + 1;
    }
    assert(name_texts(names@) =~= operation_texts(operations@));
    names
}

/// The index of the operation that is asked for.
fn find_operation(names: &Vec<Option<String>>, wanted: &Option<String>) -> (r: Option<usize>)
    ensures
        match r {
            Some(i) => chosen(name_texts(names@), name_text(*wanted)) == Some(i as int) && i
                < names@.len(),
            None => chosen(name_texts(names@), name_text(*wanted)) is None,
        },
{
    let ghost all = name_texts(names@);
    let mut i: usize = 0;
    while i < names.len()
        invariant
            all == name_texts(names@),
            i <= names@.len(),
            forall|j: int| 0 <= j < i ==> #[trigger] all[j] != name_text(*wanted),
            i > 0 ==> !(all.len() == 1 && name_text(*wanted) is None),
        decreases names@.len() - i,
    {
        if same_name(&names[i], wanted) || (names.len() == 1 && wanted.is_none()) {
            proof {
                lemma_first_of_name(all, name_text(*wanted));
                assert(all[i as int] == name_text(names@[i as int]));
            }
            return Some(i);
        }
        i = i + 1;
    }
    proof {
        lemma_first_of_name(all, name_text(*wanted));
    }
    None
}

/// Without a fault from the index on, the fragments from there on are sound.
pub proof fn lemma_first_fault(fragments: Seq<FragmentDefinition>, from: int)
    requires
        0 <= from,
    ensures
        first_fault(fragments, from) is None <==> forall|i: int|
            from <= i < fragments.len() ==> #[trigger] sound_fragment(
                fragments[i],
                Set::empty(),
                fragments,
                1,
            ),
    decreases fragments.len() - from,
{
    if from < fragments.len() {
        lemma_scan_fragment_exact(fragments[from], Set::empty(), fragments, 1);
        lemma_first_fault(fragments, from + 1);
    }
}

/// Searches every fragment for cycles.
fn check_fragments(fragments: &Vec<FragmentDefinition>) -> (r: GraphQLResult<()>)
    ensures
        r is Ok <==> sound_fragments(fragments@),
        match first_fault(fragments@, 0) {
            Some(fault) => r matches Err(error) && error@ == ErrorView::Validation(fault.text()),
            None => r is Ok,
        },
{
    proof {
        lemma_first_fault(fragments@, 0);
    }
    let mut i: usize = 0;
    while i < fragments.len()
        invariant
            i <= fragments@.len(),
            first_fault(fragments@, 0) == first_fault(fragments@, i as int),
            first_fault(fragments@, 0) is None <==> sound_fragments(fragments@),
        decreases fragments@.len() - i,
    {
        let mut visited = StringHashSet::new();
        match detect_fragment_cycles(&fragments[i], &mut visited, fragments.as_slice(), 1) {
            Ok(()) => {},
            Err(error) => {
                return Err(error);
            },
        }
        i = i + 1;
    }
    Ok(())
}

/// A query runs its selection set on the query root, under its own variable definitions. Its
/// name has no part in it.
pub fn resolve_query(
    operation: usize,
    query: Query,
    fragment_definitions: Vec<FragmentDefinition>,
) -> (r: Execution)
    ensures
        r@ == query_execution(operation as int, query, fragment_definitions@),
{
    Execution {
        operation,
        root: RootType::Query,
        selection_set: query.selection_set,
        fragment_definitions,
        variable_definitions: query.variable_definitions,
    }
}

/// A mutation runs its selection set on the mutation root, under its own variable definitions.
/// Its name has no part in it.
pub fn resolve_mutation(
    operation: usize,
    mutation: Mutation,
    fragment_definitions: Vec<FragmentDefinition>,
) -> (r: Execution)
    ensures
        r@ == mutation_execution(operation as int, mutation, fragment_definitions@),
{
    Execution {
        operation,
        root: RootType::Mutation,
        selection_set: mutation.selection_set,
        fragment_definitions,
        variable_definitions: mutation.variable_definitions,
    }
}

/// Runs the operation of that index, unless something in it nests too deeply.
fn dispatch(
    operations: Vec<OperationDefinition>,
    fragments: Vec<FragmentDefinition>,
    operation: usize,
) -> (r: Resolution)
    requires
        operation < operations@.len(),
        sound_fragments(fragments@),
    ensures
        r@ == dispatched(operations@, fragments@, operation as int),
{
    proof {
        law_sound_fragments_are_acyclic(fragments@);
        law_acyclic_fragments_let_the_walk_end(
            operation_items(operations@[operation as int]),
            fragments@,
            1,
        );
    }
    let mut operations = operations;
    let definition = operations.swap_remove(operation);
    let depth_check = match &definition {
        OperationDefinition::Query(query) => validate_selection_depth(
            &query.selection_set,
            fragments.as_slice(),
            1,
        ),
        OperationDefinition::SelectionSet(selection_set) => validate_selection_depth(
            selection_set,
            fragments.as_slice(),
            1,
        ),
        OperationDefinition::Mutation(mutation) => validate_selection_depth(
            &mutation.selection_set,
            fragments.as_slice(),
            1,
        ),
        OperationDefinition::Subscription(_) => Ok(()),
    };
    match depth_check {
        Ok(()) => {},
        Err(error) => {
            return Resolution::Respond(refusal(error.message()));
        },
    }
    match definition {
        OperationDefinition::Query(query) => Resolution::Execute(
            resolve_query(operation, query, fragments),
        ),
        OperationDefinition::SelectionSet(selection_set) => Resolution::Execute(
            Execution {
                operation,
                root: RootType::Query,
                selection_set,
                fragment_definitions: fragments,
                variable_definitions: Vec::new(),
            },
        ),
        OperationDefinition::Mutation(mutation) => Resolution::Execute(
            resolve_mutation(operation, mutation, fragments),
        ),
        OperationDefinition::Subscription(_) => Resolution::Respond(
            refusal("Subscriptions are not supported".to_owned()),
        ),
    }
}

/// Decides what becomes of a request whose variables are known to be an object or not.
pub fn resolve_document(
    document: Document,
    variables_are_object: bool,
    operation_name: &Option<String>,
) -> (r: Resolution)
    ensures
        r@ == resolution(
            operations_of(document.definitions@),
            fragments_of(document.definitions@),
            variables_are_object,
            name_text(*operation_name),
        ),
{
    if !variables_are_object {
        return Resolution::Respond(refusal("variables must be an object".to_owned()));
    }
    let (operations, fragments) = split_definitions(document);
    let names = operation_names(&operations);
    if any_missing(&names) && names.len() > 1 {
        return Resolution::Respond(
            refusal("Anonymous operations must be the only defined operation".to_owned()),
        );
    }
    if !all_distinct(&names) {
        return Resolution::Respond(refusal("Operation names must be unique".to_owned()));
    }
    let found = find_operation(&names, operation_name);
    match check_fragments(&fragments) {
        Ok(()) => {},
        Err(error) => {
            return Resolution::Respond(refusal(error.message()));
        },
    }
    match found {
        None => Resolution::Respond(refusal("Operation not found".to_owned())),
        Some(operation) => dispatch(operations, fragments, operation),
    }
}

/// Decides what becomes of a request: which operation of the document runs, or the response
/// with which the request is refused.
pub fn resolve_inner(
    document: Document,
    variables: &serde_json::Value,
    operation_name: &Option<String>,
) -> (r: Resolution)
    ensures
        r@ == resolution(
            operations_of(document.definitions@),
            fragments_of(document.definitions@),
            json_view(*variables) is Object,
            name_text(*operation_name),
        ),
{
    resolve_document(document, variables.is_object(), operation_name)
}

/// Every refused request is answered without data and with exactly one error.
pub proof fn law_refusal_has_one_error(
    operations: Seq<OperationDefinition>,
    fragments: Seq<FragmentDefinition>,
    variables_are_object: bool,
    wanted: Option<Seq<char>>,
)
    ensures
        resolution(
            operations,
            fragments,
            variables_are_object,
            wanted,
        ) matches ResolutionView::Respond(response) ==> {
            &&& response.data is Omitted
            &&& response.errors matches Omit::Present(errors) && errors.len() == 1
        },
{
}

/// What is known of an operation that runs: the request's variables are an object, the
/// operation is there and is no subscription, it is the one asked for, no other has its
/// name, the document's fragments are sound, and no field in it lies too deeply.
pub proof fn law_only_sound_operations_run(
    operations: Seq<OperationDefinition>,
    fragments: Seq<FragmentDefinition>,
    variables_are_object: bool,
    wanted: Option<Seq<char>>,
)
    ensures
        resolution(
            operations,
            fragments,
            variables_are_object,
            wanted,
        ) matches ResolutionView::Execute(execution) ==> {
            let operation = execution.operation;
            &&& variables_are_object
            &&& 0 <= operation < operations.len()
            &&& execution_of(operations[operation], fragments, operation) == Some(execution)
            &&& operation_text(operations[operation]) == wanted || (wanted is None
                && operations.len() == 1)
            &&& forall|other: int|
                0 <= other < operations.len() && other != operation ==> #[trigger] operation_text(
                    operations[other],
                ) != operation_text(operations[operation])
            &&& sound_fragments(fragments)
            &&& nests_within(
                operation_items(operations[operation]),
                fragments,
                MAX_SELECTION_DEPTH - 1,
            )
        },
{
    let names = operation_texts(operations);
    lemma_first_of_name(names, wanted);
    lemma_first_fault(fragments, 0);
    if let ResolutionView::Execute(execution) = resolution(
        operations,
        fragments,
        variables_are_object,
        wanted,
    ) {
        let operation = execution.operation;
        assert(names[operation] == operation_text(operations[operation]));
        assert forall|other: int|
            0 <= other < operations.len() && other
                != operation implies #[trigger] operation_text(operations[other])
            != operation_text(operations[operation]) by {
            assert(names[other] != names[operation]);
        }
    }
}

/// Where nothing is wrong with a document, the operation of the given name is the one that
/// is decided on.
pub proof fn law_named_operation_is_chosen(
    operations: Seq<OperationDefinition>,
    fragments: Seq<FragmentDefinition>,
    operation: int,
)
    requires
        0 <= operation < operations.len(),
        operations.len() > 1 ==> !operation_texts(operations).contains(None),
        operation_texts(operations).no_duplicates(),
        sound_fragments(fragments),
    ensures
        resolution(
            operations,
            fragments,
            true,
            operation_text(operations[operation]),
        ) == dispatched(operations, fragments, operation),
{
    let names = operation_texts(operations);
    let wanted = operation_text(operations[operation]);
    lemma_first_of_name(names, wanted);
    lemma_first_fault(fragments, 0);
    assert(names[operation] == wanted);
}

/// A document's only operation is the one decided on where no name is given, whatever its
/// own name.
pub proof fn law_only_operation_needs_no_name(
    operations: Seq<OperationDefinition>,
    fragments: Seq<FragmentDefinition>,
)
    requires
        operations.len() == 1,
        sound_fragments(fragments),
    ensures
        resolution(operations, fragments, true, None) == dispatched(operations, fragments, 0),
{
    lemma_first_fault(fragments, 0);
}

/// A document with a fragment that leads back into itself runs nothing, whether or not the
/// fragment is used.
pub proof fn law_cyclic_document_runs_nothing(
    operations: Seq<OperationDefinition>,
    fragments: Seq<FragmentDefinition>,
    variables_are_object: bool,
    wanted: Option<Seq<char>>,
    i: int,
    path: Seq<int>,
)
    requires
        0 <= i < fragments.len(),
        name_returns(fragments, i, path),
    ensures
        resolution(operations, fragments, variables_are_object, wanted) is Respond,
{
    law_only_sound_operations_run(operations, fragments, variables_are_object, wanted);
    if sound_fragments(fragments) {
        law_sound_fragments_have_no_cycle(fragments, i, path);
    }
}

/// An operation with a field at or below the maximum depth does not run, wherever the
/// fields above it stand: in the operation, in fragments or in inline fragments.
pub proof fn law_deep_operation_does_not_run(
    operations: Seq<OperationDefinition>,
    fragments: Seq<FragmentDefinition>,
    variables_are_object: bool,
    wanted: Option<Seq<char>>,
    operation: int,
    path: Seq<int>,
)
    requires
        0 <= operation < operations.len(),
        fields_on_path(operation_items(operations[operation]), fragments, path)
            >= MAX_SELECTION_DEPTH,
    ensures
        resolution(
            operations,
            fragments,
            variables_are_object,
            wanted,
        ) matches ResolutionView::Execute(execution) ==> execution.operation != operation,
{
    law_only_sound_operations_run(operations, fragments, variables_are_object, wanted);
}

/// What becomes of a request is seen whole: its response, or the run with all that it holds.
pub proof fn law_resolution_is_seen_whole(execution: Execution, response: GraphQLResponse)
    ensures
        execution@.operation == execution.operation,
        execution@.root == execution.root,
        execution@.selection_set == execution.selection_set,
        execution@.fragment_definitions == execution.fragment_definitions@,
        execution@.variable_definitions == execution.variable_definitions@,
        Resolution::Execute(execution)@ == ResolutionView::Execute(execution@),
        Resolution::Respond(response)@ == ResolutionView::Respond(response@),
{
}

/// A query and a mutation hand on their own selections and variable definitions and every
/// fragment, and run on the root type of their kind.
pub proof fn law_operation_hands_on_what_it_holds(
    operation: int,
    query: Query,
    mutation: Mutation,
    fragments: Seq<FragmentDefinition>,
)
    ensures
        ({
            let run = query_execution(operation, query, fragments);
            &&& run.operation == operation
            &&& run.root is Query
            &&& run.selection_set == query.selection_set
            &&& run.variable_definitions == query.variable_definitions@
            &&& run.fragment_definitions == fragments
        }),
        ({
            let run = mutation_execution(operation, mutation, fragments);
            &&& run.operation == operation
            &&& run.root is Mutation
            &&& run.selection_set == mutation.selection_set
            &&& run.variable_definitions == mutation.variable_definitions@
            &&& run.fragment_definitions == fragments
        }),
{
}

} // verus!
