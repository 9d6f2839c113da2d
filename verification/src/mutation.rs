//! Carrying out the fields of a mutation, one after the other. What a field needs from outside
//! is asked for as a [`MutationAction`]; the first field that fails ends the mutation with an
//! error that is to be raised, so that nothing of it lasts.

use vstd::prelude::*;

use crate::document::{alias_or_name, response_key, Field};
use crate::error::{ErrorMessage, ErrorView, GraphQLError, GraphQLResult};
use crate::fields::{
    entries_of, errors_of, field_outcomes, law_entries_are_the_successes, law_last_success_wins,
    lemma_errors_of, lemma_outcome_pushed, outcome_view, outside_fields, FieldAnswer, FieldOutcome,
};
use crate::json::{empty_object, json_view, null_value, set_entry, text_value, JsonView};
use crate::response::{error_texts, refusal, refused, GraphQLResponse, Omit, ResponseView};
use crate::schema::{field_type, is_named, FieldType, ObjectType, TYPENAME};

verus! {

/// The work behind a field of the mutation root.
#[derive(Debug, Clone, Copy)]
pub enum MutationAction {
    Insert,
    Update,
    Delete,
    /// Call a function of the database.
    FunctionCall,
}

/// How the field of that name is answered.
pub open spec fn mutation_field(fields: Map<Seq<char>, FieldType>, name: Seq<char>) -> FieldAnswer<
    MutationAction,
> {
    match field_type(fields, name) {
        None => FieldAnswer::Unknown,
        Some(FieldType::InsertResponse) => FieldAnswer::Run(MutationAction::Insert),
        Some(FieldType::UpdateResponse) => FieldAnswer::Run(MutationAction::Update),
        Some(FieldType::DeleteResponse) => FieldAnswer::Run(MutationAction::Delete),
        Some(_) => if name == TYPENAME@ {
            FieldAnswer::TypeName
        } else {
            FieldAnswer::Run(MutationAction::FunctionCall)
        },
    }
}

/// How each of the selections is answered.
pub open spec fn mutation_fields(fields: Map<Seq<char>, FieldType>, selections: Seq<Field>) -> Seq<
    FieldAnswer<MutationAction>,
> {
    Seq::new(selections.len(), |i: int| mutation_field(fields, selections[i].name@))
}

/// How the field of that name is answered.
pub fn classify_mutation_field(
    mutation_type: &ObjectType,
    name: &String,
) -> (r: FieldAnswer<MutationAction>)
    ensures
        r == mutation_field(mutation_type@.fields, name@),
{
    match mutation_type.find_field(name) {
        None => FieldAnswer::Unknown,
        Some(FieldType::InsertResponse) => FieldAnswer::Run(MutationAction::Insert),
        Some(FieldType::UpdateResponse) => FieldAnswer::Run(MutationAction::Update),
        Some(FieldType::DeleteResponse) => FieldAnswer::Run(MutationAction::Delete),
        Some(_) => if is_named(name, TYPENAME) {
            FieldAnswer::TypeName
        } else {
            FieldAnswer::Run(MutationAction::FunctionCall)
        },
    }
}

/// A mutation under way, as the contracts speak of it.
pub struct MutationView {
    /// The name of the mutation root.
    pub root: Seq<char>,
    /// The fields of the mutation root.
    pub fields: Map<Seq<char>, FieldType>,
    pub selections: Seq<Field>,
    /// The index of the selection whose turn it is.
    pub next: int,
    /// The data so far.
    pub entries: Map<Seq<char>, JsonView>,
}

/// What a mutation does next, as the contracts speak of it.
pub enum MutationStepView {
    Respond(ResponseView),
    Raise(ErrorView),
    Execute(MutationView, MutationAction),
}

impl MutationView {
    /// The selection whose turn it is has that value: it becomes the entry of its key.
    pub open spec fn record(self, value: JsonView) -> MutationView {
        MutationView {
            next: self.next + 1,
            entries: self.entries.insert(response_key(self.selections[self.next]), value),
            ..self
        }
    }

    /// Answers the fields that take no work from outside, up to the next that does, or to the
    /// first that is not there.
    pub open spec fn advance(self) -> MutationStepView
        decreases self.selections.len() - self.next,
    {
        if self.next >= self.selections.len() {
            MutationStepView::Respond(mutation_response(self.entries))
        } else {
            let name = self.selections[self.next].name@;
            match mutation_field(self.fields, name) {
                FieldAnswer::Unknown => MutationStepView::Raise(
                    ErrorView::FieldNotFound { field: name, on_type: self.root },
                ),
                FieldAnswer::TypeName => self.record(JsonView::Text(self.root)).advance(),
                FieldAnswer::Run(action) => MutationStepView::Execute(self, action),
            }
        }
    }

    /// Goes on with the outcome of the work behind the selection whose turn it is.
    pub open spec fn resume(self, outcome: FieldOutcome) -> MutationStepView {
        match outcome {
            Ok(value) => self.record(value).advance(),
            Err(error) => MutationStepView::Raise(error),
        }
    }
}

/// The response once every field is carried out.
pub open spec fn mutation_response(entries: Map<Seq<char>, JsonView>) -> ResponseView {
    ResponseView { data: Omit::Present(JsonView::Object(entries)), errors: Omit::Omitted }
}

/// The response where the schema has no mutation root.
pub open spec fn no_mutation_root() -> ResponseView {
    ResponseView {
        data: Omit::Present(JsonView::Null),
        errors: Omit::Present(seq!["Unknown type Mutation"@]),
    }
}

/// A mutation that waits for the outcome of the work behind a field.
pub struct MutationState {
    mutation_type: ObjectType,
    selections: Vec<Field>,
    next: usize,
    data: serde_json::Value,
}

/// What a mutation does next.
pub enum MutationStep {
    /// It is answered.
    Respond(GraphQLResponse),
    /// It has failed, and the error is to be raised in the database.
    Raise(GraphQLError),
    /// It asks for the work behind a field.
    Execute(MutationState, MutationAction),
}

impl View for MutationState {
    type V = MutationView;

    closed spec fn view(&self) -> MutationView {
        MutationView {
            root: self.mutation_type@.name,
            fields: self.mutation_type@.fields,
            selections: self.selections@,
            next: self.next as int,
            entries: json_view(self.data)->Object_0,
        }
    }
}

impl View for MutationStep {
    type V = MutationStepView;

    open spec fn view(&self) -> MutationStepView {
        match self {
            MutationStep::Respond(response) => MutationStepView::Respond(response@),
            MutationStep::Raise(error) => MutationStepView::Raise(error@),
            MutationStep::Execute(state, action) => MutationStepView::Execute(state@, *action),
        }
    }
}

impl MutationState {
    #[verifier::type_invariant]
    spec fn wf(self) -> bool {
        &&& json_view(self.data) is Object
        &&& self.next < self.selections@.len()
    }

    /// The index of the selection that the mutation waits for.
    pub fn index(&self) -> (r: usize)
        ensures
            r == self@.next,
            r < self@.selections.len(),
    {
        proof {
            use_type_invariant(self);
        }
        self.next
    }

    /// The selection that the mutation waits for.
    pub fn selection(&self) -> (r: &Field)
        ensures
            *r == self@.selections[self@.next],
    {
        proof {
            use_type_invariant(self);
        }
        &self.selections[self.next]
    }

    /// Goes on with the outcome of the work behind the field that the mutation waits for. An
    /// error is handed on as it is.
    pub fn resume(self, outcome: GraphQLResult<serde_json::Value>) -> (r: MutationStep)
        ensures
            r@ == self@.resume(outcome_view(outcome)),
            outcome matches Err(error) ==> r == MutationStep::Raise(error),
    {
        proof {
            use_type_invariant(&self);
        }
        let MutationState { mutation_type, selections, next, data } = self;
        let mut data = data;
        match outcome {
            Ok(value) => {
                let key = alias_or_name(&selections[next]);
                set_entry(&mut data, key, value);
                assert(next < selections.len());
                advance(mutation_type, selections, next + 1, data)
            },
            Err(error) => MutationStep::Raise(error),
        }
    }
}

/// Answers the fields that take no work from outside, up to the next that does, or to the
/// first that is not there.
fn advance(
    mutation_type: ObjectType,
    selections: Vec<Field>,
    from: usize,
    data: serde_json::Value,
) -> (r: MutationStep)
    requires
        json_view(data) is Object,
        from <= selections@.len(),
    ensures
        r@ == (MutationView {
            root: mutation_type@.name,
            fields: mutation_type@.fields,
            selections: selections@,
            next: from as int,
            entries: json_view(data)->Object_0,
        }).advance(),
{
    let mut data = data;
    let mut next: usize = from;
    let ghost start = MutationView {
        root: mutation_type@.name,
        fields: mutation_type@.fields,
        selections: selections@,
        next: from as int,
        entries: json_view(data)->Object_0,
    };
    #[verifier::loop_isolation(false)]
    while next < selections.len()
        invariant
            next <= selections@.len(),
            json_view(data) is Object,
            start.advance() == (MutationView {
                root: mutation_type@.name,
                fields: mutation_type@.fields,
                selections: selections@,
                next: next as int,
                entries: json_view(data)->Object_0,
            }).advance(),
        decreases selections@.len() - next,
    {
        match classify_mutation_field(&mutation_type, &selections[next].name) {
            FieldAnswer::Unknown => {
                return MutationStep::Raise(
                    GraphQLError::field_not_found(
                        selections[next].name.as_str(),
                        mutation_type.name().as_str(),
                    ),
                );
            },
            FieldAnswer::TypeName => {
                let key = alias_or_name(&selections[next]);
                set_entry(&mut data, key, text_value(mutation_type.name().clone()));
            },
            FieldAnswer::Run(action) => {
                return MutationStep::Execute(
                    MutationState { mutation_type, selections, next, data },
                    action,
                );
            },
        }
        next = next + 1;
    }
    MutationStep::Respond(
        GraphQLResponse { data: Omit::Present(data), errors: Omit::Omitted },
    )
}

/// How a mutation begins, given the mutation root and the selections on it.
pub open spec fn mutation_start(
    root: Option<(ObjectType, GraphQLResult<Vec<Field>>)>,
) -> MutationStepView {
    match root {
        None => MutationStepView::Respond(no_mutation_root()),
        Some((_, Err(error))) => MutationStepView::Respond(refused(error@.text())),
        Some((mutation_type, Ok(selections))) => if selections@.len() == 0 {
            MutationStepView::Raise(ErrorView::Validation("Selection set must not be empty"@))
        } else {
            (MutationView {
                root: mutation_type@.name,
                fields: mutation_type@.fields,
                selections: selections@,
                next: 0,
                entries: Map::empty(),
            }).advance()
        },
    }
}

/// Begins to carry out the selections of a mutation. Where the schema has a mutation root, it
/// is given with the selections on it after fragments and directives are resolved, or the
/// error that this met.
pub fn resolve_mutation_selection_set(
    root: Option<(ObjectType, GraphQLResult<Vec<Field>>)>,
) -> (r: MutationStep)
    ensures
        r@ == mutation_start(root),
{
    match root {
        None => {
            let mut errors: Vec<ErrorMessage> = Vec::new();
            errors.push(ErrorMessage { message: "Unknown type Mutation".to_owned() });
            assert(error_texts(errors@) =~= seq!["Unknown type Mutation"@]);
            MutationStep::Respond(
                GraphQLResponse {
                    data: Omit::Present(null_value()),
                    errors: Omit::Present(errors),
                },
            )
        },
        Some((_, Err(error))) => MutationStep::Respond(refusal(error.message())),
        Some((mutation_type, Ok(selections))) => {
            if selections.len() == 0 {
                return MutationStep::Raise(
                    GraphQLError::validation("Selection set must not be empty"),
                );
            }
            advance(mutation_type, selections, 0, empty_object())
        },
    }
}

/// A mutation that is handed the outcomes, one each time it asks for work.
pub open spec fn mutation_run(
    step: MutationStepView,
    outcomes: Seq<FieldOutcome>,
) -> MutationStepView
    decreases outcomes.len(),
{
    match step {
        MutationStepView::Execute(view, _) if outcomes.len() > 0 => mutation_run(
            view.resume(outcomes.first()),
            outcomes.drop_first(),
        ),
        _ => step,
    }
}

/// The end of a mutation whose fields have those outcomes: the first failure is raised, and
/// without one the mutation is answered.
pub open spec fn mutation_end(
    selections: Seq<Field>,
    outcomes: Seq<FieldOutcome>,
) -> MutationStepView {
    if errors_of(outcomes).len() > 0 {
        MutationStepView::Raise(errors_of(outcomes).first())
    } else {
        MutationStepView::Respond(mutation_response(entries_of(selections, outcomes)))
    }
}

/// The first of several errors is there as soon as it is met.
proof fn lemma_first_error(outcomes: Seq<FieldOutcome>, more: Seq<FieldOutcome>)
    requires
        errors_of(outcomes).len() > 0,
    ensures
        errors_of(outcomes + more).len() > 0,
        errors_of(outcomes + more).first() == errors_of(outcomes).first(),
    decreases more.len(),
{
    if more.len() == 0 {
        assert(outcomes + more =~= outcomes);
    } else {
        lemma_first_error(outcomes, more.drop_last());
        assert((outcomes + more).drop_last() =~= outcomes + more.drop_last());
    }
}

/// A mutation under way that is handed the outcomes it still asks for ends as what is done
/// and what they add decide.
proof fn lemma_mutation_run(
    view: MutationView,
    done: Seq<FieldOutcome>,
    outcomes: Seq<FieldOutcome>,
)
    requires
        0 <= view.next <= view.selections.len(),
        done.len() == view.next,
        view.entries == entries_of(view.selections.take(view.next), done),
        errors_of(done).len() == 0,
        outcomes.len() == outside_fields(
            mutation_fields(view.fields, view.selections.skip(view.next)),
        ),
    ensures
        ({
            let all = done + field_outcomes(
                view.root,
                view.selections.skip(view.next),
                mutation_fields(view.fields, view.selections.skip(view.next)),
                outcomes,
            );
            mutation_run(view.advance(), outcomes) == mutation_end(view.selections, all)
        }),
    decreases view.selections.len() - view.next,
{
    let left = view.selections.skip(view.next);
    let answers = mutation_fields(view.fields, left);
    let added = field_outcomes(view.root, left, answers, outcomes);
    if view.next == view.selections.len() {
        assert(done + added =~= done);
        assert(view.selections.take(view.next) =~= view.selections);
    } else {
        let name = view.selections[view.next].name@;
        let rest = view.selections.skip(view.next + 1);
        assert(left.first() == view.selections[view.next]);
        assert(left.drop_first() =~= rest);
        assert(answers.drop_first() =~= mutation_fields(view.fields, rest));
        let (outcome, remaining): (FieldOutcome, Seq<FieldOutcome>) = match mutation_field(
            view.fields,
            name,
        ) {
            FieldAnswer::Unknown => (
                Err(ErrorView::FieldNotFound { field: name, on_type: view.root }),
                outcomes,
            ),
            FieldAnswer::TypeName => (Ok(JsonView::Text(view.root)), outcomes),
            FieldAnswer::Run(_) => (outcomes.first(), outcomes.drop_first()),
        };
        let after = field_outcomes(
            view.root,
            rest,
            mutation_fields(view.fields, rest),
            remaining,
        );
        assert(done.push(outcome) + after =~= done + added);
        lemma_outcome_pushed(view.selections, done, outcome);
        match outcome {
            Ok(value) => {
                lemma_mutation_run(view.record(value), done.push(outcome), remaining);
            },
            Err(error) => {
                reveal_with_fuel(mutation_run, 2);
                assert(errors_of(done.push(outcome)).first() == error);
                lemma_first_error(done.push(outcome), after);
            },
        }
    }
}

/// A mutation ends at its first failure with that error, whatever the outcomes after it
/// would have been, and is answered only if every field succeeded: then with the value of
/// every field, and without errors.
pub proof fn law_mutation_is_all_or_nothing(
    mutation_type: ObjectType,
    selections: Vec<Field>,
    outcomes: Seq<FieldOutcome>,
)
    requires
        selections@.len() > 0,
        outcomes.len() == outside_fields(mutation_fields(mutation_type@.fields, selections@)),
    ensures
        mutation_run(mutation_start(Some((mutation_type, Ok(selections)))), outcomes)
            == mutation_end(
            selections@,
            field_outcomes(
                mutation_type@.name,
                selections@,
                mutation_fields(mutation_type@.fields, selections@),
                outcomes,
            ),
        ),
{
    let view = MutationView {
        root: mutation_type@.name,
        fields: mutation_type@.fields,
        selections: selections@,
        next: 0,
        entries: Map::empty(),
    };
    let all = field_outcomes(
        mutation_type@.name,
        selections@,
        mutation_fields(mutation_type@.fields, selections@),
        outcomes,
    );
    assert(selections@.skip(0) =~= selections@);
    lemma_mutation_run(view, Seq::empty(), outcomes);
    assert(Seq::<FieldOutcome>::empty() + all =~= all);
}

/// A mutation is answered exactly where every one of its fields succeeded.
pub proof fn law_answered_mutation_has_no_failure(
    selections: Seq<Field>,
    outcomes: Seq<FieldOutcome>,
)
    ensures
        mutation_end(selections, outcomes) is Respond <==> forall|i: int|
            0 <= i < outcomes.len() ==> #[trigger] outcomes[i] is Ok,
{
    lemma_errors_of(outcomes);
}

/// The work that a mutation asks for is that behind the selection whose turn it is.
proof fn lemma_advance(view: MutationView)
    requires
        0 <= view.next,
    ensures
        view.advance() matches MutationStepView::Execute(later, action) ==> {
            &&& view.next <= later.next < view.selections.len()
            &&& later.selections == view.selections
            &&& later.root == view.root
            &&& later.fields == view.fields
            &&& mutation_field(view.fields, view.selections[later.next].name@)
                == FieldAnswer::Run(action)
        },
    decreases view.selections.len() - view.next,
{
    if view.next < view.selections.len() {
        let name = view.selections[view.next].name@;
        match mutation_field(view.fields, name) {
            FieldAnswer::TypeName => {
                lemma_advance(view.record(JsonView::Text(view.root)));
            },
            _ => {},
        }
    }
}

/// After an outcome the next work that a mutation asks for is that behind a later selection, so
/// that no selection is carried out twice.
pub proof fn law_work_goes_forward(view: MutationView, outcome: FieldOutcome)
    requires
        0 <= view.next < view.selections.len(),
    ensures
        view.resume(outcome) matches MutationStepView::Execute(later, action) ==> {
            &&& view.next < later.next < view.selections.len()
            &&& later.selections == view.selections
            &&& later.root == view.root
            &&& later.fields == view.fields
            &&& mutation_field(view.fields, view.selections[later.next].name@)
                == FieldAnswer::Run(action)
        },
{
    if let Ok(value) = outcome {
        lemma_advance(view.record(value));
    }
}

/// After a failure a mutation asks for no more work, and takes no more outcomes.
pub proof fn law_nothing_runs_after_a_failure(
    view: MutationView,
    error: ErrorView,
    more: Seq<FieldOutcome>,
)
    ensures
        mutation_run(view.resume(Err(error)), more) == MutationStepView::Raise(error),
{
}

/// The work behind a field of the mutation root follows from what the field gives, whatever its
/// name; the name counts only for a field that gives something else. Without the field there
/// is no work.
pub proof fn law_mutation_work_follows_from_the_type(
    fields: Map<Seq<char>, FieldType>,
    name: Seq<char>,
)
    ensures
        !fields.dom().contains(name) <==> mutation_field(fields, name) is Unknown,
        fields.dom().contains(name) ==> {
            let given = fields[name];
            let answer = mutation_field(fields, name);
            let by_name = !(given is InsertResponse || given is UpdateResponse || given
                is DeleteResponse);
            &&& given is InsertResponse <==> answer == FieldAnswer::Run(MutationAction::Insert)
            &&& given is UpdateResponse <==> answer == FieldAnswer::Run(MutationAction::Update)
            &&& given is DeleteResponse <==> answer == FieldAnswer::Run(MutationAction::Delete)
            &&& by_name && name == "__typename"@ <==> answer is TypeName
            &&& by_name && name != "__typename"@ <==> answer == FieldAnswer::Run(
                MutationAction::FunctionCall,
            )
        },
{
}

/// The outcomes agree with the mutation root on the fields that take no work from outside: one
/// that the root does not have has failed, and `__typename` has the name of the root.
pub open spec fn agrees_with_mutation_root(
    mutation_type: ObjectType,
    selections: Seq<Field>,
    outcomes: Seq<FieldOutcome>,
) -> bool {
    &&& outcomes.len() == selections.len()
    &&& forall|i: int|
        0 <= i < selections.len() ==> {
            let name = (#[trigger] selections[i]).name@;
            let fields = mutation_type@.fields;
            if !fields.dom().contains(name) {
                outcomes[i] == Err::<JsonView, ErrorView>(
                    ErrorView::FieldNotFound { field: name, on_type: mutation_type@.name },
                )
            } else {
                name == "__typename"@ && !(fields[name] is InsertResponse || fields[name]
                    is UpdateResponse || fields[name] is DeleteResponse) ==> outcomes[i]
                    == Ok::<JsonView, ErrorView>(JsonView::Text(mutation_type@.name))
            }
        }
}

/// A mutation that is handed, each time it asks for work, the outcome of the selection that it
/// waits for, at most so many times.
pub open spec fn mutation_fed(
    step: MutationStepView,
    outcomes: Seq<FieldOutcome>,
    times: nat,
) -> MutationStepView
    decreases times,
{
    match step {
        MutationStepView::Execute(view, _) if times > 0 => mutation_fed(
            view.resume(outcomes[view.next]),
            outcomes,
            (times - 1) as nat,
        ),
        _ => step,
    }
}

/// A mutation under way that is fed the outcomes ends at the first failure from here on, and
/// without one is answered by all of them.
proof fn lemma_mutation_fed(
    mutation_type: ObjectType,
    view: MutationView,
    outcomes: Seq<FieldOutcome>,
    times: nat,
)
    requires
        view.root == mutation_type@.name,
        view.fields == mutation_type@.fields,
        agrees_with_mutation_root(mutation_type, view.selections, outcomes),
        0 <= view.next <= view.selections.len(),
        times >= view.selections.len() - view.next,
        view.entries == entries_of(view.selections.take(view.next), outcomes.take(view.next)),
    ensures
        (forall|i: int| view.next <= i < outcomes.len() ==> #[trigger] outcomes[i] is Ok)
            ==> mutation_fed(view.advance(), outcomes, times) == MutationStepView::Respond(
            mutation_response(entries_of(view.selections, outcomes)),
        ),
        forall|m: int|
            view.next <= m < outcomes.len() && #[trigger] outcomes[m] is Err && (forall|j: int|
                view.next <= j < m ==> #[trigger] outcomes[j] is Ok) ==> mutation_fed(
                view.advance(),
                outcomes,
                times,
            ) == MutationStepView::Raise(outcomes[m]->Err_0),
    decreases view.selections.len() - view.next,
{
    if view.next == view.selections.len() {
        assert(view.selections.take(view.next) =~= view.selections);
        assert(outcomes.take(view.next) =~= outcomes);
    } else {
        let outcome = outcomes[view.next];
        let done = outcomes.take(view.next);
        let name = view.selections[view.next].name@;
        law_mutation_work_follows_from_the_type(view.fields, name);
        match outcome {
            Ok(value) => {
                let next = view.record(value);
                lemma_outcome_pushed(view.selections, done, outcome);
                assert(done.push(outcome) =~= outcomes.take(view.next + 1));
                match mutation_field(view.fields, name) {
                    FieldAnswer::Run(_) => {
                        lemma_mutation_fed(mutation_type, next, outcomes, (times - 1) as nat);
                    },
                    _ => {
                        lemma_mutation_fed(mutation_type, next, outcomes, times);
                    },
                }
            },
            Err(error) => {
                reveal_with_fuel(mutation_fed, 2);
                assert(outcomes[view.next] is Err);
                assert(mutation_fed(view.advance(), outcomes, times) == MutationStepView::Raise(
                    error,
                ));
                assert forall|m: int|
                    view.next <= m < outcomes.len() && #[trigger] outcomes[m] is Err && (forall|
                        j: int,
                    |
                        view.next <= j < m ==> #[trigger] outcomes[j] is Ok) implies m
                    == view.next by {
                    if m > view.next {
                        assert(outcomes[view.next] is Ok);
                    }
                }
            },
        }
    }
}

/// A mutation raises the error of its first field that fails, whatever the fields after it would
/// have come to.
pub proof fn law_mutation_raises_its_first_failure(
    mutation_type: ObjectType,
    selections: Vec<Field>,
    outcomes: Seq<FieldOutcome>,
    m: int,
    error: ErrorView,
)
    requires
        agrees_with_mutation_root(mutation_type, selections@, outcomes),
        0 <= m < outcomes.len(),
        outcomes[m] == Err::<JsonView, ErrorView>(error),
        forall|j: int| 0 <= j < m ==> #[trigger] outcomes[j] is Ok,
    ensures
        mutation_fed(
            mutation_start(Some((mutation_type, Ok(selections)))),
            outcomes,
            selections@.len(),
        ) == MutationStepView::Raise(error),
{
    let view = MutationView {
        root: mutation_type@.name,
        fields: mutation_type@.fields,
        selections: selections@,
        next: 0,
        entries: Map::empty(),
    };
    lemma_mutation_fed(mutation_type, view, outcomes, selections@.len());
    assert(outcomes[m] is Err);
}

/// A mutation of which every field succeeds is answered without errors, and with the value of
/// each field under its alias, or under its name where it has none, unless a later one has the
/// same key.
pub proof fn law_mutation_answers_each_field_under_its_key(
    mutation_type: ObjectType,
    selections: Vec<Field>,
    outcomes: Seq<FieldOutcome>,
    i: int,
    key: Seq<char>,
)
    requires
        agrees_with_mutation_root(mutation_type, selections@, outcomes),
        forall|j: int| 0 <= j < outcomes.len() ==> #[trigger] outcomes[j] is Ok,
        0 <= i < outcomes.len(),
        match selections@[i].alias {
            Some(alias) => alias@ == key,
            None => selections@[i].name@ == key,
        },
        forall|j: int|
            i < j < outcomes.len() ==> (match (#[trigger] selections@[j]).alias {
                Some(alias) => alias@ != key,
                None => selections@[j].name@ != key,
            }),
    ensures
        ({
            let end = mutation_fed(
                mutation_start(Some((mutation_type, Ok(selections)))),
                outcomes,
                selections@.len(),
            );
            &&& end matches MutationStepView::Respond(response)
            &&& response.errors is Omitted
            &&& response.data matches Omit::Present(JsonView::Object(entries))
            &&& entries.dom().contains(key)
            &&& entries[key] == outcomes[i]->Ok_0
        }),
{
    let view = MutationView {
        root: mutation_type@.name,
        fields: mutation_type@.fields,
        selections: selections@,
        next: 0,
        entries: Map::empty(),
    };
    lemma_mutation_fed(mutation_type, view, outcomes, selections@.len());
    assert(outcomes[i] is Ok);
    assert forall|j: int| i < j < outcomes.len() && #[trigger] outcomes[j] is Ok implies
        response_key(selections@[j]) != response_key(selections@[i]) by {
        assert(selections@[j].alias == selections@[j].alias);
    }
    law_last_success_wins(selections@, outcomes, i);
}

/// In the answer to a mutation there is nothing but what its fields have put there.
pub proof fn law_mutation_answers_nothing_else(
    mutation_type: ObjectType,
    selections: Vec<Field>,
    outcomes: Seq<FieldOutcome>,
    entries: Map<Seq<char>, JsonView>,
    key: Seq<char>,
)
    requires
        selections@.len() > 0,
        agrees_with_mutation_root(mutation_type, selections@, outcomes),
        forall|j: int| 0 <= j < outcomes.len() ==> #[trigger] outcomes[j] is Ok,
        mutation_fed(
            mutation_start(Some((mutation_type, Ok(selections)))),
            outcomes,
            selections@.len(),
        ) matches MutationStepView::Respond(response) && response.data == Omit::Present(
            JsonView::Object(entries),
        ),
        entries.dom().contains(key),
    ensures
        exists|i: int|
            0 <= i < selections@.len() && (match (#[trigger] selections@[i]).alias {
                Some(alias) => alias@ == key,
                None => selections@[i].name@ == key,
            }),
{
    let view = MutationView {
        root: mutation_type@.name,
        fields: mutation_type@.fields,
        selections: selections@,
        next: 0,
        entries: Map::empty(),
    };
    lemma_mutation_fed(mutation_type, view, outcomes, selections@.len());
    law_entries_are_the_successes(selections@, outcomes, key);
    let i = choose|i: int|
        0 <= i < outcomes.len() && #[trigger] outcomes[i] is Ok && response_key(selections@[i])
            == key;
    assert(selections@[i].alias == selections@[i].alias);
}

/// How a mutation without fields to carry out ends: without a mutation root with null data and
/// the message that there is none, with selections that could not be resolved with that error
/// alone, and without selections by raising that there must be some.
pub proof fn law_mutation_without_fields_ends(
    mutation_type: ObjectType,
    error: GraphQLError,
    selections: Vec<Field>,
)
    ensures
        mutation_start(None) == MutationStepView::Respond(
            ResponseView {
                data: Omit::Present(JsonView::Null),
                errors: Omit::Present(seq!["Unknown type Mutation"@]),
            },
        ),
        mutation_start(Some((mutation_type, Err(error)))) == MutationStepView::Respond(
            ResponseView {
                data: Omit::Omitted,
                errors: Omit::Present(seq![error@.text()]),
            },
        ),
        selections@.len() == 0 ==> mutation_start(Some((mutation_type, Ok(selections))))
            == MutationStepView::Raise(ErrorView::Validation("Selection set must not be empty"@)),
{
}

/// A mutation first asks for the work behind the first of its selections that takes any, if it
/// has the fields before it.
pub proof fn law_mutation_begins_with_its_first_work(
    mutation_type: ObjectType,
    selections: Vec<Field>,
    i: int,
)
    requires
        0 <= i < selections@.len(),
        mutation_field(mutation_type@.fields, selections@[i].name@) is Run,
        forall|j: int|
            0 <= j < i ==> mutation_field(
                mutation_type@.fields,
                (#[trigger] selections@[j]).name@,
            ) is TypeName,
    ensures
        mutation_start(
            Some((mutation_type, Ok(selections))),
        ) matches MutationStepView::Execute(view, action) && view.next == i && view.selections
            == selections@ && view.root == mutation_type@.name && view.fields
            == mutation_type@.fields && mutation_field(
            mutation_type@.fields,
            selections@[i].name@,
        ) == FieldAnswer::Run(action),
{
    let view = MutationView {
        root: mutation_type@.name,
        fields: mutation_type@.fields,
        selections: selections@,
        next: 0,
        entries: Map::empty(),
    };
    lemma_next_work(view, i);
}

/// After a success a mutation asks for the work behind the next of its selections that takes any,
/// if it has the fields before it.
pub proof fn law_mutation_goes_on_with_its_next_work(view: MutationView, value: JsonView, i: int)
    requires
        0 <= view.next < i < view.selections.len(),
        mutation_field(view.fields, view.selections[i].name@) is Run,
        forall|j: int|
            view.next < j < i ==> mutation_field(
                view.fields,
                (#[trigger] view.selections[j]).name@,
            ) is TypeName,
    ensures
        view.resume(Ok(value)) matches MutationStepView::Execute(later, action) && later.next == i
            && later.selections == view.selections && later.root == view.root && later.fields
            == view.fields && mutation_field(view.fields, view.selections[i].name@)
            == FieldAnswer::Run(action),
{
    lemma_next_work(view.record(value), i);
}

/// The next work is that behind the first selection from here on that takes any.
proof fn lemma_next_work(view: MutationView, i: int)
    requires
        0 <= view.next <= i < view.selections.len(),
        mutation_field(view.fields, view.selections[i].name@) is Run,
        forall|j: int|
            view.next <= j < i ==> mutation_field(
                view.fields,
                (#[trigger] view.selections[j]).name@,
            ) is TypeName,
    ensures
        view.advance() matches MutationStepView::Execute(later, action) && later.next == i
            && later.selections == view.selections && later.root == view.root && later.fields
            == view.fields && mutation_field(view.fields, view.selections[i].name@)
            == FieldAnswer::Run(action),
    decreases i - view.next,
{
    if view.next < i {
        assert(mutation_field(view.fields, view.selections[view.next].name@) is TypeName);
        lemma_next_work(view.record(JsonView::Text(view.root)), i);
    }
}

/// A step of a mutation is seen as what it is, and a raised error with all that it holds.
pub proof fn law_mutation_step_is_seen_whole(step: MutationStep)
    ensures
        step matches MutationStep::Respond(response) ==> step@ == MutationStepView::Respond(
            response@,
        ),
        step matches MutationStep::Raise(error) ==> step@ == MutationStepView::Raise(error@),
        step matches MutationStep::Execute(state, action) ==> step@ == MutationStepView::Execute(
            state@,
            action,
        ),
{
}

} // verus!
