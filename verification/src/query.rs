//! Answering the fields of a query, one after the other. What a field needs from outside is
//! asked for as a [`QueryAction`]; a field that fails leaves the others as they are.

use vstd::prelude::*;

use crate::document::{alias_or_name, response_key, Field};
use crate::error::{
    unknown_field_message, ErrorMessage, ErrorView, GraphQLError, GraphQLResult,
};
use crate::fields::{
    entries_of, errors_of, field_outcomes, law_entries_are_the_successes, law_last_success_wins,
    lemma_errors_of, lemma_outcome_pushed, outcome_view, outside_fields, texts_of, FieldAnswer,
    FieldOutcome,
};
use crate::json::{empty_object, json_view, null_value, set_entry, text_value, JsonView};
use crate::response::{error_texts, refusal, refused, GraphQLResponse, Omit, ResponseView};
use crate::schema::{field_type, is_named, FieldType, ObjectType, TYPENAME};

verus! {

/// The work behind a field of the query root.
#[derive(Debug, Clone, Copy)]
pub enum QueryAction {
    /// Read a page of rows.
    Connection,
    /// Find a row by its global id.
    NodeInterface,
    /// Find a row by the columns of its primary key.
    NodeByPk,
    /// Describe a type of the schema.
    Type,
    /// Describe the schema.
    Schema,
    /// Read the clock.
    Heartbeat,
    /// Call a function of the database.
    FunctionCall,
}

/// How the field of that name is answered.
pub open spec fn query_field(fields: Map<Seq<char>, FieldType>, name: Seq<char>) -> FieldAnswer<
    QueryAction,
> {
    match field_type(fields, name) {
        None => FieldAnswer::Unknown,
        Some(FieldType::Connection) => FieldAnswer::Run(QueryAction::Connection),
        Some(FieldType::NodeInterface) => FieldAnswer::Run(QueryAction::NodeInterface),
        Some(FieldType::Node) => FieldAnswer::Run(QueryAction::NodeByPk),
        Some(FieldType::Type) => FieldAnswer::Run(QueryAction::Type),
        Some(FieldType::Schema) => FieldAnswer::Run(QueryAction::Schema),
        Some(_) => if name == TYPENAME@ {
            FieldAnswer::TypeName
        } else if name == "heartbeat"@ {
            FieldAnswer::Run(QueryAction::Heartbeat)
        } else {
            FieldAnswer::Run(QueryAction::FunctionCall)
        },
    }
}

/// How each of the selections is answered.
pub open spec fn query_fields(fields: Map<Seq<char>, FieldType>, selections: Seq<Field>) -> Seq<
    FieldAnswer<QueryAction>,
> {
    Seq::new(selections.len(), |i: int| query_field(fields, selections[i].name@))
}

/// How the field of that name is answered.
pub fn classify_query_field(
    query_type: &ObjectType,
    name: &String,
) -> (r: FieldAnswer<QueryAction>)
    ensures
        r == query_field(query_type@.fields, name@),
{
    match query_type.find_field(name) {
        None => FieldAnswer::Unknown,
        Some(FieldType::Connection) => FieldAnswer::Run(QueryAction::Connection),
        Some(FieldType::NodeInterface) => FieldAnswer::Run(QueryAction::NodeInterface),
        Some(FieldType::Node) => FieldAnswer::Run(QueryAction::NodeByPk),
        Some(FieldType::Type) => FieldAnswer::Run(QueryAction::Type),
        Some(FieldType::Schema) => FieldAnswer::Run(QueryAction::Schema),
        Some(_) => if is_named(name, TYPENAME) {
            FieldAnswer::TypeName
        } else if is_named(name, "heartbeat") {
            FieldAnswer::Run(QueryAction::Heartbeat)
        } else {
            FieldAnswer::Run(QueryAction::FunctionCall)
        },
    }
}

/// A query under way, as the contracts speak of it.
pub struct QueryView {
    /// The name of the query root.
    pub root: Seq<char>,
    /// The fields of the query root.
    pub fields: Map<Seq<char>, FieldType>,
    pub selections: Seq<Field>,
    /// The index of the selection whose turn it is.
    pub next: int,
    /// The data so far.
    pub entries: Map<Seq<char>, JsonView>,
    /// The texts of the errors so far.
    pub errors: Seq<Seq<char>>,
}

impl QueryView {
    /// The selection whose turn it is has the outcome: its value becomes the entry of its
    /// key, or the text of its error the last of the errors.
    pub open spec fn record(self, outcome: FieldOutcome) -> QueryView {
        match outcome {
            Ok(value) => QueryView {
                next: self.next + 1,
                entries: self.entries.insert(response_key(self.selections[self.next]), value),
                ..self
            },
            Err(error) => QueryView {
                next: self.next + 1,
                errors: self.errors.push(error.text()),
                ..self
            },
        }
    }

    /// Answers the fields that take no work from outside, up to the next that does.
    pub open spec fn advance(self) -> QueryStepView
        decreases self.selections.len() - self.next,
    {
        if self.next >= self.selections.len() {
            QueryStepView::Respond(query_response(self.entries, self.errors))
        } else {
            let name = self.selections[self.next].name@;
            match query_field(self.fields, name) {
                FieldAnswer::Unknown => self.record(
                    Err(ErrorView::FieldNotFound { field: name, on_type: self.root }),
                ).advance(),
                FieldAnswer::TypeName => self.record(Ok(JsonView::Text(self.root))).advance(),
                FieldAnswer::Run(action) => QueryStepView::Execute(self, action),
            }
        }
    }
}

/// The response once every field has its outcome. The data is null where there are errors
/// and no field succeeded.
pub open spec fn query_response(
    entries: Map<Seq<char>, JsonView>,
    errors: Seq<Seq<char>>,
) -> ResponseView {
    ResponseView {
        data: if errors.len() == 0 || entries.dom() != Set::<Seq<char>>::empty() {
            Omit::Present(JsonView::Object(entries))
        } else {
            Omit::Present(JsonView::Null)
        },
        errors: if errors.len() == 0 {
            Omit::Omitted
        } else {
            Omit::Present(errors)
        },
    }
}

/// What a query does next, as the contracts speak of it.
pub enum QueryStepView {
    Respond(ResponseView),
    Execute(QueryView, QueryAction),
}

/// A query that waits for the outcome of the work behind a field.
pub struct QueryState {
    query_type: ObjectType,
    selections: Vec<Field>,
    next: usize,
    data: serde_json::Value,
    errors: Vec<ErrorMessage>,
}

/// What a query does next.
pub enum QueryStep {
    /// It is answered.
    Respond(GraphQLResponse),
    /// It asks for the work behind a field.
    Execute(QueryState, QueryAction),
}

impl View for QueryState {
    type V = QueryView;

    closed spec fn view(&self) -> QueryView {
        QueryView {
            root: self.query_type@.name,
            fields: self.query_type@.fields,
            selections: self.selections@,
            next: self.next as int,
            entries: json_view(self.data)->Object_0,
            errors: error_texts(self.errors@),
        }
    }
}

impl View for QueryStep {
    type V = QueryStepView;

    open spec fn view(&self) -> QueryStepView {
        match self {
            QueryStep::Respond(response) => QueryStepView::Respond(response@),
            QueryStep::Execute(state, action) => QueryStepView::Execute(state@, *action),
        }
    }
}

/// The response once every field has its outcome.
fn finish(data: serde_json::Value, errors: Vec<ErrorMessage>) -> (r: GraphQLResponse)
    requires
        json_view(data) is Object,
    ensures
        r@ == query_response(json_view(data)->Object_0, error_texts(errors@)),
{
    let any_field_succeeded = match data.as_object() {
        Some(object) => !object.is_empty(),
        None => false,
    };
    let data = if errors.len() == 0 || any_field_succeeded {
        Omit::Present(data)
    } else {
        Omit::Present(null_value())
    };
    let errors = if errors.len() == 0 {
        Omit::Omitted
    } else {
        Omit::Present(errors)
    };
    GraphQLResponse { data, errors }
}

impl QueryState {
    #[verifier::type_invariant]
    spec fn wf(self) -> bool {
        &&& json_view(self.data) is Object
        &&& self.next < self.selections@.len()
    }

    /// The index of the selection that the query waits for.
    pub fn index(&self) -> (r: usize)
        ensures
            r == self@.next,
            r < self@.selections.len(),
    {
        proof {
            use_type_invariant(self);
        }
        self.next
    }

    /// The selection that the query waits for.
    pub fn selection(&self) -> (r: &Field)
        ensures
            *r == self@.selections[self@.next],
    {
        proof {
            use_type_invariant(self);
        }
        &self.selections[self.next]
    }

    /// Goes on with the outcome of the work behind the field that the query waits for.
    pub fn resume(self, outcome: GraphQLResult<serde_json::Value>) -> (r: QueryStep)
        ensures
            r@ == self@.record(outcome_view(outcome)).advance(),
    {
        proof {
            use_type_invariant(&self);
        }
        let QueryState { query_type, selections, next, data, errors } = self;
        let mut data = data;
        let mut errors = errors;
        let ghost texts = error_texts(errors@);
        match outcome {
            Ok(value) => {
                let key = alias_or_name(&selections[next]);
                set_entry(&mut data, key, value);
            },
            Err(error) => {
                let message = error.message();
                errors.push(ErrorMessage { message });
                assert(error_texts(errors@) =~= texts.push(message@));
            },
        }
        assert(next < selections.len());
        advance(query_type, selections, next + 1, data, errors)
    }
}

/// Answers the fields that take no work from outside, up to the next that does.
fn advance(
    query_type: ObjectType,
    selections: Vec<Field>,
    from: usize,
    data: serde_json::Value,
    errors: Vec<ErrorMessage>,
) -> (r: QueryStep)
    requires
        json_view(data) is Object,
        from <= selections@.len(),
    ensures
        r@ == (QueryView {
            root: query_type@.name,
            fields: query_type@.fields,
            selections: selections@,
            next: from as int,
            entries: json_view(data)->Object_0,
            errors: error_texts(errors@),
        }).advance(),
{
    let mut data = data;
    let mut errors = errors;
    let mut next: usize = from;
    let ghost start = QueryView {
        root: query_type@.name,
        fields: query_type@.fields,
        selections: selections@,
        next: from as int,
        entries: json_view(data)->Object_0,
        errors: error_texts(errors@),
    };
    #[verifier::loop_isolation(false)]
    while next < selections.len()
        invariant
            next <= selections@.len(),
            json_view(data) is Object,
            start.advance() == (QueryView {
                root: query_type@.name,
                fields: query_type@.fields,
                selections: selections@,
                next: next as int,
                entries: json_view(data)->Object_0,
                errors: error_texts(errors@),
            }).advance(),
        decreases selections@.len() - next,
    {
        match classify_query_field(&query_type, &selections[next].name) {
            FieldAnswer::Unknown => {
                let ghost texts = error_texts(errors@);
                let message = unknown_field_message(&selections[next].name, query_type.name());
                errors.push(ErrorMessage { message });
                assert(error_texts(errors@) =~= texts.push(message@));
            },
            FieldAnswer::TypeName => {
                let key = alias_or_name(&selections[next]);
                set_entry(&mut data, key, text_value(query_type.name().clone()));
            },
            FieldAnswer::Run(action) => {
                return QueryStep::Execute(
                    QueryState { query_type, selections, next, data, errors },
                    action,
                );
            },
        }
        next = next + 1;
    }
    QueryStep::Respond(finish(data, errors))
}

/// How a query begins, given its selections after fragments and directives are resolved, or
/// the error that this met.
pub open spec fn query_start(
    query_type: ObjectType,
    selections: GraphQLResult<Vec<Field>>,
) -> QueryStepView {
    match selections {
        Err(error) => QueryStepView::Respond(refused(error@.text())),
        Ok(selections) => if selections@.len() == 0 {
            QueryStepView::Respond(refused("Selection set must not be empty"@))
        } else {
            (QueryView {
                root: query_type@.name,
                fields: query_type@.fields,
                selections: selections@,
                next: 0,
                entries: Map::empty(),
                errors: Seq::empty(),
            }).advance()
        },
    }
}

/// Begins to answer the selections of a query. The selections are those of the operation
/// after fragments and directives are resolved, or the error that this met.
pub fn resolve_selection_set(
    query_type: ObjectType,
    selections: GraphQLResult<Vec<Field>>,
) -> (r: QueryStep)
    ensures
        r@ == query_start(query_type, selections),
{
    match selections {
        Err(error) => QueryStep::Respond(refusal(error.message())),
        Ok(selections) => {
            if selections.len() == 0 {
                return QueryStep::Respond(refusal("Selection set must not be empty".to_owned()));
            }
            let errors: Vec<ErrorMessage> = Vec::new();
            assert(error_texts(errors@) =~= Seq::empty());
            advance(query_type, selections, 0, empty_object(), errors)
        },
    }
}

/// A query that is handed the outcomes, one each time it asks for work.
pub open spec fn query_run(step: QueryStepView, outcomes: Seq<FieldOutcome>) -> QueryStepView
    decreases outcomes.len(),
{
    match step {
        QueryStepView::Execute(view, _) if outcomes.len() > 0 => query_run(
            view.record(outcomes.first()).advance(),
            outcomes.drop_first(),
        ),
        _ => step,
    }
}

/// A query under way that is handed the outcomes it still asks for is answered by what is
/// done and what they add.
proof fn lemma_query_run(view: QueryView, done: Seq<FieldOutcome>, outcomes: Seq<FieldOutcome>)
    requires
        0 <= view.next <= view.selections.len(),
        done.len() == view.next,
        view.entries == entries_of(view.selections.take(view.next), done),
        view.errors == texts_of(errors_of(done)),
        outcomes.len() == outside_fields(
            query_fields(view.fields, view.selections.skip(view.next)),
        ),
    ensures
        ({
            let all = done + field_outcomes(
                view.root,
                view.selections.skip(view.next),
                query_fields(view.fields, view.selections.skip(view.next)),
                outcomes,
            );
            &&& all.len() == view.selections.len()
            &&& query_run(view.advance(), outcomes) == QueryStepView::Respond(
                query_response(entries_of(view.selections, all), texts_of(errors_of(all))),
            )
        }),
    decreases view.selections.len() - view.next,
{
    let left = view.selections.skip(view.next);
    let added = field_outcomes(view.root, left, query_fields(view.fields, left), outcomes);
    if view.next == view.selections.len() {
        assert(done + added =~= done);
        assert(view.selections.take(view.next) =~= view.selections);
    } else {
        let name = view.selections[view.next].name@;
        assert(left.first() == view.selections[view.next]);
        assert(left.drop_first() =~= view.selections.skip(view.next + 1));
        assert(query_fields(view.fields, left).drop_first() =~= query_fields(
            view.fields,
            left.drop_first(),
        ));
        let (outcome, remaining): (FieldOutcome, Seq<FieldOutcome>) = match query_field(
            view.fields,
            name,
        ) {
            FieldAnswer::Unknown => (
                Err(ErrorView::FieldNotFound { field: name, on_type: view.root }),
                outcomes,
            ),
            FieldAnswer::TypeName => (Ok(JsonView::Text(view.root)), outcomes),
            FieldAnswer::Run(_) => (outcomes.first(), outcomes.drop_first()),
        };
        let next = view.record(outcome);
        lemma_outcome_pushed(view.selections, done, outcome);
        assert(next.errors =~= texts_of(errors_of(done.push(outcome))));
        lemma_query_run(next, done.push(outcome), remaining);
        assert(done.push(outcome) + field_outcomes(
            view.root,
            view.selections.skip(view.next + 1),
            query_fields(view.fields, view.selections.skip(view.next + 1)),
            remaining,
        ) =~= done + added);
    }
}

/// A query that is handed an outcome for each field that takes work from outside is
/// answered, and the outcomes of its fields alone make the answer.
pub proof fn law_query_is_answered(
    query_type: ObjectType,
    selections: Vec<Field>,
    outcomes: Seq<FieldOutcome>,
)
    requires
        selections@.len() > 0,
        outcomes.len() == outside_fields(query_fields(query_type@.fields, selections@)),
    ensures
        ({
            let all = field_outcomes(
                query_type@.name,
                selections@,
                query_fields(query_type@.fields, selections@),
                outcomes,
            );
            &&& all.len() == selections@.len()
            &&& query_run(query_start(query_type, Ok(selections)), outcomes)
                == QueryStepView::Respond(
                query_response(entries_of(selections@, all), texts_of(errors_of(all))),
            )
        }),
{
    let view = QueryView {
        root: query_type@.name,
        fields: query_type@.fields,
        selections: selections@,
        next: 0,
        entries: Map::empty(),
        errors: Seq::empty(),
    };
    assert(selections@.skip(0) =~= selections@);
    assert(view.errors =~= texts_of(errors_of(Seq::empty())));
    lemma_query_run(view, Seq::empty(), outcomes);
    let all = field_outcomes(
        query_type@.name,
        selections@,
        query_fields(query_type@.fields, selections@),
        outcomes,
    );
    assert(Seq::<FieldOutcome>::empty() + all =~= all);
}

/// An answered query reports errors exactly where a field failed. Its data is null exactly
/// where every field failed, and is never left out.
pub proof fn law_partial_success(selections: Seq<Field>, outcomes: Seq<FieldOutcome>)
    requires
        selections.len() == outcomes.len(),
        selections.len() > 0,
    ensures
        ({
            let response = query_response(
                entries_of(selections, outcomes),
                texts_of(errors_of(outcomes)),
            );
            &&& response.errors is Omitted <==> forall|i: int|
                0 <= i < outcomes.len() ==> #[trigger] outcomes[i] is Ok
            &&& response.data == Omit::Present(JsonView::Null) <==> forall|i: int|
                0 <= i < outcomes.len() ==> #[trigger] outcomes[i] is Err
            &&& response.data != Omit::Present(JsonView::Null) ==> response.data == Omit::Present(
                JsonView::Object(entries_of(selections, outcomes)),
            )
        }),
{
    let entries = entries_of(selections, outcomes);
    lemma_errors_of(outcomes);
    if forall|i: int| 0 <= i < outcomes.len() ==> #[trigger] outcomes[i] is Err {
        assert(outcomes[0] is Err);
        assert forall|key: Seq<char>| !#[trigger] entries.dom().contains(key) by {
            law_entries_are_the_successes(selections, outcomes, key);
        }
        assert(entries.dom() =~= Set::empty());
    } else {
        let i = choose|i: int| 0 <= i < outcomes.len() && !(#[trigger] outcomes[i] is Err);
        assert(outcomes[i] is Ok);
        law_entries_are_the_successes(selections, outcomes, response_key(selections[i]));
        assert(entries.dom().contains(response_key(selections[i])));
    }
}

/// The work that a query asks for is that behind the selection whose turn it is.
proof fn lemma_advance(view: QueryView)
    requires
        0 <= view.next,
    ensures
        view.advance() matches QueryStepView::Execute(later, action) ==> {
            &&& view.next <= later.next < view.selections.len()
            &&& later.selections == view.selections
            &&& later.root == view.root
            &&& later.fields == view.fields
            &&& query_field(view.fields, view.selections[later.next].name@)
                == FieldAnswer::Run(action)
        },
    decreases view.selections.len() - view.next,
{
    if view.next < view.selections.len() {
        let name = view.selections[view.next].name@;
        match query_field(view.fields, name) {
            FieldAnswer::Unknown => {
                let error = ErrorView::FieldNotFound { field: name, on_type: view.root };
                lemma_advance(view.record(Err(error)));
            },
            FieldAnswer::TypeName => {
                lemma_advance(view.record(Ok(JsonView::Text(view.root))));
            },
            FieldAnswer::Run(_) => {},
        }
    }
}

/// After an outcome the next work that a query asks for is that behind a later selection, so
/// that no selection is carried out twice.
pub proof fn law_work_goes_forward(view: QueryView, outcome: FieldOutcome)
    requires
        0 <= view.next < view.selections.len(),
    ensures
        view.record(outcome).advance() matches QueryStepView::Execute(later, action) ==> {
            &&& view.next < later.next < view.selections.len()
            &&& later.selections == view.selections
            &&& later.root == view.root
            &&& later.fields == view.fields
            &&& query_field(view.fields, view.selections[later.next].name@)
                == FieldAnswer::Run(action)
        },
{
    lemma_advance(view.record(outcome));
}

/// The work behind a field of the query root follows from what the field gives, whatever its
/// name; the name counts only for a field that gives something else. Without the field there
/// is no work.
pub proof fn law_query_work_follows_from_the_type(
    fields: Map<Seq<char>, FieldType>,
    name: Seq<char>,
)
    ensures
        !fields.dom().contains(name) <==> query_field(fields, name) is Unknown,
        fields.dom().contains(name) ==> {
            let given = fields[name];
            let answer = query_field(fields, name);
            let by_name = !(given is Connection || given is NodeInterface || given is Node || given
                is Type || given is Schema);
            &&& given is Connection <==> answer == FieldAnswer::Run(QueryAction::Connection)
            &&& given is NodeInterface <==> answer == FieldAnswer::Run(QueryAction::NodeInterface)
            &&& given is Node <==> answer == FieldAnswer::Run(QueryAction::NodeByPk)
            &&& given is Type <==> answer == FieldAnswer::Run(QueryAction::Type)
            &&& given is Schema <==> answer == FieldAnswer::Run(QueryAction::Schema)
            &&& by_name && name == "__typename"@ <==> answer is TypeName
            &&& by_name && name == "heartbeat"@ <==> answer == FieldAnswer::Run(
                QueryAction::Heartbeat,
            )
            &&& by_name && name != "__typename"@ && name != "heartbeat"@ <==> answer
                == FieldAnswer::Run(QueryAction::FunctionCall)
        },
{
    reveal_strlit("__typename");
    reveal_strlit("heartbeat");
    assert("__typename"@.len() != "heartbeat"@.len());
}

/// The outcomes agree with the query root on the fields that take no work from outside: one that
/// the root does not have has failed, and `__typename` has the name of the root.
pub open spec fn agrees_with_query_root(
    query_type: ObjectType,
    selections: Seq<Field>,
    outcomes: Seq<FieldOutcome>,
) -> bool {
    &&& outcomes.len() == selections.len()
    &&& forall|i: int|
        0 <= i < selections.len() ==> {
            let name = (#[trigger] selections[i]).name@;
            let fields = query_type@.fields;
            if !fields.dom().contains(name) {
                outcomes[i] == Err::<JsonView, ErrorView>(
                    ErrorView::FieldNotFound { field: name, on_type: query_type@.name },
                )
            } else {
                name == "__typename"@ && !(fields[name] is Connection || fields[name]
                    is NodeInterface || fields[name] is Node || fields[name] is Type
                    || fields[name] is Schema) ==> outcomes[i] == Ok::<JsonView, ErrorView>(
                    JsonView::Text(query_type@.name),
                )
            }
        }
}

/// A query that is handed, each time it asks for work, the outcome of the selection that it
/// waits for, at most so many times.
pub open spec fn query_fed(
    step: QueryStepView,
    outcomes: Seq<FieldOutcome>,
    times: nat,
) -> QueryStepView
    decreases times,
{
    match step {
        QueryStepView::Execute(view, _) if times > 0 => query_fed(
            view.record(outcomes[view.next]).advance(),
            outcomes,
            (times - 1) as nat,
        ),
        _ => step,
    }
}

/// A query under way that is fed the outcomes is answered by all of them.
proof fn lemma_query_fed(
    query_type: ObjectType,
    view: QueryView,
    outcomes: Seq<FieldOutcome>,
    times: nat,
)
    requires
        view.root == query_type@.name,
        view.fields == query_type@.fields,
        agrees_with_query_root(query_type, view.selections, outcomes),
        0 <= view.next <= view.selections.len(),
        times >= view.selections.len() - view.next,
        view.entries == entries_of(view.selections.take(view.next), outcomes.take(view.next)),
        view.errors == texts_of(errors_of(outcomes.take(view.next))),
    ensures
        query_fed(view.advance(), outcomes, times) == QueryStepView::Respond(
            query_response(entries_of(view.selections, outcomes), texts_of(errors_of(outcomes))),
        ),
    decreases view.selections.len() - view.next,
{
    if view.next == view.selections.len() {
        assert(view.selections.take(view.next) =~= view.selections);
        assert(outcomes.take(view.next) =~= outcomes);
    } else {
        let outcome = outcomes[view.next];
        let done = outcomes.take(view.next);
        let next = view.record(outcome);
        law_query_work_follows_from_the_type(view.fields, view.selections[view.next].name@);
        lemma_outcome_pushed(view.selections, done, outcome);
        assert(done.push(outcome) =~= outcomes.take(view.next + 1));
        assert(next.errors =~= texts_of(errors_of(done.push(outcome))));
        match query_field(view.fields, view.selections[view.next].name@) {
            FieldAnswer::Run(_) => {
                lemma_query_fed(query_type, next, outcomes, (times - 1) as nat);
            },
            _ => {
                lemma_query_fed(query_type, next, outcomes, times);
            },
        }
    }
}

/// A query is answered by the outcomes of its fields: the errors are those of the fields that
/// failed, in the order of the selections, and the data is null where every field failed, and
/// else holds what succeeded.
pub proof fn law_query_answers_with_every_outcome(
    query_type: ObjectType,
    selections: Vec<Field>,
    outcomes: Seq<FieldOutcome>,
)
    requires
        selections@.len() > 0,
        agrees_with_query_root(query_type, selections@, outcomes),
    ensures
        ({
            let end = query_fed(
                query_start(query_type, Ok(selections)),
                outcomes,
                selections@.len(),
            );
            &&& end matches QueryStepView::Respond(response)
            &&& (forall|i: int| 0 <= i < outcomes.len() ==> #[trigger] outcomes[i] is Ok)
                ==> response.errors is Omitted
            &&& (exists|i: int| 0 <= i < outcomes.len() && #[trigger] outcomes[i] is Err)
                ==> response.errors == Omit::Present(texts_of(errors_of(outcomes)))
            &&& (forall|i: int| 0 <= i < outcomes.len() ==> #[trigger] outcomes[i] is Err)
                ==> response.data == Omit::Present(JsonView::Null)
            &&& (exists|i: int| 0 <= i < outcomes.len() && #[trigger] outcomes[i] is Ok)
                ==> response.data == Omit::Present(
                JsonView::Object(entries_of(selections@, outcomes)),
            )
        }),
{
    let view = QueryView {
        root: query_type@.name,
        fields: query_type@.fields,
        selections: selections@,
        next: 0,
        entries: Map::empty(),
        errors: Seq::empty(),
    };
    assert(view.errors =~= texts_of(errors_of(outcomes.take(0))));
    lemma_query_fed(query_type, view, outcomes, selections@.len());
    law_partial_success(selections@, outcomes);
    lemma_errors_of(outcomes);
}

/// In the answer to a query every field that succeeded has its value under its alias, or under
/// its name where it has none, unless a later one with the same key succeeded too. Fields that
/// failed take nothing away from it.
pub proof fn law_query_answers_each_field_under_its_key(
    query_type: ObjectType,
    selections: Vec<Field>,
    outcomes: Seq<FieldOutcome>,
    i: int,
    key: Seq<char>,
)
    requires
        agrees_with_query_root(query_type, selections@, outcomes),
        0 <= i < outcomes.len(),
        outcomes[i] is Ok,
        match selections@[i].alias {
            Some(alias) => alias@ == key,
            None => selections@[i].name@ == key,
        },
        forall|j: int|
            i < j < outcomes.len() && #[trigger] outcomes[j] is Ok ==> (match selections@[j].alias {
                Some(alias) => alias@ != key,
                None => selections@[j].name@ != key,
            }),
    ensures
        ({
            let end = query_fed(
                query_start(query_type, Ok(selections)),
                outcomes,
                selections@.len(),
            );
            &&& end matches QueryStepView::Respond(response)
            &&& response.data matches Omit::Present(JsonView::Object(entries))
            &&& entries.dom().contains(key)
            &&& entries[key] == outcomes[i]->Ok_0
        }),
{
    law_query_answers_with_every_outcome(query_type, selections, outcomes);
    law_last_success_wins(selections@, outcomes, i);
}

/// In the answer to a query there is nothing but what fields that succeeded have put there.
pub proof fn law_query_answers_nothing_else(
    query_type: ObjectType,
    selections: Vec<Field>,
    outcomes: Seq<FieldOutcome>,
    entries: Map<Seq<char>, JsonView>,
    key: Seq<char>,
)
    requires
        selections@.len() > 0,
        agrees_with_query_root(query_type, selections@, outcomes),
        query_fed(
            query_start(query_type, Ok(selections)),
            outcomes,
            selections@.len(),
        ) matches QueryStepView::Respond(response) && response.data == Omit::Present(
            JsonView::Object(entries),
        ),
        entries.dom().contains(key),
    ensures
        exists|i: int|
            0 <= i < outcomes.len() && #[trigger] outcomes[i] is Ok && (match selections@[i].alias {
                Some(alias) => alias@ == key,
                None => selections@[i].name@ == key,
            }),
{
    law_query_answers_with_every_outcome(query_type, selections, outcomes);
    law_entries_are_the_successes(selections@, outcomes, key);
    let i = choose|i: int|
        0 <= i < outcomes.len() && #[trigger] outcomes[i] is Ok && response_key(selections@[i])
            == key;
    assert(outcomes[i] is Ok);
}

/// A query whose selections could not be resolved is answered with that error alone, and one
/// without selections with the message that there must be some.
pub proof fn law_query_without_fields_is_refused(
    query_type: ObjectType,
    error: GraphQLError,
    selections: Vec<Field>,
)
    ensures
        query_start(query_type, Err(error)) == QueryStepView::Respond(
            ResponseView {
                data: Omit::Omitted,
                errors: Omit::Present(seq![error@.text()]),
            },
        ),
        selections@.len() == 0 ==> query_start(query_type, Ok(selections))
            == QueryStepView::Respond(
            ResponseView {
                data: Omit::Omitted,
                errors: Omit::Present(seq!["Selection set must not be empty"@]),
            },
        ),
{
}

/// A query first asks for the work behind the first of its selections that takes any.
pub proof fn law_query_begins_with_its_first_work(
    query_type: ObjectType,
    selections: Vec<Field>,
    i: int,
)
    requires
        0 <= i < selections@.len(),
        query_field(query_type@.fields, selections@[i].name@) is Run,
        forall|j: int|
            0 <= j < i ==> !(query_field(
                query_type@.fields,
                (#[trigger] selections@[j]).name@,
            ) is Run),
    ensures
        query_start(query_type, Ok(selections)) matches QueryStepView::Execute(view, action)
            && view.next == i && view.selections == selections@ && view.root == query_type@.name
            && view.fields == query_type@.fields && query_field(
            query_type@.fields,
            selections@[i].name@,
        ) == FieldAnswer::Run(action),
{
    let view = QueryView {
        root: query_type@.name,
        fields: query_type@.fields,
        selections: selections@,
        next: 0,
        entries: Map::empty(),
        errors: Seq::empty(),
    };
    lemma_next_work(view, i);
}

/// After an outcome a query asks for the work behind the next of its selections that takes any.
pub proof fn law_query_goes_on_with_its_next_work(view: QueryView, outcome: FieldOutcome, i: int)
    requires
        0 <= view.next < i < view.selections.len(),
        query_field(view.fields, view.selections[i].name@) is Run,
        forall|j: int|
            view.next < j < i ==> !(query_field(view.fields, (#[trigger] view.selections[j]).name@)
                is Run),
    ensures
        view.record(outcome).advance() matches QueryStepView::Execute(later, action) && later.next
            == i && later.selections == view.selections && later.root == view.root && later.fields
            == view.fields && query_field(view.fields, view.selections[i].name@)
            == FieldAnswer::Run(action),
{
    lemma_next_work(view.record(outcome), i);
}

/// The next work is that behind the first selection from here on that takes any.
proof fn lemma_next_work(view: QueryView, i: int)
    requires
        0 <= view.next <= i < view.selections.len(),
        query_field(view.fields, view.selections[i].name@) is Run,
        forall|j: int|
            view.next <= j < i ==> !(query_field(view.fields, (#[trigger] view.selections[j]).name@)
                is Run),
    ensures
        view.advance() matches QueryStepView::Execute(later, action) && later.next == i
            && later.selections == view.selections && later.root == view.root && later.fields
            == view.fields && query_field(view.fields, view.selections[i].name@)
            == FieldAnswer::Run(action),
    decreases i - view.next,
{
    if view.next < i {
        let name = view.selections[view.next].name@;
        assert(!(query_field(view.fields, name) is Run));
        match query_field(view.fields, name) {
            FieldAnswer::Unknown => {
                let error = ErrorView::FieldNotFound { field: name, on_type: view.root };
                lemma_next_work(view.record(Err(error)), i);
            },
            FieldAnswer::TypeName => {
                lemma_next_work(view.record(Ok(JsonView::Text(view.root))), i);
            },
            FieldAnswer::Run(_) => {},
        }
    }
}

/// A step of a query is seen as what it is.
pub proof fn law_query_step_is_seen_whole(step: QueryStep)
    ensures
        step matches QueryStep::Respond(response) ==> step@ == QueryStepView::Respond(response@),
        step matches QueryStep::Execute(state, action) ==> step@ == QueryStepView::Execute(
            state@,
            action,
        ),
{
}

} // verus!
