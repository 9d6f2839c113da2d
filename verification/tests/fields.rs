use graphql_resolve::document::{Field, SelectionSet};
use graphql_resolve::error::{unknown_field_message, GraphQLError};
use graphql_resolve::fields::FieldAnswer;
use graphql_resolve::mutation::{
    classify_mutation_field, resolve_mutation_selection_set, MutationAction, MutationStep,
};
use graphql_resolve::operation::{begin_operation, root_name, OperationStep};
use graphql_resolve::query::{
    classify_query_field, resolve_selection_set, QueryAction, QueryStep,
};
use graphql_resolve::request::{Execution, RootType};
use graphql_resolve::response::{refusal, GraphQLResponse, Omit};
use graphql_resolve::schema::{is_named, FieldDefinition, FieldType, ObjectType};
use serde_json::Value;

fn json(text: &str) -> Value {
    serde_json::from_str(text).expect("valid JSON")
}

fn object_type(name: &str, fields: &[(&str, FieldType)]) -> ObjectType {
    ObjectType::new(
        name.to_string(),
        fields
            .iter()
            .map(|(name, unmodified_type)| FieldDefinition {
                name: name.to_string(),
                unmodified_type: *unmodified_type,
            })
            .collect(),
    )
}

fn query_type() -> ObjectType {
    object_type(
        "Query",
        &[
            ("accountCollection", FieldType::Connection),
            ("node", FieldType::NodeInterface),
            ("accountByPk", FieldType::Node),
            ("__type", FieldType::Type),
            ("__schema", FieldType::Schema),
            ("__typename", FieldType::Other),
            ("heartbeat", FieldType::Other),
            ("addNums", FieldType::Other),
        ],
    )
}

fn mutation_type() -> ObjectType {
    object_type(
        "Mutation",
        &[
            ("insertIntoAccountCollection", FieldType::InsertResponse),
            ("updateAccountCollection", FieldType::UpdateResponse),
            ("deleteFromAccountCollection", FieldType::DeleteResponse),
            ("__typename", FieldType::Other),
            ("heartbeat", FieldType::Other),
            ("addNums", FieldType::Other),
        ],
    )
}

fn field(alias: Option<&str>, name: &str) -> Field {
    Field {
        alias: alias.map(|alias| alias.to_string()),
        name: name.to_string(),
        selection_set: SelectionSet { items: vec![] },
    }
}

fn failure(message: &str) -> GraphQLError {
    GraphQLError::Execution { message: message.to_string() }
}

// Hands the query the outcomes in turn. Gives the response, and what was asked for: the index
// of the selection and the work.
fn run_query(
    fields: Vec<Field>,
    outcomes: Vec<Result<Value, GraphQLError>>,
) -> (GraphQLResponse, Vec<(usize, String)>) {
    let mut asked = vec![];
    let mut outcomes = outcomes.into_iter();
    let mut step = resolve_selection_set(query_type(), Ok(fields));
    loop {
        match step {
            QueryStep::Respond(response) => {
                assert!(outcomes.next().is_none());
                return (response, asked);
            }
            QueryStep::Execute(state, action) => {
                asked.push((state.index(), format!("{action:?}")));
                step = state.resume(outcomes.next().expect("an outcome"));
            }
        }
    }
}

enum End {
    Answered(GraphQLResponse),
    Raised(GraphQLError),
}

fn run_mutation(
    fields: Vec<Field>,
    outcomes: Vec<Result<Value, GraphQLError>>,
) -> (End, Vec<(usize, String)>) {
    let mut asked = vec![];
    let mut outcomes = outcomes.into_iter();
    let mut step = resolve_mutation_selection_set(Some((mutation_type(), Ok(fields))));
    loop {
        match step {
            MutationStep::Respond(response) => {
                assert!(outcomes.next().is_none());
                return (End::Answered(response), asked);
            }
            MutationStep::Raise(error) => return (End::Raised(error), asked),
            MutationStep::Execute(state, action) => {
                asked.push((state.index(), format!("{action:?}")));
                step = state.resume(outcomes.next().expect("an outcome"));
            }
        }
    }
}

fn data(response: &GraphQLResponse) -> Option<Value> {
    match &response.data {
        Omit::Present(value) => Some(value.clone()),
        Omit::Omitted => None,
    }
}

fn messages(response: &GraphQLResponse) -> Option<Vec<String>> {
    match &response.errors {
        Omit::Present(errors) => Some(errors.iter().map(|error| error.message.clone()).collect()),
        Omit::Omitted => None,
    }
}

fn strings(texts: &[&str]) -> Option<Vec<String>> {
    Some(texts.iter().map(|text| text.to_string()).collect())
}

#[test]
fn query_fields_are_told_apart() {
    let answer =
        |name: &str| format!("{:?}", classify_query_field(&query_type(), &name.to_string()));
    assert_eq!(answer("accountCollection"), "Run(Connection)");
    assert_eq!(answer("node"), "Run(NodeInterface)");
    assert_eq!(answer("accountByPk"), "Run(NodeByPk)");
    assert_eq!(answer("__type"), "Run(Type)");
    assert_eq!(answer("__schema"), "Run(Schema)");
    assert_eq!(answer("__typename"), "TypeName");
    assert_eq!(answer("heartbeat"), "Run(Heartbeat)");
    assert_eq!(answer("addNums"), "Run(FunctionCall)");
    assert_eq!(answer("missing"), "Unknown");
}

#[test]
fn mutation_fields_are_told_apart() {
    let answer =
        |name: &str| format!("{:?}", classify_mutation_field(&mutation_type(), &name.to_string()));
    assert_eq!(answer("insertIntoAccountCollection"), "Run(Insert)");
    assert_eq!(answer("updateAccountCollection"), "Run(Update)");
    assert_eq!(answer("deleteFromAccountCollection"), "Run(Delete)");
    assert_eq!(answer("__typename"), "TypeName");
    // The clock is read by queries only.
    assert_eq!(answer("heartbeat"), "Run(FunctionCall)");
    assert_eq!(answer("addNums"), "Run(FunctionCall)");
    assert_eq!(answer("missing"), "Unknown");
}

#[test]
fn type_of_a_field_comes_before_its_name() {
    let odd = object_type("Query", &[("heartbeat", FieldType::Connection)]);
    assert!(matches!(
        classify_query_field(&odd, &"heartbeat".to_string()),
        FieldAnswer::Run(QueryAction::Connection)
    ));
    let odd = object_type("Mutation", &[("__typename", FieldType::InsertResponse)]);
    assert!(matches!(
        classify_mutation_field(&odd, &"__typename".to_string()),
        FieldAnswer::Run(MutationAction::Insert)
    ));
    let odd = object_type("Query", &[("insert", FieldType::InsertResponse)]);
    assert!(matches!(
        classify_query_field(&odd, &"insert".to_string()),
        FieldAnswer::Run(QueryAction::FunctionCall)
    ));
}

#[test]
fn query_answers_every_field_in_turn() {
    let (response, asked) = run_query(
        vec![
            field(None, "accountCollection"),
            field(None, "__typename"),
            field(Some("now"), "heartbeat"),
        ],
        vec![Ok(json("{\"edges\": []}")), Ok(json("\"2024-01-01\""))],
    );
    assert_eq!(asked, vec![(0, "Connection".to_string()), (2, "Heartbeat".to_string())]);
    assert_eq!(
        data(&response),
        Some(json(
            "{\"accountCollection\": {\"edges\": []}, \"__typename\": \"Query\", \"now\": \"2024-01-01\"}"
        ))
    );
    assert_eq!(messages(&response), None);
}

#[test]
fn query_keeps_what_succeeded_beside_what_failed() {
    let (response, asked) = run_query(
        vec![
            field(None, "missing"),
            field(None, "accountCollection"),
            field(None, "node"),
            field(Some("absent"), "alsoMissing"),
        ],
        vec![Err(failure("no such table")), Ok(json("null"))],
    );
    assert_eq!(asked.len(), 2);
    assert_eq!(data(&response), Some(json("{\"node\": null}")));
    assert_eq!(
        messages(&response),
        strings(&[
            "Unknown field \"missing\" on type Query",
            "no such table",
            "Unknown field \"alsoMissing\" on type Query",
        ])
    );
}

#[test]
fn query_has_null_data_where_every_field_failed() {
    let (response, _) =
        run_query(vec![field(None, "node")], vec![Err(GraphQLError::validation("bad id"))]);
    assert_eq!(data(&response), Some(Value::Null));
    assert_eq!(messages(&response), strings(&["bad id"]));
}

#[test]
fn last_of_two_fields_with_one_key_wins() {
    let (response, _) = run_query(
        vec![field(Some("x"), "addNums"), field(Some("x"), "node"), field(Some("x"), "node")],
        vec![Ok(json("1")), Ok(json("2")), Err(failure("gone"))],
    );
    assert_eq!(data(&response), Some(json("{\"x\": 2}")));
    assert_eq!(messages(&response), strings(&["gone"]));
}

#[test]
fn query_without_selections_is_refused() {
    match resolve_selection_set(query_type(), Ok(vec![])) {
        QueryStep::Respond(response) => {
            assert_eq!(data(&response), None);
            assert_eq!(messages(&response), strings(&["Selection set must not be empty"]));
        }
        QueryStep::Execute(_, action) => panic!("asks for {action:?}"),
    }
}

#[test]
fn query_whose_selections_cannot_be_resolved_is_refused() {
    let error = GraphQLError::validation("no fragment named f");
    match resolve_selection_set(query_type(), Err(error)) {
        QueryStep::Respond(response) => {
            assert_eq!(data(&response), None);
            assert_eq!(messages(&response), strings(&["no fragment named f"]));
        }
        QueryStep::Execute(_, action) => panic!("asks for {action:?}"),
    }
}

#[test]
fn waiting_state_shows_its_selection() {
    let fields = vec![field(None, "__typename"), field(Some("a"), "addNums")];
    match resolve_selection_set(query_type(), Ok(fields)) {
        QueryStep::Execute(state, QueryAction::FunctionCall) => {
            assert_eq!(state.index(), 1);
            assert_eq!(state.selection().name, "addNums");
        }
        _ => panic!("another step"),
    }
    let fields = vec![field(None, "__typename"), field(None, "deleteFromAccountCollection")];
    match resolve_mutation_selection_set(Some((mutation_type(), Ok(fields)))) {
        MutationStep::Execute(state, MutationAction::Delete) => {
            assert_eq!(state.index(), 1);
            assert_eq!(state.selection().name, "deleteFromAccountCollection");
        }
        _ => panic!("another step"),
    }
}

#[test]
fn mutation_answers_with_every_field() {
    let (end, asked) = run_mutation(
        vec![
            field(None, "insertIntoAccountCollection"),
            field(Some("t"), "__typename"),
            field(None, "updateAccountCollection"),
        ],
        vec![Ok(json("{\"affectedCount\": 1}")), Ok(json("{\"affectedCount\": 2}"))],
    );
    assert_eq!(asked, vec![(0, "Insert".to_string()), (2, "Update".to_string())]);
    match end {
        End::Answered(response) => {
            assert_eq!(
                data(&response),
                Some(json(
                    "{\"insertIntoAccountCollection\": {\"affectedCount\": 1}, \"t\": \"Mutation\", \"updateAccountCollection\": {\"affectedCount\": 2}}"
                ))
            );
            assert_eq!(messages(&response), None);
        }
        End::Raised(error) => panic!("{error:?}"),
    }
}

#[test]
fn mutation_ends_at_its_first_failure() {
    let (end, asked) = run_mutation(
        vec![
            field(None, "insertIntoAccountCollection"),
            field(None, "updateAccountCollection"),
            field(None, "deleteFromAccountCollection"),
        ],
        vec![Ok(json("1")), Err(failure("check violated")), Ok(json("3"))],
    );
    assert_eq!(asked.len(), 2);
    match end {
        End::Raised(error) => assert_eq!(error.message(), "check violated"),
        End::Answered(response) => panic!("{response:?}"),
    }
}

#[test]
fn mutation_raises_an_unknown_field() {
    let (end, asked) = run_mutation(
        vec![field(None, "insertIntoAccountCollection"), field(None, "insertDNE")],
        vec![Ok(json("1"))],
    );
    assert_eq!(asked.len(), 1);
    match end {
        End::Raised(error) => {
            assert!(matches!(error, GraphQLError::FieldNotFound { .. }));
            assert_eq!(error.message(), "Unknown field \"insertDNE\" on type Mutation");
        }
        End::Answered(response) => panic!("{response:?}"),
    }
}

#[test]
fn mutation_without_selections_is_raised() {
    match resolve_mutation_selection_set(Some((mutation_type(), Ok(vec![])))) {
        MutationStep::Raise(error) => {
            assert_eq!(error.message(), "Selection set must not be empty");
            assert!(matches!(error, GraphQLError::Validation { .. }));
        }
        _ => panic!("another step"),
    }
}

#[test]
fn raised_unknown_field_names_the_field_and_the_root() {
    let fields = vec![field(Some("alias"), "nothing")];
    match resolve_mutation_selection_set(Some((mutation_type(), Ok(fields)))) {
        MutationStep::Raise(GraphQLError::FieldNotFound { field, on_type }) => {
            assert_eq!(field, "nothing");
            assert_eq!(on_type, "Mutation");
        }
        _ => panic!("another step"),
    }
    let fields = vec![field(None, "addNums"), field(None, "nothing")];
    match resolve_mutation_selection_set(Some((mutation_type(), Ok(fields)))) {
        MutationStep::Execute(state, MutationAction::FunctionCall) => {
            match state.resume(Ok(Value::Null)) {
                MutationStep::Raise(GraphQLError::FieldNotFound { field, on_type }) => {
                    assert_eq!(field, "nothing");
                    assert_eq!(on_type, "Mutation");
                }
                _ => panic!("another step"),
            }
        }
        _ => panic!("another step"),
    }
}

#[test]
fn mutation_whose_selections_cannot_be_resolved_is_refused() {
    let root = Some((mutation_type(), Err(GraphQLError::validation("bad directive"))));
    match resolve_mutation_selection_set(root) {
        MutationStep::Respond(response) => {
            assert_eq!(data(&response), None);
            assert_eq!(messages(&response), strings(&["bad directive"]));
        }
        _ => panic!("another step"),
    }
}

#[test]
fn schema_without_mutations_has_no_mutation_type() {
    match resolve_mutation_selection_set(None) {
        MutationStep::Respond(response) => {
            assert_eq!(data(&response), Some(Value::Null));
            assert_eq!(messages(&response), strings(&["Unknown type Mutation"]));
        }
        _ => panic!("another step"),
    }
}

#[test]
fn errors_are_reported_by_their_message() {
    assert_eq!(GraphQLError::validation("why").message(), "why");
    assert_eq!(failure("how").message(), "how");
    assert_eq!(
        GraphQLError::field_not_found("insertDNE", "Mutation").message(),
        "Unknown field \"insertDNE\" on type Mutation"
    );
    assert_eq!(
        unknown_field_message(&"a\"b\n".to_string(), &"Query".to_string()),
        "Unknown field \"a\\\"b\\n\" on type Query"
    );
    let response = refusal("no".to_string());
    assert_eq!(data(&response), None);
    assert_eq!(messages(&response), strings(&["no"]));
}

#[test]
fn fields_are_found_by_their_whole_name() {
    let query_type = query_type();
    assert!(matches!(query_type.find_field(&"node".to_string()), Some(FieldType::NodeInterface)));
    assert!(query_type.find_field(&"nod".to_string()).is_none());
    assert!(query_type.find_field(&"nodes".to_string()).is_none());
    assert!(is_named(&"heartbeat".to_string(), "heartbeat"));
    assert!(!is_named(&"heartbeats".to_string(), "heartbeat"));
}

#[test]
fn order_of_fields_is_irrelevant() {
    let left = object_type("T", &[("a", FieldType::Node), ("b", FieldType::Connection)]);
    let right = object_type("T", &[("b", FieldType::Connection), ("a", FieldType::Node)]);
    for name in ["a", "b", "c"] {
        let found = |of: &ObjectType| format!("{:?}", of.find_field(&name.to_string()));
        assert_eq!(found(&left), found(&right));
    }
    assert_eq!(left.name(), "T");
}

#[test]
fn last_field_of_a_name_counts() {
    let odd = object_type(
        "T",
        &[("a", FieldType::Node), ("b", FieldType::Schema), ("a", FieldType::Connection)],
    );
    assert!(matches!(odd.find_field(&"a".to_string()), Some(FieldType::Connection)));
    assert!(matches!(odd.find_field(&"b".to_string()), Some(FieldType::Schema)));
}

fn execution(root: RootType) -> Execution {
    Execution {
        operation: 0,
        root,
        selection_set: SelectionSet { items: vec![] },
        fragment_definitions: vec![],
        variable_definitions: vec![],
    }
}

#[test]
fn operation_selects_on_its_root() {
    let query = execution(RootType::Query);
    let mutation = execution(RootType::Mutation);
    let both = Some(mutation_type());
    assert_eq!(root_name(&query, &query_type(), &both), Some("Query".to_string()));
    assert_eq!(root_name(&query, &query_type(), &None), Some("Query".to_string()));
    assert_eq!(root_name(&mutation, &query_type(), &both), Some("Mutation".to_string()));
    assert_eq!(root_name(&mutation, &query_type(), &None), None);
}

#[test]
fn operation_begins_as_its_selection_set_does() {
    let typename = || Ok(vec![field(None, "__typename")]);
    let query = execution(RootType::Query);
    match begin_operation(&query, query_type(), Some(mutation_type()), typename()) {
        OperationStep::Query(QueryStep::Respond(response)) => {
            assert_eq!(data(&response), Some(json("{\"__typename\": \"Query\"}")))
        }
        _ => panic!("another step"),
    }
    let mutation = execution(RootType::Mutation);
    match begin_operation(&mutation, query_type(), Some(mutation_type()), typename()) {
        OperationStep::Mutation(MutationStep::Respond(response)) => {
            assert_eq!(data(&response), Some(json("{\"__typename\": \"Mutation\"}")))
        }
        _ => panic!("another step"),
    }
    match begin_operation(&mutation, query_type(), None, typename()) {
        OperationStep::Mutation(MutationStep::Respond(response)) => {
            assert_eq!(messages(&response), strings(&["Unknown type Mutation"]))
        }
        _ => panic!("another step"),
    }
}
