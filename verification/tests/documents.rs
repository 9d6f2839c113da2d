use graphql_parser::query as parsed;
use graphql_parser::query::parse_query;
use graphql_resolve::cycles::{
    detect_fragment_cycles, detect_fragment_cycles_in_selection_set, StringHashSet,
    STACK_DEPTH_LIMIT,
};
use graphql_resolve::depth::{validate_selection_depth, MAX_SELECTION_DEPTH};
use graphql_resolve::document::{
    alias_or_name, find_fragment, Definition, Document, Field, FragmentDefinition, FragmentSpread,
    InlineFragment, Mutation, OperationDefinition, Query, Selection, SelectionSet, Subscription,
    VariableDefinition,
};
use graphql_resolve::error::GraphQLError;
use graphql_resolve::names::{all_distinct, any_missing, same_name};
use graphql_resolve::request::{
    resolve_document, resolve_inner, resolve_mutation, resolve_query, Execution, Resolution,
    RootType,
};
use graphql_resolve::response::{GraphQLResponse, Omit};

fn selection_set<'a>(set: &parsed::SelectionSet<'a, &'a str>) -> SelectionSet {
    SelectionSet { items: set.items.iter().map(selection).collect() }
}

fn selection<'a>(selection: &parsed::Selection<'a, &'a str>) -> Selection {
    match selection {
        parsed::Selection::Field(field) => Selection::Field(Field {
            alias: field.alias.map(|alias| alias.to_string()),
            name: field.name.to_string(),
            selection_set: selection_set(&field.selection_set),
        }),
        parsed::Selection::FragmentSpread(spread) => Selection::FragmentSpread(FragmentSpread {
            fragment_name: spread.fragment_name.to_string(),
        }),
        parsed::Selection::InlineFragment(inline) => Selection::InlineFragment(InlineFragment {
            selection_set: selection_set(&inline.selection_set),
        }),
    }
}

fn variable_definitions<'a>(
    definitions: &[parsed::VariableDefinition<'a, &'a str>],
) -> Vec<VariableDefinition> {
    definitions
        .iter()
        .map(|definition| VariableDefinition {
            name: definition.name.to_string(),
            var_type: definition.var_type.to_string(),
            default_value: definition.default_value.as_ref().map(|value| value.to_string()),
        })
        .collect()
}

fn operation<'a>(operation: &parsed::OperationDefinition<'a, &'a str>) -> OperationDefinition {
    match operation {
        parsed::OperationDefinition::SelectionSet(set) => {
            OperationDefinition::SelectionSet(selection_set(set))
        }
        parsed::OperationDefinition::Query(query) => OperationDefinition::Query(Query {
            name: query.name.map(|name| name.to_string()),
            variable_definitions: variable_definitions(&query.variable_definitions),
            selection_set: selection_set(&query.selection_set),
        }),
        parsed::OperationDefinition::Mutation(mutation) => {
            OperationDefinition::Mutation(Mutation {
                name: mutation.name.map(|name| name.to_string()),
                variable_definitions: variable_definitions(&mutation.variable_definitions),
                selection_set: selection_set(&mutation.selection_set),
            })
        }
        parsed::OperationDefinition::Subscription(subscription) => {
            OperationDefinition::Subscription(Subscription {
                name: subscription.name.map(|name| name.to_string()),
                variable_definitions: variable_definitions(&subscription.variable_definitions),
                selection_set: selection_set(&subscription.selection_set),
            })
        }
    }
}

fn document(query: &str) -> Document {
    let parsed = parse_query::<&str>(query).expect("query parses");
    let definitions = parsed
        .definitions
        .iter()
        .map(|definition| match definition {
            parsed::Definition::Operation(op) => Definition::Operation(operation(op)),
            parsed::Definition::Fragment(fragment) => Definition::Fragment(FragmentDefinition {
                name: fragment.name.to_string(),
                selection_set: selection_set(&fragment.selection_set),
            }),
        })
        .collect();
    Document { definitions }
}

fn fragments(query: &str) -> Vec<FragmentDefinition> {
    let mut fragments = vec![];
    for definition in document(query).definitions {
        if let Definition::Fragment(fragment) = definition {
            fragments.push(fragment);
        }
    }
    fragments
}

fn run_test_case(query: &str, accept_query: bool) {
    let doc = document(query);
    let mut selection_set = None;
    let mut fragment_defs = vec![];
    for def in doc.definitions {
        match def {
            Definition::Operation(OperationDefinition::SelectionSet(s)) => selection_set = Some(s),
            Definition::Fragment(fd) => fragment_defs.push(fd),
            _ => {}
        }
    }
    let selection_set = selection_set.expect("anonymous selection set operation");
    let result = validate_selection_depth(&selection_set, &fragment_defs, 1);
    if accept_query {
        assert!(result.is_ok());
    } else {
        assert!(result.is_err());
    }
}

#[test]
fn test_queries_below_max_depth_are_accepted() {
    for depth in 1..MAX_SELECTION_DEPTH {
        let query = &generate_nested_query(depth);
        run_test_case(query, true);
    }
}

#[test]
fn test_queries_above_max_depth_are_rejected() {
    let query = &generate_nested_query(MAX_SELECTION_DEPTH);
    run_test_case(query, false);

    let query = &generate_nested_query(MAX_SELECTION_DEPTH + 1);
    run_test_case(query, false);
}

#[test]
fn test_fragment_spread_nesting_counts_towards_depth() {
    // Every split of the combined depth between aField and fragField:
    // total just below the limit is accepted, ...
    let accepted_total = MAX_SELECTION_DEPTH - 1;
    for a_field_depth in 1..accepted_total {
        let frag_field_depth = accepted_total - a_field_depth;
        let query = &generate_nested_query_via_fragment_spread(a_field_depth, frag_field_depth);
        run_test_case(query, true);
    }

    // ... and total at the limit is rejected, regardless of the split.
    let rejected_total = MAX_SELECTION_DEPTH;
    for a_field_depth in 1..rejected_total {
        let frag_field_depth = rejected_total - a_field_depth;
        let query = &generate_nested_query_via_fragment_spread(a_field_depth, frag_field_depth);
        run_test_case(query, false);
    }
}

#[test]
fn test_inline_fragment_nesting_counts_towards_depth() {
    let accepted_total = MAX_SELECTION_DEPTH - 1;
    for a_field_depth in 1..accepted_total {
        let frag_field_depth = accepted_total - a_field_depth;
        let query = &generate_nested_query_via_inline_fragment(a_field_depth, frag_field_depth);
        run_test_case(query, true);
    }

    let rejected_total = MAX_SELECTION_DEPTH;
    for a_field_depth in 1..rejected_total {
        let frag_field_depth = rejected_total - a_field_depth;
        let query = &generate_nested_query_via_inline_fragment(a_field_depth, frag_field_depth);
        run_test_case(query, false);
    }
}

#[test]
fn test_fragment_spread_and_inline_fragment_nesting_counts_towards_depth() {
    let accepted_total = MAX_SELECTION_DEPTH - 1;
    for a_field_depth in 1..accepted_total {
        let frag_field_depth = accepted_total - a_field_depth;
        let query = &generate_nested_query_via_fragment_and_inline_fragment(
            a_field_depth,
            frag_field_depth,
        );
        run_test_case(query, true);
    }

    let rejected_total = MAX_SELECTION_DEPTH;
    for a_field_depth in 1..rejected_total {
        let frag_field_depth = rejected_total - a_field_depth;
        let query = &generate_nested_query_via_fragment_and_inline_fragment(
            a_field_depth,
            frag_field_depth,
        );
        run_test_case(query, false);
    }
}

fn generate_nested_query(depth: u32) -> String {
    let mut inner = "{ aField }".to_string();
    for _ in 0..depth - 1 {
        inner = format!("{{ aField {inner} }}");
    }
    inner
}

fn generate_nested_fragment_body(depth: u32) -> String {
    let mut inner = "{ fragField }".to_string();
    for _ in 0..depth - 1 {
        inner = format!("{{ fragField {inner} }}");
    }
    inner
}

// Wraps `inner` in `count` layers of `{ field_name { fieldName ... } }`.
fn wrap_field(field_name: &str, count: u32, inner: &str) -> String {
    let mut result = inner.to_string();
    for _ in 0..count {
        result = format!("{{ {field_name} {result} }}");
    }
    result
}

// query { aField { aField { ... { ...fragFields } ... } } }
// fragment fragFields on Frag { fragField { fragField { ... } } }
fn generate_nested_query_via_fragment_spread(a_field_depth: u32, frag_field_depth: u32) -> String {
    format!(
        "{} fragment fragFields on Frag {}",
        wrap_field("aField", a_field_depth, "{ ...fragFields }"),
        generate_nested_fragment_body(frag_field_depth)
    )
}

// query { aField { aField { ... { ... on Frag { fragField { ... } } } ... } } }
fn generate_nested_query_via_inline_fragment(a_field_depth: u32, frag_field_depth: u32) -> String {
    wrap_field(
        "aField",
        a_field_depth,
        &format!("{{ ... on Frag {} }}", generate_nested_fragment_body(frag_field_depth)),
    )
}

// query { aField { aField { ... { ...fragFields } ... } } }
// fragment fragFields on Frag { ... on Frag { fragField { ... } } }
fn generate_nested_query_via_fragment_and_inline_fragment(
    a_field_depth: u32,
    frag_field_depth: u32,
) -> String {
    format!(
        "{} fragment fragFields on Frag {{ ... on Frag {} }}",
        wrap_field("aField", a_field_depth, "{ ...fragFields }"),
        generate_nested_fragment_body(frag_field_depth)
    )
}

fn object() -> serde_json::Value {
    serde_json::from_str("{}").expect("an object")
}

fn resolve(query: &str, operation_name: Option<&str>) -> Resolution {
    resolve_inner(document(query), &object(), &operation_name.map(|name| name.to_string()))
}

// The message of a response that has no data and one error.
fn refusal_message(response: GraphQLResponse) -> String {
    assert!(matches!(response.data, Omit::Omitted));
    match response.errors {
        Omit::Present(errors) => {
            assert_eq!(errors.len(), 1);
            errors[0].message.clone()
        }
        Omit::Omitted => panic!("no errors"),
    }
}

fn refused(query: &str, operation_name: Option<&str>) -> String {
    match resolve(query, operation_name) {
        Resolution::Respond(response) => refusal_message(response),
        Resolution::Execute(execution) => panic!("runs {execution:?}"),
    }
}

fn execution(query: &str, operation_name: Option<&str>) -> Execution {
    match resolve(query, operation_name) {
        Resolution::Execute(execution) => execution,
        Resolution::Respond(response) => panic!("answered with {response:?}"),
    }
}

// The index of the operation that runs, and whether it runs on the mutation root.
fn executed(query: &str, operation_name: Option<&str>) -> (usize, bool) {
    let execution = execution(query, operation_name);
    (execution.operation, matches!(execution.root, RootType::Mutation))
}

fn field_names(set: &SelectionSet) -> Vec<String> {
    set.items
        .iter()
        .map(|item| match item {
            Selection::Field(field) => field.name.clone(),
            other => panic!("{other:?}"),
        })
        .collect()
}

#[test]
fn variables_must_be_an_object() {
    for text in ["null", "true", "1", "\"{}\"", "[{}]"] {
        let variables: serde_json::Value = serde_json::from_str(text).expect("valid");
        match resolve_inner(document("{ a }"), &variables, &None) {
            Resolution::Respond(response) => {
                assert_eq!(refusal_message(response), "variables must be an object")
            }
            Resolution::Execute(_) => panic!("runs with {text}"),
        }
    }
    let variables: serde_json::Value = serde_json::from_str("{\"a\": 1}").expect("valid");
    assert!(matches!(
        resolve_inner(document("{ a }"), &variables, &None),
        Resolution::Execute(_)
    ));
}

#[test]
fn variables_are_looked_at_before_the_document() {
    let empty = Document { definitions: vec![] };
    match resolve_document(empty, false, &None) {
        Resolution::Respond(response) => {
            assert_eq!(refusal_message(response), "variables must be an object")
        }
        Resolution::Execute(_) => panic!("runs"),
    }
}

#[test]
fn anonymous_operation_must_be_alone() {
    let message = "Anonymous operations must be the only defined operation";
    assert_eq!(refused("{ a } query b { b }", None), message);
    assert_eq!(refused("{ a } query b { b }", Some("b")), message);
    assert_eq!(refused("query { a } mutation { b }", None), message);
    // A subscription is not known by its name.
    assert_eq!(refused("subscription s { a } query b { b }", Some("b")), message);
}

#[test]
fn operation_names_must_be_unique() {
    let message = "Operation names must be unique";
    assert_eq!(refused("query a { a } query a { b }", Some("a")), message);
    assert_eq!(refused("query a { a } query b { b } mutation a { c }", Some("b")), message);
}

#[test]
fn operation_is_found_by_its_name() {
    let query = "query a { a } mutation b { b } query c { c }";
    assert_eq!(executed(query, Some("a")), (0, false));
    assert_eq!(executed(query, Some("b")), (1, true));
    assert_eq!(executed(query, Some("c")), (2, false));
    assert_eq!(refused(query, Some("d")), "Operation not found");
    assert_eq!(refused(query, None), "Operation not found");
}

#[test]
fn index_counts_operations_only() {
    let query = "fragment f on T { x } query a { a } fragment g on T { x } query b { ...g }";
    assert_eq!(executed(query, Some("b")), (1, false));
}

#[test]
fn only_operation_needs_no_name() {
    assert_eq!(executed("{ a }", None), (0, false));
    assert_eq!(executed("query { a }", None), (0, false));
    assert_eq!(executed("query a { a }", None), (0, false));
    assert_eq!(executed("mutation { a }", None), (0, true));
    assert_eq!(refused("{ a }", Some("a")), "Operation not found");
    assert_eq!(refused("query a { a }", Some("b")), "Operation not found");
}

#[test]
fn document_without_operations_has_none_to_run() {
    assert_eq!(refused("fragment f on T { x }", None), "Operation not found");
}

#[test]
fn subscriptions_are_not_supported() {
    assert_eq!(refused("subscription { a }", None), "Subscriptions are not supported");
    assert_eq!(refused("subscription s { a }", None), "Subscriptions are not supported");
    assert_eq!(refused("subscription s { a }", Some("s")), "Operation not found");
}

#[test]
fn deep_subscription_is_refused_for_what_it_is() {
    let query = format!("subscription {}", generate_nested_query(MAX_SELECTION_DEPTH));
    assert_eq!(refused(&query, None), "Subscriptions are not supported");
}

#[test]
fn deep_operation_is_refused() {
    let message = "Query selection depth exceeds the maximum allowed depth of 32";
    let deep = generate_nested_query(MAX_SELECTION_DEPTH);
    assert_eq!(refused(&deep, None), message);
    assert_eq!(refused(&format!("query q {deep}"), None), message);
    assert_eq!(refused(&format!("mutation m {deep}"), None), message);
    // Another operation of the document still runs.
    assert_eq!(executed(&format!("query q {deep} query r {{ a }}"), Some("r")), (1, false));
    let shallow = generate_nested_query(MAX_SELECTION_DEPTH - 1);
    assert_eq!(executed(&shallow, None), (0, false));
}

#[test]
fn depth_is_that_of_the_deepest_sibling() {
    let deep = generate_nested_query(MAX_SELECTION_DEPTH);
    let deep = deep.trim_start_matches('{').trim_end_matches('}');
    run_test_case(&format!("{{ b c {{ d }} {deep} }}"), false);
    run_test_case("{ b c { d } ...nowhere }", true);
}

#[test]
fn depth_starts_where_it_is_told() {
    let set = SelectionSet { items: vec![] };
    assert!(validate_selection_depth(&set, &[], MAX_SELECTION_DEPTH).is_ok());
    assert!(validate_selection_depth(&set, &[], MAX_SELECTION_DEPTH + 1).is_err());
    assert!(validate_selection_depth(&set, &[], u32::MAX).is_err());
}

#[test]
fn depth_of_a_cycle_through_a_field_is_too_large() {
    run_test_case("{ ...f } fragment f on T { a { ...f } }", false);
}

#[test]
fn cyclic_fragments_are_refused() {
    let message = "Found a cycle between fragments";
    assert_eq!(refused("{ ...f } fragment f on T { ...f }", None), message);
    assert_eq!(refused("{ ...f } fragment f on T { a { ... on U { ...f } } }", None), message);
    assert_eq!(
        refused(
            "{ a } fragment f on T { ...g } fragment g on T { ...h } fragment h on T { ...f }",
            None
        ),
        message
    );
    // Before an operation is missed.
    assert_eq!(refused("{ a } fragment f on T { ...f }", Some("b")), message);
}

#[test]
fn fragment_may_be_used_more_than_once() {
    let query = "{ ...f ...g } fragment f on T { ...g a { ...g } } fragment g on T { b }";
    assert_eq!(executed(query, None), (0, false));
}

#[test]
fn undefined_fragment_is_no_cycle() {
    assert_eq!(executed("{ ...f } fragment f on T { ...nowhere }", None), (0, false));
}

#[test]
fn first_fragment_of_a_name_counts() {
    let deep = generate_nested_fragment_body(MAX_SELECTION_DEPTH);
    let query = format!("{{ ...f }} fragment f on T {{ a }} fragment f on T {deep}");
    assert_eq!(executed(&query, None), (0, false));
    let query = format!("{{ ...f }} fragment f on T {deep} fragment f on T {{ a }}");
    assert_eq!(
        refused(&query, None),
        "Query selection depth exceeds the maximum allowed depth of 32"
    );
    // Every definition is searched, but a spread leads into the first.
    let query = "{ a } fragment f on T { a } fragment f on T { ...f }";
    assert_eq!(refused(query, None), "Found a cycle between fragments");
    assert_eq!(find_fragment(&fragments(query), &"f".to_string()), Some(0));
    assert_eq!(find_fragment(&fragments(query), &"g".to_string()), None);
}

#[test]
fn deep_fragment_is_refused_though_unused() {
    let message = "Fragment cycle depth is greater than 50";
    // The selections of a fragment stand at the second level, and each field adds one.
    let fitting = format!(
        "{{ a }} fragment f on T {}",
        generate_nested_fragment_body(STACK_DEPTH_LIMIT - 2)
    );
    assert_eq!(executed(&fitting, None), (0, false));
    let deep = format!(
        "{{ a }} fragment f on T {}",
        generate_nested_fragment_body(STACK_DEPTH_LIMIT - 1)
    );
    assert_eq!(refused(&deep, None), message);
}

#[test]
fn long_cycle_is_refused_for_its_depth() {
    let mut query = "{ a }".to_string();
    for i in 0..40 {
        query = format!("{query} fragment f{i} on T {{ ...f{} }}", (i + 1) % 40);
    }
    assert_eq!(refused(&query, None), "Fragment cycle depth is greater than 50");
}

fn names(list: &[&str]) -> StringHashSet {
    let mut set = StringHashSet::new();
    for name in list {
        set.insert(name.to_string());
    }
    set
}

fn holds_exactly(set: &StringHashSet, list: &[&str]) -> bool {
    set.len() == list.len() && list.iter().all(|name| set.contains(name))
}

#[test]
fn search_restores_the_open_fragments() {
    let all = fragments("fragment f on T { ...g } fragment g on T { a }");
    let mut visited = names(&["x"]);
    assert!(detect_fragment_cycles(&all[0], &mut visited, &all, 1).is_ok());
    assert!(holds_exactly(&visited, &["x"]));
    assert!(detect_fragment_cycles(&all[0], &mut visited, &all, 1).is_ok());
}

#[test]
fn search_that_fails_leaves_the_open_fragments() {
    let all = fragments("fragment f on T { ...g } fragment g on T { a ...f }");
    let mut visited = names(&[]);
    let error = detect_fragment_cycles(&all[0], &mut visited, &all, 1).expect_err("a cycle");
    assert_eq!(error.message(), "Found a cycle between fragments");
    assert!(holds_exactly(&visited, &["f", "g"]));
}

#[test]
fn search_knows_the_fragments_around() {
    let all = fragments("fragment f on T { a }");
    let mut visited = names(&["f"]);
    assert!(detect_fragment_cycles(&all[0], &mut visited, &all, 1).is_err());
    let mut none = names(&[]);
    assert!(detect_fragment_cycles(&all[0], &mut none, &all, STACK_DEPTH_LIMIT + 1).is_err());
    let set = SelectionSet { items: vec![] };
    let limit = STACK_DEPTH_LIMIT;
    assert!(detect_fragment_cycles_in_selection_set(&set, &mut visited, &all, limit).is_ok());
    assert!(detect_fragment_cycles_in_selection_set(&set, &mut visited, &all, limit + 1).is_err());
}

#[test]
fn cycle_is_reported_from_a_fragment_that_leads_into_it() {
    let all = fragments(
        "fragment e on T { ...f } fragment f on T { ...g } fragment g on T { ...f }",
    );
    let mut visited = names(&[]);
    match detect_fragment_cycles(&all[0], &mut visited, &all, 1) {
        Err(GraphQLError::Validation { message }) => {
            assert_eq!(message, "Found a cycle between fragments")
        }
        other => panic!("{other:?}"),
    }
    assert!(holds_exactly(&visited, &["e", "f", "g"]));
}

#[test]
fn limits_stand_in_the_messages() {
    let all = fragments("fragment f on T { a }");
    let error = detect_fragment_cycles(&all[0], &mut names(&[]), &all, STACK_DEPTH_LIMIT + 1)
        .expect_err("too deep");
    assert_eq!(
        error.message(),
        format!("Fragment cycle depth is greater than {STACK_DEPTH_LIMIT}")
    );
    let set = SelectionSet { items: vec![] };
    match validate_selection_depth(&set, &all, MAX_SELECTION_DEPTH + 1) {
        Err(GraphQLError::Validation { message }) => assert_eq!(
            message,
            format!(
                "Query selection depth exceeds the maximum allowed depth of {MAX_SELECTION_DEPTH}"
            )
        ),
        other => panic!("{other:?}"),
    }
}

#[test]
fn operation_hands_on_its_selections_and_definitions() {
    let query = "query q($a: Int! = 1, $b: [T]) { x y } mutation m($c: Int) { z }
        fragment f on T { x } fragment g on T { y }";
    let run = execution(query, Some("q"));
    assert_eq!(field_names(&run.selection_set), vec!["x", "y"]);
    let definitions: Vec<(&str, &str, Option<&str>)> = run
        .variable_definitions
        .iter()
        .map(|v| (v.name.as_str(), v.var_type.as_str(), v.default_value.as_deref()))
        .collect();
    assert_eq!(definitions, vec![("a", "Int!", Some("1")), ("b", "[T]", None)]);
    let names: Vec<&str> = run.fragment_definitions.iter().map(|f| f.name.as_str()).collect();
    assert_eq!(names, vec!["f", "g"]);

    let run = execution(query, Some("m"));
    assert!(matches!(run.root, RootType::Mutation));
    assert_eq!(field_names(&run.selection_set), vec!["z"]);
    assert_eq!(run.variable_definitions.len(), 1);
    assert_eq!(run.variable_definitions[0].name, "c");
}

#[test]
fn bare_selection_set_has_no_variable_definitions() {
    let run = execution("{ x }", None);
    assert!(matches!(run.root, RootType::Query));
    assert_eq!(field_names(&run.selection_set), vec!["x"]);
    assert!(run.variable_definitions.is_empty());
}

#[test]
fn name_of_an_operation_has_no_part_in_its_run() {
    let set = || SelectionSet {
        items: vec![Selection::FragmentSpread(FragmentSpread { fragment_name: "f".to_string() })],
    };
    let named = |name: Option<&str>| Query {
        name: name.map(|name| name.to_string()),
        variable_definitions: vec![],
        selection_set: set(),
    };
    let left = resolve_query(3, named(Some("a")), fragments("fragment f on T { a }"));
    let right = resolve_query(3, named(None), fragments("fragment f on T { a }"));
    assert_eq!(format!("{left:?}"), format!("{right:?}"));
    assert_eq!(left.operation, 3);
    assert!(matches!(left.root, RootType::Query));

    let named = |name: Option<&str>| Mutation {
        name: name.map(|name| name.to_string()),
        variable_definitions: vec![],
        selection_set: set(),
    };
    let left = resolve_mutation(4, named(Some("a")), vec![]);
    let right = resolve_mutation(4, named(Some("b")), vec![]);
    assert_eq!(format!("{left:?}"), format!("{right:?}"));
    assert_eq!(left.operation, 4);
    assert!(matches!(left.root, RootType::Mutation));
}

#[test]
fn deep_acyclic_fragments_are_walked_to_the_end() {
    // Sixty fragments, each spread in the one before, nest no field deeper than one level.
    let mut query = "{ ...f0 } fragment f60 on T { a }".to_string();
    for i in 0..60 {
        query = format!("{query} fragment f{i} on T {{ ...f{} }}", i + 1);
    }
    run_test_case(&query, true);
    assert_eq!(refused(&query, None), "Fragment cycle depth is greater than 50");
}

#[test]
fn names_are_compared_whole() {
    let a = Some("a".to_string());
    let b = Some("b".to_string());
    assert!(same_name(&a, &a.clone()));
    assert!(!same_name(&a, &b));
    assert!(!same_name(&a, &None));
    assert!(same_name(&None, &None));
    assert!(all_distinct(&vec![]));
    assert!(all_distinct(&vec![a.clone(), b.clone(), None]));
    assert!(!all_distinct(&vec![a.clone(), b.clone(), a.clone()]));
    assert!(!all_distinct(&vec![None, None]));
    assert!(any_missing(&vec![a.clone(), None]));
    assert!(!any_missing(&vec![a, b]));
}

#[test]
fn response_key_is_the_alias_or_the_name() {
    let field = |alias: Option<&str>| Field {
        alias: alias.map(|alias| alias.to_string()),
        name: "name".to_string(),
        selection_set: SelectionSet { items: vec![] },
    };
    assert_eq!(alias_or_name(&field(Some("alias"))), "alias");
    assert_eq!(alias_or_name(&field(None)), "name");
}
