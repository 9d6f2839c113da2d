//! The part of a parsed GraphQL document that decides how a request is resolved.

use vstd::prelude::*;

verus! {

/// The selections between one pair of braces, in source order.
#[derive(Debug)]
pub struct SelectionSet {
    pub items: Vec<Selection>,
}

/// One entry of a selection set.
#[derive(Debug)]
pub enum Selection {
    Field(Field),
    FragmentSpread(FragmentSpread),
    InlineFragment(InlineFragment),
}

/// A field with the selections made on its result.
#[derive(Debug)]
pub struct Field {
    pub alias: Option<String>,
    pub name: String,
    pub selection_set: SelectionSet,
}

/// `...name`
#[derive(Debug)]
pub struct FragmentSpread {
    pub fragment_name: String,
}

/// `... on Type { }`
#[derive(Debug)]
pub struct InlineFragment {
    pub selection_set: SelectionSet,
}

/// `fragment name on Type { }`
#[derive(Debug)]
pub struct FragmentDefinition {
    pub name: String,
    pub selection_set: SelectionSet,
}

/// `$name: Type = value`, with the type and the value as they are written.
#[derive(Debug)]
pub struct VariableDefinition {
    pub name: String,
    pub var_type: String,
    pub default_value: Option<String>,
}

/// An operation that the query root answers.
#[derive(Debug)]
pub struct Query {
    pub name: Option<String>,
    pub variable_definitions: Vec<VariableDefinition>,
    pub selection_set: SelectionSet,
}

/// An operation that the mutation root answers.
#[derive(Debug)]
pub struct Mutation {
    pub name: Option<String>,
    pub variable_definitions: Vec<VariableDefinition>,
    pub selection_set: SelectionSet,
}

/// An operation that the subscription root answers.
#[derive(Debug)]
pub struct Subscription {
    pub name: Option<String>,
    pub variable_definitions: Vec<VariableDefinition>,
    pub selection_set: SelectionSet,
}

/// One operation of a document.
#[derive(Debug)]
pub enum OperationDefinition {
    /// The shorthand form, a selection set with nothing before it.
    SelectionSet(SelectionSet),
    Query(Query),
    Mutation(Mutation),
    Subscription(Subscription),
}

/// One definition of a document.
#[derive(Debug)]
pub enum Definition {
    Operation(OperationDefinition),
    Fragment(FragmentDefinition),
}

/// A parsed document: its definitions in source order.
#[derive(Debug)]
pub struct Document {
    pub definitions: Vec<Definition>,
}

/// The index of the first fragment of that name.
pub open spec fn first_named(fragments: Seq<FragmentDefinition>, name: Seq<char>) -> Option<int>
    decreases fragments.len(),
{
    if fragments.len() == 0 {
        None
    } else if fragments.first().name@ == name {
        Some(0)
    } else {
        match first_named(fragments.drop_first(), name) {
            Some(i) => Some(i + 1),
            None => None,
        }
    }
}

/// What [`first_named`] means: nothing before the index has the name.
pub proof fn lemma_first_named(fragments: Seq<FragmentDefinition>, name: Seq<char>)
    ensures
        match first_named(fragments, name) {
            Some(i) => 0 <= i < fragments.len() && fragments[i].name@ == name && forall|j: int|
                0 <= j < i ==> #[trigger] fragments[j].name@ != name,
            None => forall|j: int|
                0 <= j < fragments.len() ==> #[trigger] fragments[j].name@ != name,
        },
    decreases fragments.len(),
{
    if fragments.len() > 0 {
        let rest = fragments.drop_first();
        lemma_first_named(rest, name);
        assert forall|j: int| 0 < j < fragments.len() implies #[trigger] fragments[j] == rest[j
            - 1] by {}
    }
}

/// The selections that a selection leads to: those on a field's result, those of the first
/// fragment that a spread names, or those of an inline fragment. A spread of a fragment
/// that is not defined leads to none.
pub open spec fn inner_selections(
    selection: Selection,
    fragments: Seq<FragmentDefinition>,
) -> Option<Seq<Selection>> {
    match selection {
        Selection::Field(field) => Some(field.selection_set.items@),
        Selection::FragmentSpread(spread) => match first_named(fragments, spread.fragment_name@) {
            Some(i) => Some(fragments[i].selection_set.items@),
            None => None,
        },
        Selection::InlineFragment(inline) => Some(inline.selection_set.items@),
    }
}

/// The index of the first fragment of that name.
pub fn find_fragment(fragments: &[FragmentDefinition], name: &String) -> (r: Option<usize>)
    ensures
        match r {
            Some(i) => first_named(fragments@, name@) == Some(i as int) && i < fragments@.len(),
            None => first_named(fragments@, name@) is None,
        },
{
    proof {
        lemma_first_named(fragments@, name@);
    }
    let mut i: usize = 0;
    #[verifier::loop_isolation(false)]
    while i < fragments.len()
        invariant
            i <= fragments@.len(),
            forall|j: int| 0 <= j < i ==> #[trigger] fragments@[j].name@ != name@,
        decreases fragments@.len() - i,
    {
        if fragments[i].name == *name {
            return Some(i);
        }
        i = i + 1;
    }
    None
}

/// The key under which a field's result stands in the response.
pub open spec fn response_key(field: Field) -> Seq<char> {
    match field.alias {
        Some(alias) => alias@,
        None => field.name@,
    }
}

/// The key under which a field's result stands in the response: its alias, or its name
/// where it has none.
pub fn alias_or_name(field: &Field) -> (r: String)
    ensures
        r@ == response_key(*field),
{
    match &field.alias {
        Some(alias) => alias.clone(),
        None => field.name.clone(),
    }
}

/// A field's result stands under its alias wherever it has one, and under its name where it has
/// none, whatever else the field holds.
pub proof fn law_result_stands_under_alias_or_name(field: Field)
    ensures
        field.alias matches Some(alias) ==> response_key(field) == alias@,
        field.alias is None ==> response_key(field) == field.name@,
{
}

/// A spread leads to the first fragment that is written with its name, and to none where none
/// is; a field and an inline fragment lead to their own selections.
pub proof fn law_selection_leads_to_what_it_holds(
    selection: Selection,
    fragments: Seq<FragmentDefinition>,
)
    ensures
        selection matches Selection::Field(field) ==> inner_selections(selection, fragments)
            == Some(field.selection_set.items@),
        selection matches Selection::InlineFragment(inline) ==> inner_selections(
            selection,
            fragments,
        ) == Some(inline.selection_set.items@),
        selection matches Selection::FragmentSpread(spread) ==> {
            &&& inner_selections(selection, fragments) is None <==> forall|j: int|
                0 <= j < fragments.len() ==> #[trigger] fragments[j].name@ != spread.fragment_name@
            &&& forall|i: int|
                0 <= i < fragments.len() && #[trigger] fragments[i].name@ == spread.fragment_name@
                    && (forall|j: int|
                    0 <= j < i ==> #[trigger] fragments[j].name@ != spread.fragment_name@)
                    ==> inner_selections(selection, fragments) == Some(
                    fragments[i].selection_set.items@,
                )
        },
{
    if let Selection::FragmentSpread(spread) = selection {
        lemma_first_named(fragments, spread.fragment_name@);
    }
}

} // verus!
