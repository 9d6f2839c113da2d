//! Names of operations.

use itertools::Itertools;
use vstd::prelude::*;

verus! {

/// The text of a name that may be missing.
pub open spec fn name_text(name: Option<String>) -> Option<Seq<char>> {
    match name {
        Some(name) => Some(name@),
        None => None,
    }
}

/// The texts of a list of names.
pub open spec fn name_texts(names: Seq<Option<String>>) -> Seq<Option<Seq<char>>> {
    Seq::new(names.len(), |i: int| name_text(names[i]))
}

/// `itertools::Itertools::unique` drops every item that is equal to an earlier one, so
/// what is left is as many as there are different names, a missing name being one of them.
#[verifier::external_body]
fn count_unique(names: &Vec<Option<String>>) -> (r: usize)
    ensures
        r == name_texts(names@).to_set().len(),
{
    names.iter().unique().count()
}

/// A sequence has as many different items as it is long exactly where no item is repeated.
proof fn lemma_distinct_count<A>(items: Seq<A>)
    ensures
        items.no_duplicates() <==> items.to_set().len() == items.len(),
{
    if items.no_duplicates() {
        items.unique_seq_to_set();
    } else if items.to_set().len() == items.len() {
        items.lemma_no_dup_set_cardinality();
    }
}

/// Whether no two of the names are equal.
pub fn all_distinct(names: &Vec<Option<String>>) -> (r: bool)
    ensures
        r == name_texts(names@).no_duplicates(),
{
    proof {
        lemma_distinct_count(name_texts(names@));
    }
    count_unique(names) == names.len()
}

/// Whether one of the names is missing.
pub fn any_missing(names: &Vec<Option<String>>) -> (r: bool)
    ensures
        r == name_texts(names@).contains(None),
{
    let mut i: usize = 0;
    while i < names.len()
        invariant
            i <= names@.len(),
            forall|j: int| 0 <= j < i ==> #[trigger] name_texts(names@)[j] is Some,
        decreases names@.len() - i,
    {
        if names[i].is_none() {
            assert(name_texts(names@)[i as int] is None);
            return true;
        }
        i = i + 1;
    }
    false
}

/// Whether two names that may be missing are the same.
pub fn same_name(left: &Option<String>, right: &Option<String>) -> (r: bool)
    ensures
        r == (name_text(*left) == name_text(*right)),
{
    match (left, right) {
        (Some(left), Some(right)) => *left == *right,
        (None, None) => true,
        _ => false,
    }
}

/// Two names are the same exactly where both are missing, or both are there with the same
/// characters.
pub proof fn law_names_are_compared_whole(left: Option<String>, right: Option<String>)
    ensures
        name_text(left) == name_text(right) <==> match (left, right) {
            (Some(left), Some(right)) => left@ == right@,
            (None, None) => true,
            _ => false,
        },
        left is None <==> name_text(left) is None,
{
}

/// The texts of names are those of each of them, in order.
pub proof fn law_texts_of_names(names: Seq<Option<String>>, i: int)
    requires
        0 <= i < names.len(),
    ensures
        name_texts(names).len() == names.len(),
        names[i] matches Some(name) ==> name_texts(names)[i] == Some(name@),
        names[i] is None ==> name_texts(names)[i] is None,
{
}

} // verus!
