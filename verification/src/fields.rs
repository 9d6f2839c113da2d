//! The fields of an operation, whichever root they are on: how each is answered, and what the
//! outcomes of all of them make together.

use vstd::prelude::*;

use crate::document::{response_key, Field};
use crate::error::{ErrorView, GraphQLResult};
use crate::json::{json_view, JsonView};

verus! {

/// How a field of a root type is answered, where `A` is the work that it may take.
#[derive(Debug)]
pub enum FieldAnswer<A> {
    /// There is no such field.
    Unknown,
    /// It is the name of the root type.
    TypeName,
    /// It takes work from outside.
    Run(A),
}

/// The result of the work behind a field: its value, or the error.
pub type FieldOutcome = Result<JsonView, ErrorView>;

/// The result of the work behind a field, as the contracts speak of it.
pub open spec fn outcome_view(outcome: GraphQLResult<serde_json::Value>) -> FieldOutcome {
    match outcome {
        Ok(value) => Ok(json_view(value)),
        Err(error) => Err(error@),
    }
}

/// How many of the answers take work from outside.
pub open spec fn outside_fields<A>(answers: Seq<FieldAnswer<A>>) -> nat
    decreases answers.len(),
{
    if answers.len() == 0 {
        0
    } else {
        outside_fields(answers.drop_first()) + (if answers.first() is Run {
            1nat
        } else {
            0nat
        })
    }
}

/// The outcome of each selection on the root of that name, where `outcomes` are those of the
/// work from outside.
pub open spec fn field_outcomes<A>(
    root: Seq<char>,
    selections: Seq<Field>,
    answers: Seq<FieldAnswer<A>>,
    outcomes: Seq<FieldOutcome>,
) -> Seq<FieldOutcome>
    decreases answers.len(),
{
    if answers.len() == 0 {
        Seq::empty()
    } else {
        let rest = selections.drop_first();
        let after = answers.drop_first();
        match answers.first() {
            FieldAnswer::Unknown => seq![
                Err(ErrorView::FieldNotFound { field: selections.first().name@, on_type: root }),
            ] + field_outcomes(root, rest, after, outcomes),
            FieldAnswer::TypeName => seq![Ok(JsonView::Text(root))] + field_outcomes(
                root,
                rest,
                after,
                outcomes,
            ),
            FieldAnswer::Run(_) => seq![outcomes.first()] + field_outcomes(
                root,
                rest,
                after,
                outcomes.drop_first(),
            ),
        }
    }
}

/// The data of selections with those outcomes: the value of each that succeeded, under its
/// key, the last where two have one key.
pub open spec fn entries_of(selections: Seq<Field>, outcomes: Seq<FieldOutcome>) -> Map<
    Seq<char>,
    JsonView,
>
    decreases outcomes.len(),
{
    if outcomes.len() == 0 {
        Map::empty()
    } else {
        let before = entries_of(selections.drop_last(), outcomes.drop_last());
        match outcomes.last() {
            Ok(value) => before.insert(response_key(selections.last()), value),
            Err(_) => before,
        }
    }
}

/// The errors among the outcomes, in order.
pub open spec fn errors_of(outcomes: Seq<FieldOutcome>) -> Seq<ErrorView>
    decreases outcomes.len(),
{
    if outcomes.len() == 0 {
        Seq::empty()
    } else {
        match outcomes.last() {
            Ok(_) => errors_of(outcomes.drop_last()),
            Err(error) => errors_of(outcomes.drop_last()).push(error),
        }
    }
}

/// The texts that report the errors, in order.
pub open spec fn texts_of(errors: Seq<ErrorView>) -> Seq<Seq<char>> {
    Seq::new(errors.len(), |i: int| errors[i].text())
}

/// One outcome more.
pub proof fn lemma_outcome_pushed(
    selections: Seq<Field>,
    outcomes: Seq<FieldOutcome>,
    outcome: FieldOutcome,
)
    requires
        outcomes.len() < selections.len(),
    ensures
        ({
            let k = outcomes.len() as int;
            let before = entries_of(selections.take(k), outcomes);
            &&& entries_of(selections.take(k + 1), outcomes.push(outcome)) == (match outcome {
                Ok(value) => before.insert(response_key(selections[k]), value),
                Err(_) => before,
            })
            &&& errors_of(outcomes.push(outcome)) == (match outcome {
                Ok(_) => errors_of(outcomes),
                Err(error) => errors_of(outcomes).push(error),
            })
        }),
{
    let k = outcomes.len() as int;
    assert(outcomes.push(outcome).drop_last() =~= outcomes);
    assert(selections.take(k + 1).drop_last() =~= selections.take(k));
}

/// A key has an entry exactly where a selection of that key succeeded.
pub proof fn law_entries_are_the_successes(
    selections: Seq<Field>,
    outcomes: Seq<FieldOutcome>,
    key: Seq<char>,
)
    requires
        selections.len() == outcomes.len(),
    ensures
        entries_of(selections, outcomes).dom().contains(key) <==> exists|i: int|
            0 <= i < outcomes.len() && #[trigger] outcomes[i] is Ok && response_key(selections[i])
                == key,
    decreases outcomes.len(),
{
    if outcomes.len() > 0 {
        let last = outcomes.len() - 1;
        law_entries_are_the_successes(selections.drop_last(), outcomes.drop_last(), key);
        if exists|i: int|
            0 <= i < outcomes.len() && #[trigger] outcomes[i] is Ok && response_key(selections[i])
                == key {
            let i = choose|i: int|
                0 <= i < outcomes.len() && #[trigger] outcomes[i] is Ok && response_key(
                    selections[i],
                ) == key;
            if i < last {
                assert(outcomes.drop_last()[i] is Ok);
                assert(selections.drop_last()[i] == selections[i]);
            }
        }
        if entries_of(selections.drop_last(), outcomes.drop_last()).dom().contains(key) {
            let i = choose|i: int|
                0 <= i < last && #[trigger] outcomes.drop_last()[i] is Ok && response_key(
                    selections.drop_last()[i],
                ) == key;
            assert(outcomes[i] is Ok);
        }
        if outcomes.last() is Ok && response_key(selections.last()) == key {
            assert(outcomes[last] is Ok);
        }
    }
}

/// The entry of a key is the value of the last selection of that key that succeeded.
pub proof fn law_last_success_wins(selections: Seq<Field>, outcomes: Seq<FieldOutcome>, i: int)
    requires
        selections.len() == outcomes.len(),
        0 <= i < outcomes.len(),
        outcomes[i] is Ok,
        forall|j: int|
            i < j < outcomes.len() && #[trigger] outcomes[j] is Ok ==> response_key(selections[j])
                != response_key(selections[i]),
    ensures
        entries_of(selections, outcomes).dom().contains(response_key(selections[i])),
        entries_of(selections, outcomes)[response_key(selections[i])] == outcomes[i]->Ok_0,
    decreases outcomes.len(),
{
    let last = outcomes.len() - 1;
    if i < last {
        assert forall|j: int|
            i < j < last && #[trigger] outcomes.drop_last()[j] is Ok implies response_key(
            selections.drop_last()[j],
        ) != response_key(selections.drop_last()[i]) by {
            assert(outcomes[j] is Ok);
        }
        law_last_success_wins(selections.drop_last(), outcomes.drop_last(), i);
        if outcomes.last() is Ok {
            assert(outcomes[last] is Ok);
        }
    }
}

/// The outcome of one selection bears on the entry of no other key.
pub proof fn law_outcomes_are_isolated(
    selections: Seq<Field>,
    outcomes: Seq<FieldOutcome>,
    i: int,
    other: FieldOutcome,
)
    requires
        selections.len() == outcomes.len(),
        0 <= i < outcomes.len(),
    ensures
        entries_of(selections, outcomes).remove(response_key(selections[i])) == entries_of(
            selections,
            outcomes.update(i, other),
        ).remove(response_key(selections[i])),
    decreases outcomes.len(),
{
    let key = response_key(selections[i]);
    let changed = outcomes.update(i, other);
    let last = outcomes.len() - 1;
    if i < last {
        law_outcomes_are_isolated(selections.drop_last(), outcomes.drop_last(), i, other);
        assert(changed.drop_last() =~= outcomes.drop_last().update(i, other));
        let before = entries_of(selections.drop_last(), outcomes.drop_last());
        let before_changed = entries_of(selections.drop_last(), changed.drop_last());
        if outcomes.last() is Ok {
            let at = response_key(selections.last());
            let value = outcomes.last()->Ok_0;
            assert(before.insert(at, value).remove(key) =~= before_changed.insert(
                at,
                value,
            ).remove(key)) by {
                assert forall|k: Seq<char>| k != key implies (#[trigger] before.dom().contains(k)
                    <==> before_changed.dom().contains(k)) && (before.dom().contains(k)
                    ==> before[k] == before_changed[k]) by {
                    assert(before.remove(key).dom().contains(k)
                        == before_changed.remove(key).dom().contains(k));
                    assert(before.remove(key)[k] == before_changed.remove(key)[k]);
                }
            }
        }
    } else {
        assert(changed.drop_last() =~= outcomes.drop_last());
        assert(entries_of(selections, outcomes).remove(key) =~= entries_of(
            selections.drop_last(),
            outcomes.drop_last(),
        ).remove(key));
        assert(entries_of(selections, changed).remove(key) =~= entries_of(
            selections.drop_last(),
            outcomes.drop_last(),
        ).remove(key));
    }
}

/// There are no errors exactly where every outcome is a success.
pub proof fn lemma_errors_of(outcomes: Seq<FieldOutcome>)
    ensures
        errors_of(outcomes).len() == 0 <==> forall|i: int|
            0 <= i < outcomes.len() ==> #[trigger] outcomes[i] is Ok,
    decreases outcomes.len(),
{
    if outcomes.len() > 0 {
        lemma_errors_of(outcomes.drop_last());
        if errors_of(outcomes).len() == 0 {
            assert forall|i: int| 0 <= i < outcomes.len() implies #[trigger] outcomes[i] is Ok by {
                if i < outcomes.len() - 1 {
                    assert(outcomes.drop_last()[i] is Ok);
                }
            }
        }
        if forall|i: int| 0 <= i < outcomes.len() ==> #[trigger] outcomes[i] is Ok {
            assert forall|i: int|
                0 <= i < outcomes.len() - 1 implies #[trigger] outcomes.drop_last()[i] is Ok by {
                assert(outcomes[i] is Ok);
            }
            assert(outcomes[outcomes.len() - 1] is Ok);
        }
    }
}

/// The errors of two stretches of outcomes are those of the first, and then those of the second;
/// a success has none, and a failure has its own.
pub proof fn law_errors_are_kept_in_order(
    left: Seq<FieldOutcome>,
    right: Seq<FieldOutcome>,
    outcome: FieldOutcome,
)
    ensures
        errors_of(left + right) == errors_of(left) + errors_of(right),
        outcome is Ok ==> errors_of(seq![outcome]).len() == 0,
        outcome matches Err(error) ==> errors_of(seq![outcome]) == seq![error],
    decreases right.len(),
{
    reveal_with_fuel(errors_of, 2);
    assert(seq![outcome].drop_last() =~= Seq::empty());
    if let Err(error) = outcome {
        assert(errors_of(seq![outcome]) =~= seq![error]);
    }
    if right.len() == 0 {
        assert(left + right =~= left);
        assert(errors_of(left) + errors_of(right) =~= errors_of(left));
    } else {
        law_errors_are_kept_in_order(left, right.drop_last(), outcome);
        assert((left + right).drop_last() =~= left + right.drop_last());
        assert((left + right).last() == right.last());
        assert(errors_of(left + right) =~= errors_of(left) + errors_of(right));
    }
}

/// Every failure is among the errors.
pub proof fn law_every_failure_is_an_error(outcomes: Seq<FieldOutcome>, i: int, error: ErrorView)
    requires
        0 <= i < outcomes.len(),
        outcomes[i] == Err::<JsonView, ErrorView>(error),
    ensures
        errors_of(outcomes).contains(error),
    decreases outcomes.len(),
{
    let before = outcomes.drop_last();
    let all = errors_of(outcomes);
    if i < before.len() {
        law_every_failure_is_an_error(before, i, error);
        let k = choose|k: int|
            0 <= k < errors_of(before).len() && errors_of(before)[k] == error;
        assert(all[k] == error);
    } else {
        assert(all[all.len() - 1] == error);
    }
}

/// The texts of errors are those of each of them, in order.
pub proof fn law_texts_of_errors(errors: Seq<ErrorView>, i: int)
    requires
        0 <= i < errors.len(),
    ensures
        texts_of(errors).len() == errors.len(),
        texts_of(errors)[i] == errors[i].text(),
{
}

/// An outcome is seen as what it is: its value, or its error with all that it holds.
pub proof fn law_outcome_is_seen_whole(outcome: GraphQLResult<serde_json::Value>)
    ensures
        outcome matches Ok(value) ==> outcome_view(outcome) == Ok::<JsonView, ErrorView>(
            json_view(value),
        ),
        outcome matches Err(error) ==> outcome_view(outcome) == Err::<JsonView, ErrorView>(error@),
{
}

/// Selections that are written with different aliases and succeeded have an entry each, with
/// their own values, whatever fields they select.
pub proof fn law_aliased_selections_have_entries_of_their_own(
    selections: Seq<Field>,
    outcomes: Seq<FieldOutcome>,
    i: int,
    alias: String,
)
    requires
        selections.len() == outcomes.len(),
        0 <= i < outcomes.len(),
        selections[i].alias == Some(alias),
        outcomes[i] is Ok,
        forall|j: int|
            0 <= j < selections.len() && j != i ==> (match (#[trigger] selections[j]).alias {
                Some(other) => other@ != alias@,
                None => selections[j].name@ != alias@,
            }),
    ensures
        entries_of(selections, outcomes).dom().contains(alias@),
        entries_of(selections, outcomes)[alias@] == outcomes[i]->Ok_0,
{
    assert forall|j: int| i < j < outcomes.len() && #[trigger] outcomes[j] is Ok implies
        response_key(selections[j]) != response_key(selections[i]) by {
        assert(selections[j].alias == selections[j].alias);
    }
    law_last_success_wins(selections, outcomes, i);
}

} // verus!
