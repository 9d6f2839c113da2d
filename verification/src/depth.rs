//! The limit on how deeply the fields of one operation may nest.

use vstd::prelude::*;

use crate::document::{
    find_fragment, first_named, inner_selections, lemma_first_named, Field, FragmentDefinition,
    FragmentSpread, InlineFragment, Selection, SelectionSet,
};
use crate::error::{ErrorView, GraphQLError, GraphQLResult};
use crate::text::{decimal, with_number};

verus! {

/// Maximum depth of nested field selections allowed in a single operation.
pub const MAX_SELECTION_DEPTH: u32 = 32;

/// The message for an operation that nests too deeply.
pub open spec fn depth_text() -> Seq<char> {
    "Query selection depth exceeds the maximum allowed depth of 32"@
}

/// The number in the message is the maximum.
proof fn lemma_depth_text()
    ensures
        depth_text() == "Query selection depth exceeds the maximum allowed depth of "@ + decimal(
            MAX_SELECTION_DEPTH as nat,
        ),
{
    reveal_strlit("Query selection depth exceeds the maximum allowed depth of 32");
    reveal_strlit("Query selection depth exceeds the maximum allowed depth of ");
    reveal_strlit("0123456789");
    reveal_with_fuel(decimal, 2);
    assert(depth_text() =~= "Query selection depth exceeds the maximum allowed depth of "@
        + decimal(MAX_SELECTION_DEPTH as nat));
}

/// How much a selection adds to the depth of what it leads to.
pub open spec fn depth_added(selection: Selection) -> nat {
    if selection is Field {
        1
    } else {
        0
    }
}

/// The number of fields met along `path`, which picks one selection by its index at each
/// level. The path ends where it picks nothing, or a fragment that is not defined.
pub open spec fn fields_on_path(
    items: Seq<Selection>,
    fragments: Seq<FragmentDefinition>,
    path: Seq<int>,
) -> nat
    decreases path.len(),
{
    if path.len() == 0 || !(0 <= path[0] < items.len()) {
        0
    } else {
        match inner_selections(items[path[0]], fragments) {
            Some(inner) => depth_added(items[path[0]]) + fields_on_path(
                inner,
                fragments,
                path.drop_first(),
            ),
            None => 0,
        }
    }
}

/// No path meets more than `limit` fields.
pub open spec fn nests_within(
    items: Seq<Selection>,
    fragments: Seq<FragmentDefinition>,
    limit: int,
) -> bool {
    forall|path: Seq<int>| #[trigger] fields_on_path(items, fragments, path) <= limit
}

/// Walking the selections from left to right, and into each before the next, up to the
/// first that lies below the maximum depth: whether the walk ends without meeting one. It
/// has no result if it nests more than `fuel` levels.
pub open spec fn depth_walk(
    items: Seq<Selection>,
    fragments: Seq<FragmentDefinition>,
    depth: int,
    fuel: nat,
) -> Option<bool>
    decreases fuel, items.len(),
{
    if depth > MAX_SELECTION_DEPTH {
        Some(false)
    } else if items.len() == 0 {
        Some(true)
    } else {
        let first = match inner_selections(items[0], fragments) {
            Some(inner) => if fuel == 0 {
                None
            } else {
                depth_walk(inner, fragments, depth + depth_added(items[0]), (fuel - 1) as nat)
            },
            None => Some(true),
        };
        if first == Some(true) {
            depth_walk(items.drop_first(), fragments, depth, fuel)
        } else {
            first
        }
    }
}

/// The walk over the selections comes to an end. It does not where it falls into a
/// fragment that leads back into itself without a field in between.
pub open spec fn walk_ends(
    items: Seq<Selection>,
    fragments: Seq<FragmentDefinition>,
    depth: int,
) -> bool {
    exists|fuel: nat| #[trigger] depth_walk(items, fragments, depth, fuel) is Some
}

/// A walk that found nothing below the maximum depth bounds every path.
proof fn lemma_walk_bounds_path(
    items: Seq<Selection>,
    fragments: Seq<FragmentDefinition>,
    depth: int,
    fuel: nat,
    path: Seq<int>,
)
    requires
        depth_walk(items, fragments, depth, fuel) == Some(true),
    ensures
        depth + fields_on_path(items, fragments, path) <= MAX_SELECTION_DEPTH,
    decreases fuel, items.len(),
{
    if path.len() == 0 || !(0 <= path[0] < items.len()) {
    } else if path[0] == 0 {
        let rest = path.drop_first();
        if let Some(inner) = inner_selections(items[0], fragments) {
            lemma_walk_bounds_path(
                inner,
                fragments,
                depth + depth_added(items[0]),
                (fuel - 1) as nat,
                rest,
            );
        }
    } else {
        let next = path.update(0, path[0] - 1);
        assert(next.drop_first() =~= path.drop_first());
        lemma_walk_bounds_path(items.drop_first(), fragments, depth, fuel, next);
    }
}

/// A walk that met a selection below the maximum depth gives a path to it.
proof fn lemma_walk_finds_path(
    items: Seq<Selection>,
    fragments: Seq<FragmentDefinition>,
    depth: int,
    fuel: nat,
) -> (path: Seq<int>)
    requires
        depth_walk(items, fragments, depth, fuel) == Some(false),
    ensures
        depth + fields_on_path(items, fragments, path) > MAX_SELECTION_DEPTH,
    decreases fuel, items.len(),
{
    if depth > MAX_SELECTION_DEPTH {
        Seq::empty()
    } else {
        let inner = inner_selections(items[0], fragments);
        let below = depth + depth_added(items[0]);
        if inner is Some && depth_walk(inner->0, fragments, below, (fuel - 1) as nat) == Some(
            false,
        ) {
            let rest = lemma_walk_finds_path(inner->0, fragments, below, (fuel - 1) as nat);
            let path = seq![0int] + rest;
            assert(path.drop_first() =~= rest);
            path
        } else {
            let tail = lemma_walk_finds_path(items.drop_first(), fragments, depth, fuel);
            let path = tail.update(0, tail[0] + 1);
            assert(path.drop_first() =~= tail.drop_first());
            path
        }
    }
}

/// What a walk that ended has found out.
proof fn lemma_walk_exact(
    items: Seq<Selection>,
    fragments: Seq<FragmentDefinition>,
    depth: int,
    fuel: nat,
)
    requires
        depth_walk(items, fragments, depth, fuel) is Some,
    ensures
        depth_walk(items, fragments, depth, fuel) == Some(
            nests_within(items, fragments, MAX_SELECTION_DEPTH - depth),
        ),
{
    let within = depth_walk(items, fragments, depth, fuel)->0;
    if within {
        assert forall|path: Seq<int>| #[trigger]
            fields_on_path(items, fragments, path) <= MAX_SELECTION_DEPTH - depth by {
            lemma_walk_bounds_path(items, fragments, depth, fuel, path);
        }
    } else {
        assert(depth_walk(items, fragments, depth, fuel) == Some(false));
        let path = lemma_walk_finds_path(items, fragments, depth, fuel);
        assert(fields_on_path(items, fragments, path) > MAX_SELECTION_DEPTH - depth);
    }
}

/// More fuel than a walk needs changes nothing.
pub proof fn lemma_walk_fuel(
    items: Seq<Selection>,
    fragments: Seq<FragmentDefinition>,
    depth: int,
    fuel: nat,
    more: nat,
)
    requires
        depth_walk(items, fragments, depth, fuel) is Some,
        fuel <= more,
    ensures
        depth_walk(items, fragments, depth, more) == depth_walk(items, fragments, depth, fuel),
    decreases fuel, items.len(),
{
    if depth <= MAX_SELECTION_DEPTH && items.len() > 0 {
        let below = depth + depth_added(items[0]);
        if let Some(inner) = inner_selections(items[0], fragments) {
            lemma_walk_fuel(inner, fragments, below, (fuel - 1) as nat, (more - 1) as nat);
        }
        if depth_walk(items.drop_first(), fragments, depth, fuel) is Some {
            lemma_walk_fuel(items.drop_first(), fragments, depth, fuel, more);
        }
    }
}

/// The walk that [`depth_walk`] describes.
fn walk(
    selection_set: &SelectionSet,
    fragment_definitions: &[FragmentDefinition],
    depth: u32,
    Ghost(fuel): Ghost<nat>,
) -> (r: bool)
    requires
        depth_walk(selection_set.items@, fragment_definitions@, depth as int, fuel) is Some,
    ensures
        depth_walk(selection_set.items@, fragment_definitions@, depth as int, fuel) == Some(r),
    decreases fuel,
{
    if depth > MAX_SELECTION_DEPTH {
        return false;
    }
    let ghost items = selection_set.items@;
    let ghost fragments = fragment_definitions@;
    let mut i: usize = 0;
    assert(items.skip(0) =~= items);
    while i < selection_set.items.len()
        invariant
            items == selection_set.items@,
            fragments == fragment_definitions@,
            i <= items.len(),
            depth <= MAX_SELECTION_DEPTH,
            depth_walk(items, fragments, depth as int, fuel) is Some,
            depth_walk(items, fragments, depth as int, fuel) == depth_walk(
                items.skip(i as int),
                fragments,
                depth as int,
                fuel,
            ),
        decreases items.len() - i,
    {
        let ghost left = items.skip(i as int);
        assert(left[0] == items[i as int]);
        assert(left.drop_first() =~= items.skip(i + 1));
        let within = match &selection_set.items[i] {
            Selection::Field(field) => walk(
                &field.selection_set,
                fragment_definitions,
                depth + 1,
                Ghost((fuel - 1) as nat),
            ),
            Selection::FragmentSpread(fragment_spread) => {
                match find_fragment(fragment_definitions, &fragment_spread.fragment_name) {
                    Some(k) => walk(
                        &fragment_definitions[k].selection_set,
                        fragment_definitions,
                        depth,
                        Ghost((fuel - 1) as nat),
                    ),
                    None => true,
                }
            },
            Selection::InlineFragment(inline_fragment) => walk(
                &inline_fragment.selection_set,
                fragment_definitions,
                depth,
                Ghost((fuel - 1) as nat),
            ),
        };
        if !within {
            return false;
        }
        i = i + 1;
    }
    assert(items.skip(i as int) =~= Seq::empty());
    true
}

/// Checks that nothing below the selections, which stand at `depth`, lies deeper than
/// [`MAX_SELECTION_DEPTH`]. Each nested field adds one to the depth; nested fields in
/// fragment spreads and inline fragments are counted too.
pub fn validate_selection_depth(
    selection_set: &SelectionSet,
    fragment_definitions: &[FragmentDefinition],
    depth: u32,
) -> (r: GraphQLResult<()>)
    requires
        walk_ends(selection_set.items@, fragment_definitions@, depth as int),
    ensures
        r is Ok <==> nests_within(
            selection_set.items@,
            fragment_definitions@,
            MAX_SELECTION_DEPTH - depth,
        ),
        r matches Err(error) ==> error@ == ErrorView::Validation(depth_text()),
{
    let ghost fuel = choose|fuel: nat| #[trigger]
        depth_walk(selection_set.items@, fragment_definitions@, depth as int, fuel) is Some;
    let within = walk(selection_set, fragment_definitions, depth, Ghost(fuel));
    proof {
        lemma_walk_exact(selection_set.items@, fragment_definitions@, depth as int, fuel);
    }
    if within {
        Ok(())
    } else {
        let message = with_number(
            "Query selection depth exceeds the maximum allowed depth of ",
            MAX_SELECTION_DEPTH,
        );
        proof {
            lemma_depth_text();
        }
        Err(GraphQLError::validation(message.as_str()))
    }
}

/// The selections that `path` leads to, if it does not end before.
pub open spec fn selections_at(
    items: Seq<Selection>,
    fragments: Seq<FragmentDefinition>,
    path: Seq<int>,
) -> Option<Seq<Selection>>
    decreases path.len(),
{
    if path.len() == 0 {
        Some(items)
    } else if !(0 <= path[0] < items.len()) {
        None
    } else {
        match inner_selections(items[path[0]], fragments) {
            Some(inner) => selections_at(inner, fragments, path.drop_first()),
            None => None,
        }
    }
}

/// The fields above some selections and those below them add up, however a path is split
/// between an operation and the fragments in it.
pub proof fn law_nesting_adds_up(
    items: Seq<Selection>,
    fragments: Seq<FragmentDefinition>,
    above: Seq<int>,
    below: Seq<int>,
)
    requires
        selections_at(items, fragments, above) is Some,
    ensures
        fields_on_path(items, fragments, above + below) == fields_on_path(items, fragments, above)
            + fields_on_path(selections_at(items, fragments, above)->0, fragments, below),
    decreases above.len(),
{
    if above.len() == 0 {
        assert(above + below =~= below);
    } else {
        let inner = inner_selections(items[above[0]], fragments)->0;
        assert((above + below).drop_first() =~= above.drop_first() + below);
        law_nesting_adds_up(inner, fragments, above.drop_first(), below);
    }
}

/// The nesting of one selection is what it adds and the nesting of what it leads to.
pub proof fn law_selection_nesting(
    selection: Selection,
    fragments: Seq<FragmentDefinition>,
    limit: int,
)
    ensures
        nests_within(seq![selection], fragments, limit) <==> limit >= 0 && (inner_selections(
            selection,
            fragments,
        ) matches Some(inner) ==> nests_within(
            inner,
            fragments,
            limit - depth_added(selection),
        )),
{
    let items = seq![selection];
    if nests_within(items, fragments, limit) {
        assert(fields_on_path(items, fragments, Seq::empty()) == 0);
        if let Some(inner) = inner_selections(selection, fragments) {
            assert forall|path: Seq<int>| #[trigger]
                fields_on_path(inner, fragments, path) <= limit - depth_added(selection) by {
                let whole = seq![0int] + path;
                assert(whole.drop_first() =~= path);
                assert(fields_on_path(items, fragments, whole) <= limit);
            }
        }
    } else {
        let path = choose|path: Seq<int>| #[trigger]
            fields_on_path(items, fragments, path) > limit;
        if limit >= 0 {
            let inner = inner_selections(selection, fragments);
            assert(inner is Some);
            assert(fields_on_path(inner->0, fragments, path.drop_first()) > limit - depth_added(
                selection,
            ));
        }
    }
}

/// A field nests one level deeper than the selections on its result.
pub proof fn law_field_adds_one_level(
    field: Field,
    fragments: Seq<FragmentDefinition>,
    limit: int,
)
    ensures
        nests_within(seq![Selection::Field(field)], fragments, limit) <==> limit >= 0
            && nests_within(field.selection_set.items@, fragments, limit - 1),
{
    law_selection_nesting(Selection::Field(field), fragments, limit);
}

/// An inline fragment nests as deeply as its own selections: it counts what is inside it
/// and adds nothing.
pub proof fn law_inline_fragment_adds_no_level(
    inline: InlineFragment,
    fragments: Seq<FragmentDefinition>,
    limit: int,
)
    ensures
        nests_within(seq![Selection::InlineFragment(inline)], fragments, limit)
            <==> nests_within(inline.selection_set.items@, fragments, limit),
{
    law_selection_nesting(Selection::InlineFragment(inline), fragments, limit);
    if nests_within(inline.selection_set.items@, fragments, limit) {
        assert(fields_on_path(inline.selection_set.items@, fragments, Seq::empty()) <= limit);
    }
}

/// A spread nests as deeply as the selections of the fragment that it names.
pub proof fn law_spread_adds_no_level(
    spread: FragmentSpread,
    fragments: Seq<FragmentDefinition>,
    limit: int,
)
    requires
        first_named(fragments, spread.fragment_name@) is Some,
    ensures
        nests_within(seq![Selection::FragmentSpread(spread)], fragments, limit) <==> nests_within(
            fragments[first_named(fragments, spread.fragment_name@)->0].selection_set.items@,
            fragments,
            limit,
        ),
{
    let items = fragments[first_named(
        fragments,
        spread.fragment_name@,
    )->0].selection_set.items@;
    law_selection_nesting(Selection::FragmentSpread(spread), fragments, limit);
    if nests_within(items, fragments, limit) {
        assert(fields_on_path(items, fragments, Seq::empty()) <= limit);
    }
}

/// Selections side by side nest as deeply as the deepest of them.
pub proof fn law_siblings_nest_apart(
    left: Seq<Selection>,
    right: Seq<Selection>,
    fragments: Seq<FragmentDefinition>,
    limit: int,
)
    ensures
        nests_within(left + right, fragments, limit) <==> nests_within(left, fragments, limit)
            && nests_within(right, fragments, limit),
{
    let items = left + right;
    if nests_within(items, fragments, limit) {
        assert forall|path: Seq<int>| #[trigger]
            fields_on_path(left, fragments, path) <= limit by {
            if path.len() > 0 && 0 <= path[0] < left.len() {
                assert(items[path[0]] == left[path[0]]);
                assert(fields_on_path(items, fragments, path) <= limit);
            } else {
                assert(fields_on_path(items, fragments, Seq::empty()) <= limit);
            }
        }
        assert forall|path: Seq<int>| #[trigger]
            fields_on_path(right, fragments, path) <= limit by {
            if path.len() > 0 && 0 <= path[0] < right.len() {
                let shifted = path.update(0, path[0] + left.len());
                assert(shifted.drop_first() =~= path.drop_first());
                assert(items[shifted[0]] == right[path[0]]);
                assert(fields_on_path(items, fragments, shifted) <= limit);
            } else {
                assert(fields_on_path(items, fragments, Seq::empty()) <= limit);
            }
        }
    } else {
        let path = choose|path: Seq<int>| #[trigger]
            fields_on_path(items, fragments, path) > limit;
        if path.len() == 0 || !(0 <= path[0] < items.len()) {
            assert(fields_on_path(left, fragments, Seq::empty()) > limit);
        } else if path[0] < left.len() {
            assert(fields_on_path(left, fragments, path) > limit);
        } else {
            let shifted = path.update(0, path[0] - left.len());
            assert(shifted.drop_first() =~= path.drop_first());
            assert(fields_on_path(right, fragments, shifted) > limit);
        }
    }
}

/// Without selections nothing nests, and a spread of a fragment that is not written anywhere
/// adds nothing.
pub proof fn law_nothing_nests_in_nothing(
    spread: FragmentSpread,
    fragments: Seq<FragmentDefinition>,
    limit: int,
)
    requires
        forall|j: int|
            0 <= j < fragments.len() ==> #[trigger] fragments[j].name@ != spread.fragment_name@,
    ensures
        nests_within(Seq::empty(), fragments, limit) <==> limit >= 0,
        nests_within(seq![Selection::FragmentSpread(spread)], fragments, limit) <==> limit >= 0,
{
    lemma_first_named(fragments, spread.fragment_name@);
    law_selection_nesting(Selection::FragmentSpread(spread), fragments, limit);
    if limit >= 0 {
        assert forall|path: Seq<int>| #[trigger]
            fields_on_path(Seq::empty(), fragments, path) <= limit by {}
    } else {
        assert(fields_on_path(Seq::empty(), fragments, Seq::empty()) > limit);
    }
}

/// A spread nests as deeply as the selections of the first fragment that is written with its
/// name, and no other of that name counts.
pub proof fn law_spread_nests_as_the_first_of_its_name(
    spread: FragmentSpread,
    i: int,
    fragments: Seq<FragmentDefinition>,
    limit: int,
)
    requires
        0 <= i < fragments.len(),
        fragments[i].name@ == spread.fragment_name@,
        forall|j: int| 0 <= j < i ==> #[trigger] fragments[j].name@ != spread.fragment_name@,
    ensures
        nests_within(seq![Selection::FragmentSpread(spread)], fragments, limit) <==> nests_within(
            fragments[i].selection_set.items@,
            fragments,
            limit,
        ),
{
    lemma_first_named(fragments, spread.fragment_name@);
    let k = first_named(fragments, spread.fragment_name@)->0;
    if k < i {
        assert(fragments[k].name@ != spread.fragment_name@);
    }
    law_spread_adds_no_level(spread, fragments, limit);
}

/// A path counts one for each field that it goes through, and nothing for an inline fragment
/// or for a spread, from which it goes on in the first fragment that is written with the name.
pub proof fn law_path_counts_fields(
    items: Seq<Selection>,
    fragments: Seq<FragmentDefinition>,
    path: Seq<int>,
)
    requires
        path.len() > 0,
        0 <= path[0] < items.len(),
    ensures
        items[path[0]] matches Selection::Field(field) ==> fields_on_path(items, fragments, path)
            == 1 + fields_on_path(field.selection_set.items@, fragments, path.drop_first()),
        items[path[0]] matches Selection::InlineFragment(inline) ==> fields_on_path(
            items,
            fragments,
            path,
        ) == fields_on_path(inline.selection_set.items@, fragments, path.drop_first()),
        items[path[0]] matches Selection::FragmentSpread(spread) ==> forall|i: int|
            0 <= i < fragments.len() && #[trigger] fragments[i].name@ == spread.fragment_name@ && (
            forall|j: int| 0 <= j < i ==> #[trigger] fragments[j].name@ != spread.fragment_name@)
                ==> fields_on_path(items, fragments, path) == fields_on_path(
                fragments[i].selection_set.items@,
                fragments,
                path.drop_first(),
            ),
{
    if let Selection::FragmentSpread(spread) = items[path[0]] {
        lemma_first_named(fragments, spread.fragment_name@);
    }
}

/// The walk ends at once below the maximum depth, where it looks no further, and where there is
/// nothing to walk.
pub proof fn law_walk_ends_below_the_maximum(
    items: Seq<Selection>,
    fragments: Seq<FragmentDefinition>,
    depth: int,
)
    requires
        depth > MAX_SELECTION_DEPTH || items.len() == 0,
    ensures
        walk_ends(items, fragments, depth),
{
    assert(depth_walk(items, fragments, depth, 0) is Some);
}

/// The walk over a field ends where that over its selections does, one level deeper. So a
/// fragment that leads back into itself through a field lets the walk end.
pub proof fn law_walk_ends_through_a_field(
    field: Field,
    fragments: Seq<FragmentDefinition>,
    depth: int,
)
    requires
        walk_ends(field.selection_set.items@, fragments, depth + 1),
    ensures
        walk_ends(seq![Selection::Field(field)], fragments, depth),
{
    lemma_walk_ends_through(Selection::Field(field), fragments, depth);
}

/// The walk over selections side by side ends where that over each of them does.
pub proof fn law_walk_ends_side_by_side(
    left: Seq<Selection>,
    right: Seq<Selection>,
    fragments: Seq<FragmentDefinition>,
    depth: int,
)
    requires
        walk_ends(left, fragments, depth),
        walk_ends(right, fragments, depth),
    ensures
        walk_ends(left + right, fragments, depth),
{
    let one = choose|fuel: nat| #[trigger] depth_walk(left, fragments, depth, fuel) is Some;
    let other = choose|fuel: nat| #[trigger] depth_walk(right, fragments, depth, fuel) is Some;
    let fuel = one + other;
    lemma_walk_fuel(left, fragments, depth, one, fuel);
    lemma_walk_fuel(right, fragments, depth, other, fuel);
    lemma_walk_side_by_side(left, right, fragments, depth, fuel);
    assert(depth_walk(left + right, fragments, depth, fuel) is Some);
}

/// A walk with enough fuel for each of two stretches has enough for both.
proof fn lemma_walk_side_by_side(
    left: Seq<Selection>,
    right: Seq<Selection>,
    fragments: Seq<FragmentDefinition>,
    depth: int,
    fuel: nat,
)
    requires
        depth_walk(left, fragments, depth, fuel) is Some,
        depth_walk(right, fragments, depth, fuel) is Some,
    ensures
        depth_walk(left + right, fragments, depth, fuel) is Some,
    decreases left.len(),
{
    if left.len() == 0 {
        assert(left + right =~= right);
    } else if depth <= MAX_SELECTION_DEPTH {
        assert((left + right).drop_first() =~= left.drop_first() + right);
        assert((left + right)[0] == left[0]);
        if depth_walk(left.drop_first(), fragments, depth, fuel) is Some {
            lemma_walk_side_by_side(left.drop_first(), right, fragments, depth, fuel);
        }
    }
}

/// The walk over an inline fragment, or over a spread of the first fragment that is written with
/// its name, ends where that over the selections does, at the same depth. Over a spread of a
/// fragment that is not written anywhere it ends at once.
pub proof fn law_walk_ends_through_fragments(
    inline: InlineFragment,
    spread: FragmentSpread,
    fragments: Seq<FragmentDefinition>,
    depth: int,
)
    ensures
        walk_ends(inline.selection_set.items@, fragments, depth) ==> walk_ends(
            seq![Selection::InlineFragment(inline)],
            fragments,
            depth,
        ),
        forall|i: int|
            0 <= i < fragments.len() && #[trigger] fragments[i].name@ == spread.fragment_name@ && (
            forall|j: int| 0 <= j < i ==> #[trigger] fragments[j].name@ != spread.fragment_name@)
                && walk_ends(fragments[i].selection_set.items@, fragments, depth) ==> walk_ends(
                seq![Selection::FragmentSpread(spread)],
                fragments,
                depth,
            ),
        (forall|j: int|
            0 <= j < fragments.len() ==> #[trigger] fragments[j].name@ != spread.fragment_name@)
            ==> walk_ends(seq![Selection::FragmentSpread(spread)], fragments, depth),
{
    lemma_first_named(fragments, spread.fragment_name@);
    lemma_walk_ends_through(Selection::InlineFragment(inline), fragments, depth);
    lemma_walk_ends_through(Selection::FragmentSpread(spread), fragments, depth);
}

/// The walk over one selection ends where that over what it leads to does.
proof fn lemma_walk_ends_through(
    selection: Selection,
    fragments: Seq<FragmentDefinition>,
    depth: int,
)
    ensures
        (inner_selections(selection, fragments) matches Some(inner) ==> walk_ends(
            inner,
            fragments,
            depth + depth_added(selection),
        )) ==> walk_ends(seq![selection], fragments, depth),
{
    let items = seq![selection];
    assert(items.drop_first() =~= Seq::empty());
    reveal_with_fuel(depth_walk, 2);
    match inner_selections(selection, fragments) {
        Some(inner) => {
            let below = depth + depth_added(selection);
            if walk_ends(inner, fragments, below) {
                let fuel = choose|fuel: nat| #[trigger]
                    depth_walk(inner, fragments, below, fuel) is Some;
                assert(depth_walk(items, fragments, depth, fuel + 1) is Some);
            }
        },
        None => {
            assert(depth_walk(items, fragments, depth, 0) is Some);
        },
    }
}

} // verus!
