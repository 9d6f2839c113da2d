//! Fragments that lead back into themselves, and the limit on how deeply fragments nest.

use vstd::prelude::*;

pub use vstd::hash_set::StringHashSet;

use crate::depth::{depth_added, depth_walk, lemma_walk_fuel, selections_at, walk_ends};
use crate::document::{
    find_fragment, first_named, inner_selections, lemma_first_named, Field, FragmentDefinition,
    FragmentSpread, InlineFragment, Selection, SelectionSet,
};
use crate::error::{ErrorView, GraphQLError, GraphQLResult};
use crate::text::{decimal, with_number};

verus! {

/// Maximum nesting that the search for cycles follows.
pub const STACK_DEPTH_LIMIT: u32 = 50;

/// What is wrong with a fragment.
pub enum FragmentFault {
    /// It nests more deeply than the search follows.
    TooDeep,
    /// It leads into a fragment that is still open.
    Cycle,
}

impl FragmentFault {
    /// The message that reports the fault.
    pub open spec fn text(self) -> Seq<char> {
        match self {
            FragmentFault::TooDeep => "Fragment cycle depth is greater than 50"@,
            FragmentFault::Cycle => "Found a cycle between fragments"@,
        }
    }
}

/// The number in the message is the limit.
proof fn lemma_too_deep_text()
    ensures
        FragmentFault::TooDeep.text() == "Fragment cycle depth is greater than "@ + decimal(
            STACK_DEPTH_LIMIT as nat,
        ),
{
    reveal_strlit("Fragment cycle depth is greater than 50");
    reveal_strlit("Fragment cycle depth is greater than ");
    reveal_strlit("0123456789");
    reveal_with_fuel(decimal, 2);
    assert(FragmentFault::TooDeep.text() =~= "Fragment cycle depth is greater than "@ + decimal(
        STACK_DEPTH_LIMIT as nat,
    ));
}

/// The error for a fragment that nests more deeply than the search follows.
fn too_deep() -> (r: GraphQLError)
    ensures
        r@ == ErrorView::Validation(FragmentFault::TooDeep.text()),
{
    proof {
        lemma_too_deep_text();
    }
    let message = with_number("Fragment cycle depth is greater than ", STACK_DEPTH_LIMIT);
    GraphQLError::validation(message.as_str())
}

/// The outcome of the search for cycles.
pub enum FragmentScan {
    Clear,
    /// The first fault, and the names of the fragments that are open where it is met.
    Fault { fault: FragmentFault, open: Set<Seq<char>> },
}

/// The search in one fragment, which stands at `depth` with the fragments in `open` around
/// it.
pub open spec fn scan_fragment(
    fragment: FragmentDefinition,
    open: Set<Seq<char>>,
    fragments: Seq<FragmentDefinition>,
    depth: int,
) -> FragmentScan
    decreases STACK_DEPTH_LIMIT + 1 - depth, 0nat,
{
    if depth > STACK_DEPTH_LIMIT {
        FragmentScan::Fault { fault: FragmentFault::TooDeep, open }
    } else if open.contains(fragment.name@) {
        FragmentScan::Fault { fault: FragmentFault::Cycle, open }
    } else {
        scan_items(
            fragment.selection_set.items@,
            open.insert(fragment.name@),
            fragments,
            depth + 1,
        )
    }
}

/// The search in the selections at `depth`, from left to right, up to the first fault.
pub open spec fn scan_items(
    items: Seq<Selection>,
    open: Set<Seq<char>>,
    fragments: Seq<FragmentDefinition>,
    depth: int,
) -> FragmentScan
    decreases STACK_DEPTH_LIMIT + 1 - depth, items.len(),
{
    if depth > STACK_DEPTH_LIMIT {
        FragmentScan::Fault { fault: FragmentFault::TooDeep, open }
    } else if items.len() == 0 {
        FragmentScan::Clear
    } else {
        let first = match items[0] {
            Selection::Field(field) => scan_items(
                field.selection_set.items@,
                open,
                fragments,
                depth + 1,
            ),
            Selection::FragmentSpread(spread) => match first_named(
                fragments,
                spread.fragment_name@,
            ) {
                Some(i) => scan_fragment(fragments[i], open, fragments, depth + 1),
                None => FragmentScan::Clear,
            },
            Selection::InlineFragment(inline) => scan_items(
                inline.selection_set.items@,
                open,
                fragments,
                depth + 1,
            ),
        };
        if first is Clear {
            scan_items(items.drop_first(), open, fragments, depth)
        } else {
            first
        }
    }
}

/// The nesting reached along `path`, which picks one selection by its index at each level:
/// one for each field and inline fragment, two for each spread.
pub open spec fn levels_on_path(
    items: Seq<Selection>,
    fragments: Seq<FragmentDefinition>,
    path: Seq<int>,
) -> nat
    decreases path.len(),
{
    if path.len() == 0 || !(0 <= path[0] < items.len()) {
        0
    } else {
        match inner_selections(items[path[0]], fragments) {
            Some(inner) => (if items[path[0]] is FragmentSpread {
                2nat
            } else {
                1nat
            }) + levels_on_path(inner, fragments, path.drop_first()),
            None => 0,
        }
    }
}

/// The names of the fragments entered along `path`, in the order in which it enters them.
pub open spec fn fragments_on_path(
    items: Seq<Selection>,
    fragments: Seq<FragmentDefinition>,
    path: Seq<int>,
) -> Seq<Seq<char>>
    decreases path.len(),
{
    if path.len() == 0 || !(0 <= path[0] < items.len()) {
        Seq::empty()
    } else {
        match inner_selections(items[path[0]], fragments) {
            Some(inner) => match items[path[0]] {
                Selection::FragmentSpread(spread) => seq![spread.fragment_name@]
                    + fragments_on_path(inner, fragments, path.drop_first()),
                _ => fragments_on_path(inner, fragments, path.drop_first()),
            },
            None => Seq::empty(),
        }
    }
}

/// No fragment is entered twice: neither one of `entered` again, nor one in `open`.
pub open spec fn enters_once(open: Set<Seq<char>>, entered: Seq<Seq<char>>) -> bool {
    &&& entered.no_duplicates()
    &&& forall|i: int| 0 <= i < entered.len() ==> !open.contains(#[trigger] entered[i])
}

/// The path nests no more than `limit` levels, and enters no fragment twice.
pub open spec fn sound_path(
    items: Seq<Selection>,
    open: Set<Seq<char>>,
    fragments: Seq<FragmentDefinition>,
    limit: int,
    path: Seq<int>,
) -> bool {
    &&& levels_on_path(items, fragments, path) <= limit
    &&& enters_once(open, fragments_on_path(items, fragments, path))
}

/// No path nests more than `limit` levels, or enters a fragment twice.
pub open spec fn sound_items(
    items: Seq<Selection>,
    open: Set<Seq<char>>,
    fragments: Seq<FragmentDefinition>,
    limit: int,
) -> bool {
    forall|path: Seq<int>| #[trigger] sound_path(items, open, fragments, limit, path)
}

/// Entering one more fragment and then those of `rest`.
proof fn lemma_enters_once_push(open: Set<Seq<char>>, name: Seq<char>, rest: Seq<Seq<char>>)
    ensures
        enters_once(open, seq![name] + rest) <==> !open.contains(name) && enters_once(
            open.insert(name),
            rest,
        ),
{
    let all = seq![name] + rest;
    let wider = open.insert(name);
    if enters_once(open, all) {
        assert(all[0] == name);
        assert forall|i: int| 0 <= i < rest.len() implies !wider.contains(#[trigger] rest[i]) by {
            assert(all[i + 1] == rest[i]);
            assert(all[0] != all[i + 1]);
        }
        assert forall|i: int, j: int| 0 <= i < j < rest.len() implies rest[i] != rest[j] by {
            assert(all[i + 1] != all[j + 1]);
        }
    }
    if !open.contains(name) && enters_once(wider, rest) {
        assert forall|i: int| 0 <= i < all.len() implies !open.contains(#[trigger] all[i]) by {
            if i > 0 {
                assert(all[i] == rest[i - 1]);
            }
        }
        assert forall|i: int, j: int| 0 <= i < j < all.len() implies all[i] != all[j] by {
            assert(all[j] == rest[j - 1]);
            if i > 0 {
                assert(all[i] == rest[i - 1]);
            }
        }
    }
}

/// A path that does not pick the first selection is a path through the others.
proof fn lemma_path_past_first(
    items: Seq<Selection>,
    fragments: Seq<FragmentDefinition>,
    path: Seq<int>,
)
    requires
        items.len() > 0,
        path.len() > 0,
        path[0] != 0,
    ensures
        levels_on_path(items, fragments, path) == levels_on_path(
            items.drop_first(),
            fragments,
            path.update(0, path[0] - 1),
        ),
        fragments_on_path(items, fragments, path) == fragments_on_path(
            items.drop_first(),
            fragments,
            path.update(0, path[0] - 1),
        ),
{
    let next = path.update(0, path[0] - 1);
    assert(next.drop_first() =~= path.drop_first());
    if 0 <= path[0] < items.len() {
        assert(items.drop_first()[next[0]] == items[path[0]]);
    }
}

/// A search that met no fault vouches for every path.
proof fn lemma_scan_vouches(
    items: Seq<Selection>,
    open: Set<Seq<char>>,
    fragments: Seq<FragmentDefinition>,
    depth: int,
    path: Seq<int>,
)
    requires
        scan_items(items, open, fragments, depth) is Clear,
    ensures
        sound_path(items, open, fragments, STACK_DEPTH_LIMIT - depth, path),
    decreases STACK_DEPTH_LIMIT + 1 - depth, items.len(),
{
    reveal_with_fuel(scan_fragment, 2);
    reveal_with_fuel(scan_items, 3);
    if path.len() == 0 || !(0 <= path[0] < items.len()) {
    } else if path[0] == 0 {
        let rest = path.drop_first();
        match items[0] {
            Selection::Field(field) => {
                lemma_scan_vouches(
                    field.selection_set.items@,
                    open,
                    fragments,
                    depth + 1,
                    rest,
                );
            },
            Selection::FragmentSpread(spread) => {
                lemma_first_named(fragments, spread.fragment_name@);
                if let Some(i) = first_named(fragments, spread.fragment_name@) {
                    let inner = fragments[i].selection_set.items@;
                    let name = spread.fragment_name@;
                    lemma_scan_vouches(inner, open.insert(name), fragments, depth + 2, rest);
                    lemma_enters_once_push(
                        open,
                        name,
                        fragments_on_path(inner, fragments, rest),
                    );
                }
            },
            Selection::InlineFragment(inline) => {
                lemma_scan_vouches(
                    inline.selection_set.items@,
                    open,
                    fragments,
                    depth + 1,
                    rest,
                );
            },
        }
    } else {
        lemma_path_past_first(items, fragments, path);
        lemma_scan_vouches(
            items.drop_first(),
            open,
            fragments,
            depth,
            path.update(0, path[0] - 1),
        );
    }
}

/// A path through the first selection of `items`, given the path through what it leads to.
proof fn lemma_path_through_first(
    items: Seq<Selection>,
    fragments: Seq<FragmentDefinition>,
    rest: Seq<int>,
) -> (path: Seq<int>)
    requires
        items.len() > 0,
        inner_selections(items[0], fragments) is Some,
    ensures
        path.len() == rest.len() + 1,
        levels_on_path(items, fragments, path) == (if items[0] is FragmentSpread {
            2nat
        } else {
            1nat
        }) + levels_on_path(inner_selections(items[0], fragments)->0, fragments, rest),
        fragments_on_path(items, fragments, path) == (match items[0] {
            Selection::FragmentSpread(spread) => seq![spread.fragment_name@],
            _ => Seq::empty(),
        }) + fragments_on_path(inner_selections(items[0], fragments)->0, fragments, rest),
{
    let path = seq![0int] + rest;
    assert(path.drop_first() =~= rest);
    path
}

/// The path runs into the fault: it nests more than `limit` levels, or enters a fragment twice.
spec fn faulty_path(
    items: Seq<Selection>,
    open: Set<Seq<char>>,
    fragments: Seq<FragmentDefinition>,
    limit: int,
    fault: FragmentFault,
    path: Seq<int>,
) -> bool {
    match fault {
        FragmentFault::TooDeep => levels_on_path(items, fragments, path) > limit,
        FragmentFault::Cycle => !enters_once(open, fragments_on_path(items, fragments, path)),
    }
}

/// A search that met a fault gives a path to it.
proof fn lemma_scan_finds_path(
    items: Seq<Selection>,
    open: Set<Seq<char>>,
    fragments: Seq<FragmentDefinition>,
    depth: int,
) -> (path: Seq<int>)
    requires
        scan_items(items, open, fragments, depth) is Fault,
    ensures
        faulty_path(
            items,
            open,
            fragments,
            STACK_DEPTH_LIMIT - depth,
            scan_items(items, open, fragments, depth)->fault,
            path,
        ),
    decreases STACK_DEPTH_LIMIT + 1 - depth, items.len(),
{
    reveal_with_fuel(scan_fragment, 2);
    reveal_with_fuel(scan_items, 3);
    if depth > STACK_DEPTH_LIMIT {
        Seq::empty()
    } else if scan_items(seq![items[0]], open, fragments, depth) is Clear {
        let single = seq![items[0]];
        assert(single.drop_first() =~= Seq::empty());
        let tail = lemma_scan_finds_path(items.drop_first(), open, fragments, depth);
        if tail.len() == 0 || tail[0] < 0 {
            Seq::empty()
        } else {
            let path = tail.update(0, tail[0] + 1);
            assert(path.update(0, path[0] - 1) =~= tail);
            lemma_path_past_first(items, fragments, path);
            path
        }
    } else {
        let single = seq![items[0]];
        assert(single.drop_first() =~= Seq::empty());
        match items[0] {
            Selection::FragmentSpread(spread) => {
                let name = spread.fragment_name@;
                lemma_first_named(fragments, name);
                let i = first_named(fragments, name)->0;
                let inner = fragments[i].selection_set.items@;
                if depth + 1 > STACK_DEPTH_LIMIT || open.contains(name) {
                    lemma_enters_once_push(open, name, Seq::empty());
                    lemma_path_through_first(items, fragments, Seq::empty())
                } else {
                    let rest = lemma_scan_finds_path(
                        inner,
                        open.insert(name),
                        fragments,
                        depth + 2,
                    );
                    lemma_enters_once_push(
                        open,
                        name,
                        fragments_on_path(inner, fragments, rest),
                    );
                    lemma_path_through_first(items, fragments, rest)
                }
            },
            _ => {
                let inner = inner_selections(items[0], fragments)->0;
                let rest = lemma_scan_finds_path(inner, open, fragments, depth + 1);
                let path = lemma_path_through_first(items, fragments, rest);
                assert(fragments_on_path(items, fragments, path) =~= fragments_on_path(
                    inner,
                    fragments,
                    rest,
                ));
                path
            },
        }
    }
}

/// The search meets no fault exactly where every path is sound.
pub proof fn lemma_scan_exact(
    items: Seq<Selection>,
    open: Set<Seq<char>>,
    fragments: Seq<FragmentDefinition>,
    depth: int,
)
    ensures
        scan_items(items, open, fragments, depth) is Clear <==> sound_items(
            items,
            open,
            fragments,
            STACK_DEPTH_LIMIT - depth,
        ),
{
    let limit = STACK_DEPTH_LIMIT - depth;
    if scan_items(items, open, fragments, depth) is Clear {
        assert forall|path: Seq<int>| #[trigger]
            sound_path(items, open, fragments, limit, path) by {
            lemma_scan_vouches(items, open, fragments, depth, path);
        }
    } else {
        let path = lemma_scan_finds_path(items, open, fragments, depth);
        assert(!sound_path(items, open, fragments, limit, path));
    }
}

/// A fragment at `depth` is sound: it is not one of those around it, and nothing in it
/// nests beyond the limit or enters a fragment twice.
pub open spec fn sound_fragment(
    fragment: FragmentDefinition,
    open: Set<Seq<char>>,
    fragments: Seq<FragmentDefinition>,
    depth: int,
) -> bool {
    &&& !open.contains(fragment.name@)
    &&& sound_items(
        fragment.selection_set.items@,
        open.insert(fragment.name@),
        fragments,
        STACK_DEPTH_LIMIT - depth - 1,
    )
}

/// The search in a fragment meets no fault exactly where the fragment is sound.
pub proof fn lemma_scan_fragment_exact(
    fragment: FragmentDefinition,
    open: Set<Seq<char>>,
    fragments: Seq<FragmentDefinition>,
    depth: int,
)
    ensures
        scan_fragment(fragment, open, fragments, depth) is Clear <==> sound_fragment(
            fragment,
            open,
            fragments,
            depth,
        ),
{
    let items = fragment.selection_set.items@;
    let inside = open.insert(fragment.name@);
    lemma_scan_exact(items, inside, fragments, depth + 1);
    if depth > STACK_DEPTH_LIMIT {
        assert(!sound_path(
            items,
            inside,
            fragments,
            STACK_DEPTH_LIMIT - depth - 1,
            Seq::empty(),
        ));
    }
}

/// How a search is reported: without a fault the names of the open fragments are those from
/// before, with one they are those where it was met.
pub open spec fn reported(
    scan: FragmentScan,
    before: Set<Seq<char>>,
    after: Set<Seq<char>>,
    r: GraphQLResult<()>,
) -> bool {
    match scan {
        FragmentScan::Clear => r is Ok && after == before,
        FragmentScan::Fault { fault, open } => {
            &&& r matches Err(error) && error@ == ErrorView::Validation(fault.text())
            &&& after == open
        },
    }
}

/// Searches a fragment for cycles. `visited` holds the names of the fragments around it.
pub fn detect_fragment_cycles(
    fragment_definition: &FragmentDefinition,
    visited: &mut StringHashSet,
    fragment_definitions: &[FragmentDefinition],
    stack_depth: u32,
) -> (r: GraphQLResult<()>)
    ensures
        r is Ok <==> sound_fragment(
            *fragment_definition,
            old(visited)@,
            fragment_definitions@,
            stack_depth as int,
        ),
        reported(
            scan_fragment(
                *fragment_definition,
                old(visited)@,
                fragment_definitions@,
                stack_depth as int,
            ),
            old(visited)@,
            final(visited)@,
            r,
        ),
    decreases STACK_DEPTH_LIMIT + 1 - stack_depth,
{
    proof {
        lemma_scan_fragment_exact(
            *fragment_definition,
            visited@,
            fragment_definitions@,
            stack_depth as int,
        );
    }
    if stack_depth > STACK_DEPTH_LIMIT {
        return Err(too_deep());
    }
    let name = fragment_definition.name.as_str();
    if visited.contains(name) {
        return Err(GraphQLError::validation("Found a cycle between fragments"));
    }
    visited.insert(fragment_definition.name.clone());
    let inside = detect_fragment_cycles_in_selection_set(
        &fragment_definition.selection_set,
        visited,
        fragment_definitions,
        stack_depth + 1,
    );
    if inside.is_err() {
        return inside;
    }
    visited.remove(name);
    assert(visited@ =~= old(visited)@);
    Ok(())
}

/// Searches selections for fragments that lead back into one of `visited`, or into
/// themselves.
pub fn detect_fragment_cycles_in_selection_set(
    selection_set: &SelectionSet,
    visited: &mut StringHashSet,
    fragment_definitions: &[FragmentDefinition],
    stack_depth: u32,
) -> (r: GraphQLResult<()>)
    ensures
        r is Ok <==> sound_items(
            selection_set.items@,
            old(visited)@,
            fragment_definitions@,
            STACK_DEPTH_LIMIT - stack_depth,
        ),
        reported(
            scan_items(
                selection_set.items@,
                old(visited)@,
                fragment_definitions@,
                stack_depth as int,
            ),
            old(visited)@,
            final(visited)@,
            r,
        ),
    decreases STACK_DEPTH_LIMIT + 1 - stack_depth,
{
    let ghost items = selection_set.items@;
    let ghost fragments = fragment_definitions@;
    let ghost open = visited@;
    proof {
        lemma_scan_exact(items, open, fragments, stack_depth as int);
    }
    if stack_depth > STACK_DEPTH_LIMIT {
        return Err(too_deep());
    }
    let mut i: usize = 0;
    assert(items.skip(0) =~= items);
    while i < selection_set.items.len()
        invariant
            items == selection_set.items@,
            fragments == fragment_definitions@,
            open == old(visited)@,
            open == visited@,
            i <= items.len(),
            stack_depth <= STACK_DEPTH_LIMIT,
            scan_items(items, open, fragments, stack_depth as int) == scan_items(
                items.skip(i as int),
                open,
                fragments,
                stack_depth as int,
            ),
            scan_items(items, open, fragments, stack_depth as int) is Clear <==> sound_items(
                items,
                open,
                fragments,
                STACK_DEPTH_LIMIT - stack_depth,
            ),
        decreases items.len() - i,
    {
        let ghost left = items.skip(i as int);
        proof {
            reveal_with_fuel(scan_items, 2);
            assert(left[0] == items[i as int]);
            assert(left.drop_first() =~= items.skip(i + 1));
        }
        let inside = match &selection_set.items[i] {
            Selection::Field(field) => detect_fragment_cycles_in_selection_set(
                &field.selection_set,
                visited,
                fragment_definitions,
                stack_depth + 1,
            ),
            Selection::FragmentSpread(fragment_spread) => {
                match find_fragment(fragment_definitions, &fragment_spread.fragment_name) {
                    Some(k) => detect_fragment_cycles(
                        &fragment_definitions[k],
                        visited,
                        fragment_definitions,
                        stack_depth + 1,
                    ),
                    None => Ok(()),
                }
            },
            Selection::InlineFragment(inline_fragment) => detect_fragment_cycles_in_selection_set(
                &inline_fragment.selection_set,
                visited,
                fragment_definitions,
                stack_depth + 1,
            ),
        };
        if inside.is_err() {
            return inside;
        }
        i = i + 1;
    }
    assert(items.skip(i as int) =~= Seq::empty());
    Ok(())
}

/// Every fragment of a document is sound on its own.
pub open spec fn sound_fragments(fragments: Seq<FragmentDefinition>) -> bool {
    forall|i: int|
        0 <= i < fragments.len() ==> #[trigger] sound_fragment(
            fragments[i],
            Set::empty(),
            fragments,
            1,
        )
}

/// The path from the selections of the fragment enters its name again.
pub open spec fn name_returns(fragments: Seq<FragmentDefinition>, i: int, path: Seq<int>) -> bool {
    fragments_on_path(fragments[i].selection_set.items@, fragments, path).contains(
        fragments[i].name@,
    )
}

/// Among sound fragments none leads back into itself, however long the way.
pub proof fn law_sound_fragments_have_no_cycle(
    fragments: Seq<FragmentDefinition>,
    i: int,
    path: Seq<int>,
)
    requires
        sound_fragments(fragments),
        0 <= i < fragments.len(),
    ensures
        !name_returns(fragments, i, path),
{
    let name = fragments[i].name@;
    let items = fragments[i].selection_set.items@;
    let open = Set::<Seq<char>>::empty().insert(name);
    let entered = fragments_on_path(items, fragments, path);
    assert(sound_fragment(fragments[i], Set::empty(), fragments, 1));
    assert(sound_path(items, open, fragments, STACK_DEPTH_LIMIT - 2, path));
    if entered.contains(name) {
        let k = choose|k: int| 0 <= k < entered.len() && entered[k] == name;
        assert(!open.contains(entered[k]));
    }
}

/// The path from the selections of one fragment enters another: it is the first of its name,
/// which is where a spread leads.
pub open spec fn enters(
    fragments: Seq<FragmentDefinition>,
    from: int,
    to: int,
    path: Seq<int>,
) -> bool {
    &&& first_named(fragments, fragments[to].name@) == Some(to)
    &&& fragments_on_path(fragments[from].selection_set.items@, fragments, path).contains(
        fragments[to].name@,
    )
}

/// The path leads from the fragment back into itself.
pub open spec fn leads_back(fragments: Seq<FragmentDefinition>, i: int, path: Seq<int>) -> bool {
    enters(fragments, i, i, path)
}

/// The fragment is the one from which the search starts, or is entered from it.
pub open spec fn reached(fragments: Seq<FragmentDefinition>, from: int, to: int) -> bool {
    ||| to == from
    ||| exists|path: Seq<int>| #[trigger] enters(fragments, from, to, path)
}

/// What a path enters after one of the fragments on it, a path from that fragment enters.
proof fn lemma_path_from_entered(
    items: Seq<Selection>,
    fragments: Seq<FragmentDefinition>,
    path: Seq<int>,
    i: int,
) -> (rest: Seq<int>)
    requires
        0 <= i < fragments_on_path(items, fragments, path).len(),
    ensures
        ({
            let entered = fragments_on_path(items, fragments, path);
            &&& first_named(fragments, entered[i]) matches Some(k)
            &&& 0 <= k < fragments.len()
            &&& fragments[k].name@ == entered[i]
            &&& fragments_on_path(fragments[k].selection_set.items@, fragments, rest)
                == entered.skip(i + 1)
        }),
    decreases path.len(),
{
    let entered = fragments_on_path(items, fragments, path);
    let inner = inner_selections(items[path[0]], fragments)->0;
    let below = fragments_on_path(inner, fragments, path.drop_first());
    match items[path[0]] {
        Selection::FragmentSpread(spread) => {
            lemma_first_named(fragments, spread.fragment_name@);
            assert(entered.skip(1) =~= below);
            if i == 0 {
                path.drop_first()
            } else {
                assert(entered[i] == below[i - 1]);
                assert(entered.skip(i + 1) =~= below.skip(i));
                lemma_path_from_entered(inner, fragments, path.drop_first(), i - 1)
            }
        },
        _ => lemma_path_from_entered(inner, fragments, path.drop_first(), i),
    }
}

/// A reported cycle is there: some fragment that is reached from the one searched, or that one
/// itself, comes back to its own name. It leads back into itself unless it is the one searched
/// and an earlier fragment has its name.
pub proof fn law_reported_cycle_is_there(fragments: Seq<FragmentDefinition>, m: int)
    requires
        0 <= m < fragments.len(),
        scan_fragment(fragments[m], Set::empty(), fragments, 1) matches FragmentScan::Fault {
            fault: FragmentFault::Cycle,
            ..
        },
    ensures
        exists|k: int, path: Seq<int>|
            0 <= k < fragments.len() && reached(fragments, m, k) && #[trigger] name_returns(
                fragments,
                k,
                path,
            ) && (leads_back(fragments, k, path) || (k == m && first_named(
                fragments,
                fragments[m].name@,
            ) != Some(m))),
{
    let items = fragments[m].selection_set.items@;
    let name = fragments[m].name@;
    let open = Set::<Seq<char>>::empty().insert(name);
    let path = lemma_scan_finds_path(items, open, fragments, 2);
    let entered = fragments_on_path(items, fragments, path);
    assert(!enters_once(open, entered));
    if entered.contains(name) {
        assert(name_returns(fragments, m, path));
    } else {
        let (i, j) = choose|i: int, j: int|
            0 <= i < entered.len() && 0 <= j < entered.len() && i != j && entered[i] == entered[j];
        let (first, second) = if i < j {
            (i, j)
        } else {
            (j, i)
        };
        let rest = lemma_path_from_entered(items, fragments, path, first);
        let k = first_named(fragments, entered[first])->0;
        assert(enters(fragments, m, k, path));
        assert(entered.skip(first + 1)[second - first - 1] == fragments[k].name@);
        assert(name_returns(fragments, k, rest));
        assert(leads_back(fragments, k, rest));
    }
}

/// A reported depth is there: some path from the fragment searched nests more deeply than the
/// search follows.
pub proof fn law_reported_depth_is_there(fragments: Seq<FragmentDefinition>, m: int)
    requires
        0 <= m < fragments.len(),
        scan_fragment(fragments[m], Set::empty(), fragments, 1) matches FragmentScan::Fault {
            fault: FragmentFault::TooDeep,
            ..
        },
    ensures
        exists|path: Seq<int>| #[trigger]
            levels_on_path(fragments[m].selection_set.items@, fragments, path)
                > STACK_DEPTH_LIMIT - 2,
{
    let items = fragments[m].selection_set.items@;
    let open = Set::<Seq<char>>::empty().insert(fragments[m].name@);
    let path = lemma_scan_finds_path(items, open, fragments, 2);
    assert(levels_on_path(items, fragments, path) > STACK_DEPTH_LIMIT - 2);
}

/// No fragment leads back into itself.
pub open spec fn acyclic(fragments: Seq<FragmentDefinition>) -> bool {
    forall|i: int, path: Seq<int>|
        0 <= i < fragments.len() ==> !#[trigger] leads_back(fragments, i, path)
}

/// A path that leads to some selections leads, one step on, to what one of them leads to.
proof fn lemma_path_goes_on(
    start: Seq<Selection>,
    fragments: Seq<FragmentDefinition>,
    path: Seq<int>,
    j: int,
)
    requires
        selections_at(start, fragments, path) is Some,
        0 <= j < selections_at(start, fragments, path)->0.len(),
        inner_selections(selections_at(start, fragments, path)->0[j], fragments) is Some,
    ensures
        selections_at(start, fragments, path.push(j)) == inner_selections(
            selections_at(start, fragments, path)->0[j],
            fragments,
        ),
        selections_at(start, fragments, path)->0[j] matches Selection::FragmentSpread(spread)
            ==> fragments_on_path(start, fragments, path.push(j)).contains(spread.fragment_name@),
    decreases path.len(),
{
    let longer = path.push(j);
    let reached = selections_at(start, fragments, path)->0[j];
    if path.len() == 0 {
        let inner = inner_selections(start[j], fragments)->0;
        assert(longer.drop_first() =~= Seq::empty());
        assert(selections_at(inner, fragments, longer.drop_first()) == Some(inner));
        if let Selection::FragmentSpread(spread) = reached {
            assert(fragments_on_path(start, fragments, longer)[0] == spread.fragment_name@);
        }
    } else {
        let inner = inner_selections(start[path[0]], fragments)->0;
        assert(longer.drop_first() =~= path.drop_first().push(j));
        lemma_path_goes_on(inner, fragments, path.drop_first(), j);
        if let Selection::FragmentSpread(spread) = reached {
            let below = fragments_on_path(inner, fragments, longer.drop_first());
            let all = fragments_on_path(start, fragments, longer);
            let k = choose|k: int| 0 <= k < below.len() && below[k] == spread.fragment_name@;
            if start[path[0]] is FragmentSpread {
                assert(all[k + 1] == spread.fragment_name@);
            } else {
                assert(all[k] == spread.fragment_name@);
            }
        }
    }
}

/// Each of the fragments in `entered`, first of its name, has a path to the selections.
spec fn all_lead_to(
    entered: Set<int>,
    items: Seq<Selection>,
    fragments: Seq<FragmentDefinition>,
) -> bool {
    forall|k: int| #[trigger]
        entered.contains(k) ==> {
            &&& 0 <= k < fragments.len()
            &&& first_named(fragments, fragments[k].name@) == Some(k)
            &&& exists|path: Seq<int>| #[trigger]
                selections_at(fragments[k].selection_set.items@, fragments, path) == Some(items)
        }
}

/// One step on from the selections, the entered fragments have a path there too.
proof fn lemma_all_lead_on(
    entered: Set<int>,
    items: Seq<Selection>,
    fragments: Seq<FragmentDefinition>,
    j: int,
)
    requires
        all_lead_to(entered, items, fragments),
        0 <= j < items.len(),
        inner_selections(items[j], fragments) is Some,
    ensures
        all_lead_to(entered, inner_selections(items[j], fragments)->0, fragments),
{
    let inner = inner_selections(items[j], fragments)->0;
    assert forall|k: int| #[trigger] entered.contains(k) implies {
        &&& 0 <= k < fragments.len()
        &&& first_named(fragments, fragments[k].name@) == Some(k)
        &&& exists|path: Seq<int>| #[trigger]
            selections_at(fragments[k].selection_set.items@, fragments, path) == Some(inner)
    } by {
        let start = fragments[k].selection_set.items@;
        let path = choose|path: Seq<int>| #[trigger]
            selections_at(start, fragments, path) == Some(items);
        lemma_path_goes_on(start, fragments, path, j);
        assert(selections_at(start, fragments, path.push(j)) == Some(inner));
    }
}

/// A set of indices below a bound has no more than so many.
proof fn lemma_indices_are_few(indices: Set<int>, bound: nat)
    requires
        forall|k: int| #[trigger] indices.contains(k) ==> 0 <= k < bound,
    ensures
        indices.finite(),
        indices.len() <= bound,
{
    let all = vstd::set_lib::set_int_range(0, bound as int);
    vstd::set_lib::lemma_int_range(0, bound as int);
    assert(indices.subset_of(all));
    vstd::set_lib::lemma_len_subset(indices, all);
}

/// The fuel with which the walk over the selections from the index on ends, where the walk
/// has come there through the fragments in `entered`.
proof fn lemma_walk_fuel_suffices(
    items: Seq<Selection>,
    from: int,
    fragments: Seq<FragmentDefinition>,
    depth: int,
    entered: Set<int>,
) -> (fuel: nat)
    requires
        acyclic(fragments),
        0 <= from <= items.len(),
        all_lead_to(entered, items, fragments),
    ensures
        depth_walk(items.skip(from), fragments, depth, fuel) is Some,
    decreases fragments.len() - entered.len(), items, items.len() - from,
{
    let left = items.skip(from);
    if left.len() == 0 {
        0
    } else {
        let below = depth + depth_added(items[from]);
        assert(left[0] == items[from]);
        assert(left.drop_first() =~= items.skip(from + 1));
        let inside: nat = match items[from] {
            Selection::Field(field) => {
                let inner = field.selection_set.items@;
                lemma_all_lead_on(entered, items, fragments, from);
                assert(inner.skip(0) =~= inner);
                lemma_walk_fuel_suffices(inner, 0, fragments, below, entered)
            },
            Selection::InlineFragment(inline) => {
                let inner = inline.selection_set.items@;
                lemma_all_lead_on(entered, items, fragments, from);
                assert(inner.skip(0) =~= inner);
                lemma_walk_fuel_suffices(inner, 0, fragments, below, entered)
            },
            Selection::FragmentSpread(spread) => {
                let name = spread.fragment_name@;
                lemma_first_named(fragments, name);
                match first_named(fragments, name) {
                    Some(k) => {
                        let inner = fragments[k].selection_set.items@;
                        if entered.contains(k) {
                            let path = choose|path: Seq<int>| #[trigger]
                                selections_at(inner, fragments, path) == Some(items);
                            lemma_path_goes_on(inner, fragments, path, from);
                            assert(leads_back(fragments, k, path.push(from)));
                            0
                        } else {
                            let more = entered.insert(k);
                            lemma_all_lead_on(entered, items, fragments, from);
                            assert(selections_at(inner, fragments, Seq::empty()) == Some(inner));
                            assert(all_lead_to(more, inner, fragments));
                            lemma_indices_are_few(entered, fragments.len());
                            lemma_indices_are_few(more, fragments.len());
                            assert(inner.skip(0) =~= inner);
                            lemma_walk_fuel_suffices(inner, 0, fragments, below, more)
                        }
                    },
                    None => 0,
                }
            },
        };
        let after = lemma_walk_fuel_suffices(items, from + 1, fragments, depth, entered);
        let fuel = if inside + 1 > after {
            inside + 1
        } else {
            after
        };
        if let Some(inner) = inner_selections(items[from], fragments) {
            lemma_walk_fuel(inner, fragments, below, inside, (fuel - 1) as nat);
        }
        lemma_walk_fuel(left.drop_first(), fragments, depth, after, fuel);
        fuel
    }
}

/// Wherever no fragment leads back into itself, the search for fields below the maximum depth
/// ends, however deeply the fragments nest.
pub proof fn law_acyclic_fragments_let_the_walk_end(
    items: Seq<Selection>,
    fragments: Seq<FragmentDefinition>,
    depth: int,
)
    requires
        acyclic(fragments),
    ensures
        walk_ends(items, fragments, depth),
{
    let fuel = lemma_walk_fuel_suffices(items, 0, fragments, depth, Set::empty());
    assert(items.skip(0) =~= items);
    assert(depth_walk(items, fragments, depth, fuel) is Some);
}

/// Sound fragments are acyclic.
pub proof fn law_sound_fragments_are_acyclic(fragments: Seq<FragmentDefinition>)
    requires
        sound_fragments(fragments),
    ensures
        acyclic(fragments),
{
    assert forall|i: int, path: Seq<int>| 0 <= i < fragments.len() implies !#[trigger] leads_back(
        fragments,
        i,
        path,
    ) by {
        law_sound_fragments_have_no_cycle(fragments, i, path);
    }
}

/// A search beyond the limit goes no further, and tells of the depth with the fragments open
/// as they are.
pub proof fn law_search_stops_at_the_limit(
    items: Seq<Selection>,
    fragment: FragmentDefinition,
    open: Set<Seq<char>>,
    fragments: Seq<FragmentDefinition>,
    depth: int,
)
    requires
        depth > STACK_DEPTH_LIMIT,
    ensures
        scan_items(items, open, fragments, depth) == (FragmentScan::Fault {
            fault: FragmentFault::TooDeep,
            open,
        }),
        scan_fragment(fragment, open, fragments, depth) == (FragmentScan::Fault {
            fault: FragmentFault::TooDeep,
            open,
        }),
{
}

/// Selections side by side are searched in turn: the first fault is told, and none is passed
/// over.
pub proof fn law_siblings_are_searched_in_turn(
    left: Seq<Selection>,
    right: Seq<Selection>,
    open: Set<Seq<char>>,
    fragments: Seq<FragmentDefinition>,
    depth: int,
)
    ensures
        scan_items(left, open, fragments, depth) is Clear ==> scan_items(
            left + right,
            open,
            fragments,
            depth,
        ) == scan_items(right, open, fragments, depth),
        scan_items(left, open, fragments, depth) is Fault ==> scan_items(
            left + right,
            open,
            fragments,
            depth,
        ) == scan_items(left, open, fragments, depth),
    decreases left.len(),
{
    if left.len() == 0 {
        assert(left + right =~= right);
    } else {
        assert((left + right).drop_first() =~= left.drop_first() + right);
        assert((left + right)[0] == left[0]);
        law_siblings_are_searched_in_turn(left.drop_first(), right, open, fragments, depth);
    }
}

/// Within the limit no selections hold no fault, and the search in a field or an inline
/// fragment is that in its selections, one level on.
pub proof fn law_search_goes_one_level_on(
    field: Field,
    inline: InlineFragment,
    open: Set<Seq<char>>,
    fragments: Seq<FragmentDefinition>,
    depth: int,
)
    requires
        depth <= STACK_DEPTH_LIMIT,
    ensures
        scan_items(Seq::empty(), open, fragments, depth) is Clear,
        scan_items(seq![Selection::Field(field)], open, fragments, depth) == scan_items(
            field.selection_set.items@,
            open,
            fragments,
            depth + 1,
        ),
        scan_items(seq![Selection::InlineFragment(inline)], open, fragments, depth) == scan_items(
            inline.selection_set.items@,
            open,
            fragments,
            depth + 1,
        ),
{
    reveal_with_fuel(scan_items, 3);
    assert(seq![Selection::Field(field)].drop_first() =~= Seq::empty());
    assert(seq![Selection::InlineFragment(inline)].drop_first() =~= Seq::empty());
    assert(scan_items(Seq::empty(), open, fragments, depth) is Clear);
}

/// Within the limit the search in a spread is that in the first fragment that is written with
/// its name, one level on.
pub proof fn law_spread_is_searched_as_its_fragment(
    spread: FragmentSpread,
    i: int,
    open: Set<Seq<char>>,
    fragments: Seq<FragmentDefinition>,
    depth: int,
)
    requires
        depth <= STACK_DEPTH_LIMIT,
        0 <= i < fragments.len(),
        fragments[i].name@ == spread.fragment_name@,
        forall|j: int| 0 <= j < i ==> #[trigger] fragments[j].name@ != spread.fragment_name@,
    ensures
        scan_items(seq![Selection::FragmentSpread(spread)], open, fragments, depth)
            == scan_fragment(fragments[i], open, fragments, depth + 1),
{
    lemma_first_named(fragments, spread.fragment_name@);
    let k = first_named(fragments, spread.fragment_name@)->0;
    if k < i {
        assert(fragments[k].name@ != spread.fragment_name@);
    }
    reveal_with_fuel(scan_items, 3);
    assert(seq![Selection::FragmentSpread(spread)].drop_first() =~= Seq::empty());
    assert(scan_items(Seq::empty(), open, fragments, depth) is Clear);
}

/// A spread of a fragment that is not written anywhere holds no fault.
pub proof fn law_undefined_spread_is_clear(
    spread: FragmentSpread,
    open: Set<Seq<char>>,
    fragments: Seq<FragmentDefinition>,
    depth: int,
)
    requires
        depth <= STACK_DEPTH_LIMIT,
        forall|j: int|
            0 <= j < fragments.len() ==> #[trigger] fragments[j].name@ != spread.fragment_name@,
    ensures
        scan_items(seq![Selection::FragmentSpread(spread)], open, fragments, depth) is Clear,
{
    lemma_first_named(fragments, spread.fragment_name@);
    reveal_with_fuel(scan_items, 2);
    assert(seq![Selection::FragmentSpread(spread)].drop_first() =~= Seq::empty());
}

/// Within the limit a fragment that is already open is a cycle, and any other is searched with
/// its name open, one level on.
pub proof fn law_open_fragment_is_a_cycle(
    fragment: FragmentDefinition,
    open: Set<Seq<char>>,
    fragments: Seq<FragmentDefinition>,
    depth: int,
)
    requires
        depth <= STACK_DEPTH_LIMIT,
    ensures
        open.contains(fragment.name@) ==> scan_fragment(fragment, open, fragments, depth) == (
        FragmentScan::Fault { fault: FragmentFault::Cycle, open }),
        !open.contains(fragment.name@) ==> scan_fragment(fragment, open, fragments, depth)
            == scan_items(
            fragment.selection_set.items@,
            open.insert(fragment.name@),
            fragments,
            depth + 1,
        ),
{
}

/// A search is reported by its fault: nothing is said of a clear one, which leaves the open
/// fragments as they were, and each fault has its own message.
pub proof fn law_search_is_reported(
    scan: FragmentScan,
    before: Set<Seq<char>>,
    after: Set<Seq<char>>,
    r: GraphQLResult<()>,
)
    requires
        reported(scan, before, after, r),
    ensures
        r is Ok <==> scan is Clear,
        r is Ok ==> after == before,
        scan matches FragmentScan::Fault { fault: FragmentFault::Cycle, open } ==> {
            &&& r matches Err(GraphQLError::Validation { message })
            &&& message@ == "Found a cycle between fragments"@
            &&& after == open
        },
        scan matches FragmentScan::Fault { fault: FragmentFault::TooDeep, open } ==> {
            &&& r matches Err(GraphQLError::Validation { message })
            &&& message@ == "Fragment cycle depth is greater than 50"@
            &&& after == open
        },
{
}

/// Selections side by side are sound where each of them is.
pub proof fn law_siblings_are_sound_apart(
    left: Seq<Selection>,
    right: Seq<Selection>,
    open: Set<Seq<char>>,
    fragments: Seq<FragmentDefinition>,
    limit: int,
)
    ensures
        sound_items(left + right, open, fragments, limit) <==> sound_items(
            left,
            open,
            fragments,
            limit,
        ) && sound_items(right, open, fragments, limit),
{
    let depth = STACK_DEPTH_LIMIT - limit;
    lemma_scan_exact(left, open, fragments, depth);
    lemma_scan_exact(right, open, fragments, depth);
    lemma_scan_exact(left + right, open, fragments, depth);
    law_siblings_are_searched_in_turn(left, right, open, fragments, depth);
}

/// Without selections there is nothing but the limit to meet. A field and an inline fragment
/// are as sound as their selections within one level less.
pub proof fn law_selection_is_as_sound_as_what_it_holds(
    field: Field,
    inline: InlineFragment,
    open: Set<Seq<char>>,
    fragments: Seq<FragmentDefinition>,
    limit: int,
)
    ensures
        sound_items(Seq::empty(), open, fragments, limit) <==> limit >= 0,
        sound_items(seq![Selection::Field(field)], open, fragments, limit) <==> sound_items(
            field.selection_set.items@,
            open,
            fragments,
            limit - 1,
        ),
        sound_items(seq![Selection::InlineFragment(inline)], open, fragments, limit)
            <==> sound_items(inline.selection_set.items@, open, fragments, limit - 1),
{
    let depth = STACK_DEPTH_LIMIT - limit;
    lemma_scan_exact(Seq::empty(), open, fragments, depth);
    lemma_scan_exact(seq![Selection::Field(field)], open, fragments, depth);
    lemma_scan_exact(seq![Selection::InlineFragment(inline)], open, fragments, depth);
    lemma_scan_exact(field.selection_set.items@, open, fragments, depth + 1);
    lemma_scan_exact(inline.selection_set.items@, open, fragments, depth + 1);
    if limit >= 0 {
        law_search_goes_one_level_on(field, inline, open, fragments, depth);
    }
}

/// A spread is sound where the first fragment that is written with its name is not open, and
/// its selections are sound within two levels less with the name open.
pub proof fn law_spread_is_as_sound_as_its_fragment(
    spread: FragmentSpread,
    i: int,
    open: Set<Seq<char>>,
    fragments: Seq<FragmentDefinition>,
    limit: int,
)
    requires
        0 <= i < fragments.len(),
        fragments[i].name@ == spread.fragment_name@,
        forall|j: int| 0 <= j < i ==> #[trigger] fragments[j].name@ != spread.fragment_name@,
    ensures
        sound_items(seq![Selection::FragmentSpread(spread)], open, fragments, limit)
            <==> !open.contains(fragments[i].name@) && sound_items(
            fragments[i].selection_set.items@,
            open.insert(fragments[i].name@),
            fragments,
            limit - 2,
        ),
        sound_items(seq![Selection::FragmentSpread(spread)], open, fragments, limit)
            <==> sound_fragment(fragments[i], open, fragments, STACK_DEPTH_LIMIT - limit + 1),
{
    let depth = STACK_DEPTH_LIMIT - limit;
    let name = fragments[i].name@;
    let items = fragments[i].selection_set.items@;
    lemma_scan_exact(seq![Selection::FragmentSpread(spread)], open, fragments, depth);
    lemma_scan_exact(items, open.insert(name), fragments, depth + 2);
    lemma_scan_fragment_exact(fragments[i], open, fragments, depth + 1);
    if depth <= STACK_DEPTH_LIMIT {
        law_spread_is_searched_as_its_fragment(spread, i, open, fragments, depth);
        if depth < STACK_DEPTH_LIMIT {
            law_open_fragment_is_a_cycle(fragments[i], open, fragments, depth + 1);
        }
    }
}

/// A spread of a fragment that is not written anywhere is sound within any limit.
pub proof fn law_undefined_spread_is_sound(
    spread: FragmentSpread,
    open: Set<Seq<char>>,
    fragments: Seq<FragmentDefinition>,
    limit: int,
)
    requires
        forall|j: int|
            0 <= j < fragments.len() ==> #[trigger] fragments[j].name@ != spread.fragment_name@,
    ensures
        sound_items(seq![Selection::FragmentSpread(spread)], open, fragments, limit)
            <==> limit >= 0,
{
    let depth = STACK_DEPTH_LIMIT - limit;
    lemma_scan_exact(seq![Selection::FragmentSpread(spread)], open, fragments, depth);
    if limit >= 0 {
        law_undefined_spread_is_clear(spread, open, fragments, depth);
    }
}

/// The fragments of a document are sound where each of them, with no other around it, is:
/// nothing in it nests more than 48 levels, comes back to its name, or enters a fragment twice.
pub proof fn law_each_fragment_is_searched_alone(fragments: Seq<FragmentDefinition>)
    ensures
        sound_fragments(fragments) <==> forall|i: int|
            0 <= i < fragments.len() ==> #[trigger] sound_items(
                fragments[i].selection_set.items@,
                Set::empty().insert(fragments[i].name@),
                fragments,
                48,
            ),
{
    if sound_fragments(fragments) {
        assert forall|i: int| 0 <= i < fragments.len() implies #[trigger] sound_items(
            fragments[i].selection_set.items@,
            Set::empty().insert(fragments[i].name@),
            fragments,
            48,
        ) by {
            assert(sound_fragment(fragments[i], Set::empty(), fragments, 1));
        }
    } else {
        let i = choose|i: int|
            0 <= i < fragments.len() && !#[trigger] sound_fragment(
                fragments[i],
                Set::empty(),
                fragments,
                1,
            );
        assert(!sound_items(
            fragments[i].selection_set.items@,
            Set::empty().insert(fragments[i].name@),
            fragments,
            48,
        ));
    }
}

/// How a path goes through a spread: it nests two levels more than from the selections of the
/// first fragment that is written with the name, and enters that name before what it enters
/// from there.
pub proof fn law_path_enters_what_it_spreads(
    items: Seq<Selection>,
    fragments: Seq<FragmentDefinition>,
    path: Seq<int>,
    spread: FragmentSpread,
    i: int,
)
    requires
        path.len() > 0,
        0 <= path[0] < items.len(),
        items[path[0]] == Selection::FragmentSpread(spread),
        0 <= i < fragments.len(),
        fragments[i].name@ == spread.fragment_name@,
        forall|j: int| 0 <= j < i ==> #[trigger] fragments[j].name@ != spread.fragment_name@,
    ensures
        levels_on_path(items, fragments, path) == 2 + levels_on_path(
            fragments[i].selection_set.items@,
            fragments,
            path.drop_first(),
        ),
        fragments_on_path(items, fragments, path) == seq![spread.fragment_name@]
            + fragments_on_path(fragments[i].selection_set.items@, fragments, path.drop_first()),
{
    lemma_first_named(fragments, spread.fragment_name@);
    let k = first_named(fragments, spread.fragment_name@)->0;
    if k < i {
        assert(fragments[k].name@ != spread.fragment_name@);
    }
}

/// How a path goes through a field: it nests one level more than from the field's selections,
/// and enters the same fragments. An inline fragment is no different.
pub proof fn law_path_goes_through_selections(
    items: Seq<Selection>,
    fragments: Seq<FragmentDefinition>,
    path: Seq<int>,
)
    requires
        path.len() > 0,
        0 <= path[0] < items.len(),
    ensures
        items[path[0]] matches Selection::Field(field) ==> {
            &&& levels_on_path(items, fragments, path) == 1 + levels_on_path(
                field.selection_set.items@,
                fragments,
                path.drop_first(),
            )
            &&& fragments_on_path(items, fragments, path) == fragments_on_path(
                field.selection_set.items@,
                fragments,
                path.drop_first(),
            )
        },
        items[path[0]] matches Selection::InlineFragment(inline) ==> {
            &&& levels_on_path(items, fragments, path) == 1 + levels_on_path(
                inline.selection_set.items@,
                fragments,
                path.drop_first(),
            )
            &&& fragments_on_path(items, fragments, path) == fragments_on_path(
                inline.selection_set.items@,
                fragments,
                path.drop_first(),
            )
        },
{
}

} // verus!
