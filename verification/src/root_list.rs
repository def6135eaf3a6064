//! Patches of the root list of a response.
//!
//! The list of a response is made from the last one where its items are known to be the same.
use vstd::prelude::*;

use crate::gql_payload::GraphqlRootListPatch;

verus! {

/// Where an item of a list comes from.
#[derive(Clone, Copy, Debug, PartialEq, Eq, Structural)]
pub enum ListSlot {
    /// An item of the last list.
    Kept(usize),
    /// An item of the new list.
    Fresh(usize),
    /// No item.
    Hole,
}

/// Runs of consecutive positions, each given by its start and length.
pub open spec fn runs(positions: Seq<usize>) -> Seq<(usize, usize)>
    decreases positions.len(),
{
    if positions.len() == 0 {
        Seq::empty()
    } else {
        let before = runs(positions.drop_last());
        let position = positions.last();
        if before.len() > 0 && before.last().0 + before.last().1 == position {
            before.update(before.len() - 1, (before.last().0, (before.last().1 + 1) as usize))
        } else {
            before.push((position, 1))
        }
    }
}

/// Positions below the largest length of a list.
pub open spec fn in_range(positions: Seq<usize>) -> bool {
    forall|i: int| 0 <= i < positions.len() ==> #[trigger] positions[i] < usize::MAX
}

/// Where a position goes in a sorted list.
pub open spec fn sorted_place(sorted: Seq<usize>, position: usize) -> int
    decreases sorted.len(),
{
    if sorted.len() == 0 || position < sorted[0] {
        0
    } else {
        1 + sorted_place(sorted.skip(1), position)
    }
}

/// Positions in ascending order.
pub open spec fn in_order(positions: Seq<usize>) -> Seq<usize>
    decreases positions.len(),
{
    if positions.len() == 0 {
        Seq::empty()
    } else {
        let sorted = in_order(positions.drop_last());
        sorted.insert(sorted_place(sorted, positions.last()), positions.last())
    }
}

proof fn lemma_sorted_place(sorted: Seq<usize>, position: usize)
    ensures
        0 <= sorted_place(sorted, position) <= sorted.len(),
    decreases sorted.len(),
{
    if sorted.len() > 0 && position >= sorted[0] {
        lemma_sorted_place(sorted.skip(1), position);
    }
}

/// No position of a list comes before a smaller one.
pub open spec fn ascending(positions: Seq<usize>) -> bool {
    forall|i: int, j: int|
        0 <= i <= j < positions.len() ==> #[trigger] positions[i] <= #[trigger] positions[j]
}

proof fn lemma_place_splits(sorted: Seq<usize>, position: usize)
    requires
        ascending(sorted),
    ensures
        0 <= sorted_place(sorted, position) <= sorted.len(),
        forall|i: int|
            0 <= i < sorted_place(sorted, position) ==> #[trigger] sorted[i] <= position,
        forall|i: int|
            sorted_place(sorted, position) <= i < sorted.len() ==> position < #[trigger] sorted[i],
    decreases sorted.len(),
{
    if sorted.len() > 0 && position >= sorted[0] {
        let rest = sorted.skip(1);
        assert(ascending(rest)) by {
            assert forall|i: int, j: int| 0 <= i <= j < rest.len() implies #[trigger] rest[i]
                <= #[trigger] rest[j] by {
                assert(rest[i] == sorted[i + 1] && rest[j] == sorted[j + 1]);
            }
        }
        lemma_place_splits(rest, position);
        assert forall|i: int| 0 <= i < sorted_place(sorted, position) implies #[trigger] sorted[i]
            <= position by {
            if i > 0 {
                assert(rest[i - 1] == sorted[i]);
            }
        }
        assert forall|i: int|
            sorted_place(sorted, position) <= i < sorted.len() implies position
            < #[trigger] sorted[i] by {
            assert(rest[i - 1] == sorted[i]);
        }
    }
}

/// Positions in order are the same positions, and ascend.
pub proof fn law_positions_are_sorted(positions: Seq<usize>)
    ensures
        ascending(in_order(positions)),
        in_order(positions).to_multiset() == positions.to_multiset(),
    decreases positions.len(),
{
    broadcast use vstd::seq_lib::group_to_multiset_ensures;

    if positions.len() > 0 {
        let shorter = positions.drop_last();
        law_positions_are_sorted(shorter);
        let sorted = in_order(shorter);
        let at = sorted_place(sorted, positions.last());
        lemma_place_splits(sorted, positions.last());
        let longer = sorted.insert(at, positions.last());
        assert forall|i: int, j: int| 0 <= i <= j < longer.len() implies #[trigger] longer[i]
            <= #[trigger] longer[j] by {
            if i < at {
                assert(longer[i] == sorted[i]);
            } else if i > at {
                assert(longer[i] == sorted[i - 1]);
            }
            if j < at {
                assert(longer[j] == sorted[j]);
            } else if j > at {
                assert(longer[j] == sorted[j - 1]);
            }
        }
        vstd::seq_lib::to_multiset_insert(sorted, at, positions.last());
        assert(positions =~= shorter.push(positions.last()));
    } else {
        assert(in_order(positions) =~= positions);
    }
}

proof fn lemma_in_order(positions: Seq<usize>)
    requires
        in_range(positions),
    ensures
        in_range(in_order(positions)),
        in_order(positions).len() == positions.len(),
    decreases positions.len(),
{
    if positions.len() > 0 {
        let shorter = positions.drop_last();
        assert(in_range(shorter)) by {
            assert forall|i: int| 0 <= i < shorter.len() implies #[trigger] shorter[i]
                < usize::MAX by {
                assert(shorter[i] == positions[i]);
            }
        }
        lemma_in_order(shorter);
        let sorted = in_order(shorter);
        let at = sorted_place(sorted, positions.last());
        lemma_sorted_place(sorted, positions.last());
        let longer = sorted.insert(at, positions.last());
        assert forall|i: int| 0 <= i < longer.len() implies #[trigger] longer[i] < usize::MAX by {
            if i < at {
                assert(longer[i] == sorted[i]);
            } else if i > at {
                assert(longer[i] == sorted[i - 1]);
            } else {
                assert(positions[positions.len() - 1] == longer[i]);
            }
        }
    }
}

proof fn lemma_runs_bounds(positions: Seq<usize>)
    requires
        in_range(positions),
    ensures
        forall|i: int|
            0 <= i < runs(positions).len() ==> (#[trigger] runs(positions)[i]).1 > 0 && runs(
                positions,
            )[i].0 + runs(positions)[i].1 <= usize::MAX,
        positions.len() > 0 ==> runs(positions).len() > 0 && runs(positions).last().0 + runs(
            positions,
        ).last().1 == positions.last() + 1,
    decreases positions.len(),
{
    if positions.len() > 0 {
        let shorter = positions.drop_last();
        assert(in_range(shorter)) by {
            assert forall|i: int| 0 <= i < shorter.len() implies #[trigger] shorter[i]
                < usize::MAX by {
                assert(shorter[i] == positions[i]);
            }
        }
        lemma_runs_bounds(shorter);
        assert(positions[positions.len() - 1] == positions.last());
        let before = runs(shorter);
        let after = runs(positions);
        assert forall|i: int| 0 <= i < after.len() implies (#[trigger] after[i]).1 > 0 && after[i].0
            + after[i].1 <= usize::MAX by {
            if i < before.len() {
                assert(before[i].1 > 0);
            }
        }
    }
}

/// Groups consecutive positions.
fn group_runs(positions: &[usize]) -> (groups: Vec<(usize, usize)>)
    requires
        in_range(positions@),
    ensures
        groups@ == runs(positions@),
{
    let mut groups: Vec<(usize, usize)> = Vec::new();
    let mut i: usize = 0;
    assert(positions@.take(0) =~= Seq::empty());
    while i < positions.len()
        invariant
            i <= positions.len(),
            in_range(positions@),
            groups@ == runs(positions@.take(i as int)),
        decreases positions.len() - i,
    {
        let ghost shorter = positions@.take(i as int);
        proof {
            assert(positions@.take(i + 1).drop_last() =~= shorter);
            assert(positions@.take(i + 1).last() == positions@[i as int]);
            assert(in_range(shorter)) by {
                assert forall|j: int| 0 <= j < shorter.len() implies #[trigger] shorter[j]
                    < usize::MAX by {
                    assert(shorter[j] == positions@[j]);
                }
            }
            lemma_runs_bounds(shorter);
        }
        let position = positions[i];
        let count = groups.len();
        if count > 0 {
            let last = groups[count - 1];
            assert(last == runs(shorter)[count - 1]);
            if last.0 + last.1 == position {
                groups.set(count - 1, (last.0, last.1 + 1));
            } else {
                groups.push((position, 1));
            }
        } else {
            groups.push((position, 1));
        }
        i += 1;
    }
    assert(positions@.take(positions@.len() as int) =~= positions@);
    groups
}

fn sort_positions(positions: &[usize]) -> (sorted: Vec<usize>)
    ensures
        sorted@ == in_order(positions@),
{
    let mut sorted: Vec<usize> = Vec::new();
    let mut i: usize = 0;
    assert(positions@.take(0) =~= Seq::empty());
    while i < positions.len()
        invariant
            i <= positions.len(),
            sorted@ == in_order(positions@.take(i as int)),
        decreases positions.len() - i,
    {
        let position = positions[i];
        let ghost before = sorted@;
        assert(positions@.take(i + 1).drop_last() =~= positions@.take(i as int));
        assert(positions@.take(i + 1).last() == position);
        let mut at: usize = 0;
        assert(before.skip(0) =~= before);
        while at < sorted.len() && sorted[at] <= position
            invariant
                at <= sorted.len(),
                before == sorted@,
                sorted_place(before, position) == at + sorted_place(
                    before.skip(at as int),
                    position,
                ),
            decreases sorted.len() - at,
        {
            assert(before.skip(at as int)[0] == before[at as int]);
            assert(before.skip(at as int).skip(1) =~= before.skip(at + 1));
            at += 1;
        }
        assert(at < before.len() ==> before.skip(at as int)[0] == before[at as int]);
        sorted.insert(at, position);
        i += 1;
    }
    assert(positions@.take(positions@.len() as int) =~= positions@);
    sorted
}

/// Groups the positions that are removed: runs of consecutive positions, each given by its start
/// and length, the last one first.
pub fn contiguous_remove_groups(removed_positions: &[usize]) -> (groups: Vec<(usize, usize)>)
    requires
        in_range(removed_positions@),
    ensures
        groups@ == runs(in_order(removed_positions@)).reverse(),
{
    let sorted = sort_positions(removed_positions);
    proof {
        lemma_in_order(removed_positions@);
    }
    let ascending = group_runs(sorted.as_slice());
    let mut groups: Vec<(usize, usize)> = Vec::new();
    let mut i: usize = ascending.len();
    while i > 0
        invariant
            i <= ascending.len(),
            groups.len() == ascending.len() - i,
            forall|j: int|
                0 <= j < groups.len() ==> groups@[j] == ascending@[ascending.len() - 1 - j],
        decreases i,
    {
        i -= 1;
        groups.push(ascending[i]);
    }
    assert(groups@ =~= ascending@.reverse());
    groups
}

/// Groups the positions that are inserted: runs of consecutive positions, each given by its start
/// and end.
pub fn contiguous_insert_groups(inserted_positions: &[usize]) -> (groups: Vec<(usize, usize)>)
    requires
        in_range(inserted_positions@),
    ensures
        groups@ == runs(inserted_positions@).map_values(
            |run: (usize, usize)| (run.0, (run.0 + run.1) as usize),
        ),
{
    let found = group_runs(inserted_positions);
    proof {
        lemma_runs_bounds(inserted_positions@);
    }
    let mut groups: Vec<(usize, usize)> = Vec::new();
    let mut i: usize = 0;
    while i < found.len()
        invariant
            i <= found.len(),
            groups.len() == i,
            found@ == runs(inserted_positions@),
            forall|j: int|
                0 <= j < found@.len() ==> (#[trigger] found@[j]).0 + found@[j].1 <= usize::MAX,
            forall|j: int|
                0 <= j < i ==> groups@[j] == (found@[j].0, (found@[j].0 + found@[j].1) as usize),
        decreases found.len() - i,
    {
        groups.push((found[i].0, found[i].0 + found[i].1));
        i += 1;
    }
    assert(groups@ =~= runs(inserted_positions@).map_values(
        |run: (usize, usize)| (run.0, (run.0 + run.1) as usize),
    ));
    groups
}

/// A number, or a bound that it does not reach.
pub open spec fn bounded(number: int, bound: int) -> int {
    if number < bound {
        number
    } else {
        bound
    }
}

/// A list without the items of a run, as far as the list reaches.
pub open spec fn cut(list: Seq<ListSlot>, start: int, count: int) -> Seq<ListSlot> {
    let from = bounded(start, list.len() as int);
    let to = bounded(start + count, list.len() as int);
    list.take(from) + list.skip(to)
}

/// A list without the items of runs, of which the last one is cut first.
pub open spec fn cut_runs(list: Seq<ListSlot>, groups: Seq<(usize, usize)>) -> Seq<ListSlot>
    decreases groups.len(),
{
    if groups.len() == 0 {
        list
    } else {
        cut_runs(
            cut(list, groups.last().0 as int, groups.last().1 as int),
            groups.drop_last(),
        )
    }
}

/// The new items of a run, as far as the new list reaches.
pub open spec fn fresh_run(start: int, count: int, next_len: int) -> Seq<ListSlot> {
    let to = bounded(start + count, next_len);
    if start < to {
        Seq::new((to - start) as nat, |i: int| ListSlot::Fresh((start + i) as usize))
    } else {
        Seq::empty()
    }
}

/// A list with items inserted at a position, or at its end.
pub open spec fn spliced(list: Seq<ListSlot>, start: int, items: Seq<ListSlot>) -> Seq<ListSlot> {
    let at = bounded(start, list.len() as int);
    list.take(at) + items + list.skip(at)
}

/// A list with the new items of runs, of which the first one is inserted first.
pub open spec fn with_runs(
    list: Seq<ListSlot>,
    groups: Seq<(usize, usize)>,
    next_len: int,
) -> Seq<ListSlot>
    decreases groups.len(),
{
    if groups.len() == 0 {
        list
    } else {
        let run = groups.last();
        spliced(
            with_runs(list, groups.drop_last(), next_len),
            run.0 as int,
            fresh_run(run.0 as int, run.1 as int, next_len),
        )
    }
}

/// A list with a new item at a position. A list that is too short is filled up.
pub open spec fn with_item(list: Seq<ListSlot>, position: usize) -> Seq<ListSlot> {
    if position < list.len() {
        list.update(position as int, ListSlot::Fresh(position))
    } else {
        (list + Seq::new((position - list.len()) as nat, |i: int| ListSlot::Hole)).push(
            ListSlot::Fresh(position),
        )
    }
}

/// A list with new items at positions of the new list.
pub open spec fn with_items(list: Seq<ListSlot>, positions: Seq<usize>, next_len: int) -> Seq<
    ListSlot,
>
    decreases positions.len(),
{
    if positions.len() == 0 {
        list
    } else {
        let before = with_items(list, positions.drop_last(), next_len);
        if positions.last() < next_len {
            with_item(before, positions.last())
        } else {
            before
        }
    }
}

/// The items of the last list.
pub open spec fn all_kept(len: int) -> Seq<ListSlot> {
    Seq::new(len as nat, |i: int| ListSlot::Kept(i as usize))
}

/// The items of the new list.
pub open spec fn all_fresh(len: int) -> Seq<ListSlot> {
    Seq::new(len as nat, |i: int| ListSlot::Fresh(i as usize))
}

/// Where the items of the new list come from. Without a last list, or without a patch that fits
/// it, all of them are new.
pub open spec fn slots_of(
    previous_len: Option<usize>,
    next_len: usize,
    patch: Option<GraphqlRootListPatch>,
) -> Seq<ListSlot> {
    match (previous_len, patch) {
        (Some(previous), Some(GraphqlRootListPatch::StablePositions(positions))) => if previous
            == next_len {
            with_items(all_kept(previous as int), positions@, next_len as int)
        } else {
            all_fresh(next_len as int)
        },
        (
            Some(previous),
            Some(
                GraphqlRootListPatch::Splice {
                    removed_positions,
                    inserted_positions,
                    updated_positions,
                },
            ),
        ) => with_items(
            with_runs(
                cut_runs(all_kept(previous as int), runs(in_order(removed_positions@))),
                runs(inserted_positions@),
                next_len as int,
            ),
            updated_positions@,
            next_len as int,
        ),
        _ => all_fresh(next_len as int),
    }
}

/// The positions of a patch are below the largest length of a list.
pub open spec fn patch_in_range(patch: GraphqlRootListPatch) -> bool {
    match patch {
        GraphqlRootListPatch::StablePositions(positions) => in_range(positions@),
        GraphqlRootListPatch::Splice {
            removed_positions,
            inserted_positions,
            updated_positions,
        } => in_range(removed_positions@) && in_range(inserted_positions@) && in_range(
            updated_positions@,
        ),
    }
}

fn kept_slots(len: usize) -> (slots: Vec<ListSlot>)
    ensures
        slots@ == all_kept(len as int),
{
    let mut slots: Vec<ListSlot> = Vec::new();
    while slots.len() < len
        invariant
            slots.len() <= len,
            forall|j: int| 0 <= j < slots.len() ==> slots@[j] == ListSlot::Kept(j as usize),
        decreases len - slots.len(),
    {
        slots.push(ListSlot::Kept(slots.len()));
    }
    assert(slots@ =~= all_kept(len as int));
    slots
}

fn fresh_slots(start: usize, end: usize) -> (slots: Vec<ListSlot>)
    requires
        start <= end,
    ensures
        slots@ == Seq::new((end - start) as nat, |i: int| ListSlot::Fresh((start + i) as usize)),
{
    let mut slots: Vec<ListSlot> = Vec::new();
    let mut position: usize = start;
    while position < end
        invariant
            start <= position <= end,
            slots.len() == position - start,
            forall|j: int|
                0 <= j < slots.len() ==> slots@[j] == ListSlot::Fresh((start + j) as usize),
        decreases end - position,
    {
        slots.push(ListSlot::Fresh(position));
        position += 1;
    }
    assert(slots@ =~= Seq::new(
        (end - start) as nat,
        |i: int| ListSlot::Fresh((start + i) as usize),
    ));
    slots
}

fn copy_slots(list: &[ListSlot], from: usize, to: usize, result: &mut Vec<ListSlot>)
    requires
        from <= to <= list.len(),
    ensures
        final(result)@ == old(result)@ + list@.subrange(from as int, to as int),
{
    let ghost start = result@;
    let mut i: usize = from;
    assert(start + list@.subrange(from as int, from as int) =~= start);
    while i < to
        invariant
            from <= i <= to <= list.len(),
            result@ == start + list@.subrange(from as int, i as int),
        decreases to - i,
    {
        result.push(list[i]);
        assert(start + list@.subrange(from as int, i + 1) =~= (start + list@.subrange(
            from as int,
            i as int,
        )).push(list@[i as int]));
        i += 1;
    }
}

/// Puts items at a position of a list in place of a run of it.
fn splice_slots(list: &Vec<ListSlot>, start: usize, count: usize, items: &Vec<ListSlot>) -> (result:
    Vec<ListSlot>)
    requires
        start + count <= usize::MAX,
    ensures
        result@ == list@.take(bounded(start as int, list@.len() as int)) + items@ + list@.skip(
            bounded(start + count, list@.len() as int),
        ),
{
    let from: usize = if start < list.len() {
        start
    } else {
        list.len()
    };
    let to: usize = if start + count < list.len() {
        start + count
    } else {
        list.len()
    };
    let mut result: Vec<ListSlot> = Vec::new();
    copy_slots(list.as_slice(), 0, from, &mut result);
    copy_slots(items.as_slice(), 0, items.len(), &mut result);
    copy_slots(list.as_slice(), to, list.len(), &mut result);
    assert(items@.subrange(0, items@.len() as int) =~= items@);
    assert(result@ =~= list@.take(bounded(start as int, list@.len() as int)) + items@ + list@.skip(
        bounded(start + count, list@.len() as int),
    ));
    result
}

fn put_items(list: Vec<ListSlot>, positions: &[usize], next_len: usize) -> (result: Vec<ListSlot>)
    ensures
        result@ == with_items(list@, positions@, next_len as int),
{
    let ghost start = list@;
    let mut result = list;
    let mut i: usize = 0;
    assert(positions@.take(0) =~= Seq::empty());
    while i < positions.len()
        invariant
            i <= positions.len(),
            result@ == with_items(start, positions@.take(i as int), next_len as int),
        decreases positions.len() - i,
    {
        let ghost before = result@;
        assert(positions@.take(i + 1).drop_last() =~= positions@.take(i as int));
        assert(positions@.take(i + 1).last() == positions@[i as int]);
        let position = positions[i];
        if position < next_len {
            if position < result.len() {
                result.set(position, ListSlot::Fresh(position));
            } else {
                let ghost len = before.len();
                assert(before =~= before + Seq::new(0, |i: int| ListSlot::Hole));
                while result.len() < position
                    invariant
                        before.len() == len,
                        len <= result.len() <= position,
                        result@ == before + Seq::new(
                            (result.len() - len) as nat,
                            |i: int| ListSlot::Hole,
                        ),
                    decreases position - result.len(),
                {
                    let ghost count = result@.len();
                    result.push(ListSlot::Hole);
                    assert(result@ =~= before + Seq::new(
                        (count + 1 - len) as nat,
                        |i: int| ListSlot::Hole,
                    ));
                }
                result.push(ListSlot::Fresh(position));
            }
            assert(result@ =~= with_item(before, position));
        }
        i += 1;
    }
    assert(positions@.take(positions@.len() as int) =~= positions@);
    result
}

/// Tells where the items of a new root list come from. `previous_len` is the length of the last
/// list that is at hand.
pub fn root_list_slots(
    previous_len: Option<usize>,
    next_len: usize,
    patch: Option<&GraphqlRootListPatch>,
) -> (slots: Vec<ListSlot>)
    requires
        patch matches Some(patch) ==> patch_in_range(*patch),
    ensures
        slots@ == slots_of(
            previous_len,
            next_len,
            match patch {
                Some(patch) => Some(*patch),
                None => None,
            },
        ),
{
    match (previous_len, patch) {
        (Some(previous), Some(GraphqlRootListPatch::StablePositions(positions))) => {
            if previous == next_len {
                return put_items(kept_slots(previous), positions.as_slice(), next_len);
            }
        },
        (
            Some(previous),
            Some(
                GraphqlRootListPatch::Splice {
                    removed_positions,
                    inserted_positions,
                    updated_positions,
                },
            ),
        ) => {
            let mut list = kept_slots(previous);
            let removals = contiguous_remove_groups(removed_positions.as_slice());
            let ghost removed_runs = runs(in_order(removed_positions@));
            proof {
                lemma_in_order(removed_positions@);
                lemma_runs_bounds(in_order(removed_positions@));
                lemma_runs_bounds(inserted_positions@);
            }
            let none: Vec<ListSlot> = Vec::new();
            let mut i: usize = 0;
            assert(removed_runs.take(removed_runs.len() as int) =~= removed_runs);
            while i < removals.len()
                invariant
                    i <= removals.len(),
                    none@.len() == 0,
                    removals@ == removed_runs.reverse(),
                    forall|j: int|
                        0 <= j < removed_runs.len() ==> (#[trigger] removed_runs[j]).0
                            + removed_runs[j].1 <= usize::MAX,
                    cut_runs(list@, removed_runs.take(removed_runs.len() - i)) == cut_runs(
                        all_kept(previous as int),
                        removed_runs,
                    ),
                decreases removals.len() - i,
            {
                let ghost rest = removed_runs.take(removed_runs.len() - i);
                let ghost before = list@;
                assert(removals@[i as int] == removed_runs[removed_runs.len() - 1 - i]);
                assert(rest.last() == removed_runs[removed_runs.len() - 1 - i]);
                assert(rest.drop_last() =~= removed_runs.take(removed_runs.len() - i - 1));
                let run = removals[i];
                list = splice_slots(&list, run.0, run.1, &none);
                assert(list@ =~= cut(before, run.0 as int, run.1 as int));
                i += 1;
            }
            let insertions = contiguous_insert_groups(inserted_positions.as_slice());
            let ghost inserted_runs = runs(inserted_positions@);
            let ghost shortened = list@;
            let mut k: usize = 0;
            assert(inserted_runs.take(0) =~= Seq::empty());
            while k < insertions.len()
                invariant
                    k <= insertions.len(),
                    insertions@.len() == inserted_runs.len(),
                    forall|j: int|
                        0 <= j < inserted_runs.len() ==> (#[trigger] inserted_runs[j]).0
                            + inserted_runs[j].1 <= usize::MAX && inserted_runs[j].1 > 0,
                    forall|j: int|
                        0 <= j < insertions@.len() ==> (#[trigger] insertions@[j]) == (
                            inserted_runs[j].0,
                            (inserted_runs[j].0 + inserted_runs[j].1) as usize,
                        ),
                    list@ == with_runs(
                        shortened,
                        inserted_runs.take(k as int),
                        next_len as int,
                    ),
                decreases insertions.len() - k,
            {
                let ghost before = list@;
                assert(inserted_runs.take(k + 1).drop_last() =~= inserted_runs.take(k as int));
                assert(inserted_runs.take(k + 1).last() == inserted_runs[k as int]);
                let (start, end) = insertions[k];
                let limit: usize = if end < next_len {
                    end
                } else {
                    next_len
                };
                let items = if start < limit {
                    fresh_slots(start, limit)
                } else {
                    Vec::new()
                };
                assert(items@ =~= fresh_run(
                    inserted_runs[k as int].0 as int,
                    inserted_runs[k as int].1 as int,
                    next_len as int,
                ));
                list = splice_slots(&list, start, 0, &items);
                assert(list@ =~= spliced(before, start as int, items@));
                k += 1;
            }
            assert(inserted_runs.take(inserted_runs.len() as int) =~= inserted_runs);
            return put_items(list, updated_positions.as_slice(), next_len);
        },
        _ => {},
    }
    let slots = fresh_slots(0, next_len);
    assert(slots@ =~= all_fresh(next_len as int));
    slots
}

/// The positions that runs cover, in order.
pub open spec fn covered(groups: Seq<(usize, usize)>) -> Seq<usize>
    decreases groups.len(),
{
    if groups.len() == 0 {
        Seq::empty()
    } else {
        covered(groups.drop_last()) + Seq::new(
            groups.last().1 as nat,
            |i: int| (groups.last().0 + i) as usize,
        )
    }
}

/// Runs of positions cover these positions and no others, in the same order.
pub proof fn law_runs_cover_positions(positions: Seq<usize>)
    requires
        in_range(positions),
    ensures
        covered(runs(positions)) == positions,
    decreases positions.len(),
{
    if positions.len() == 0 {
        assert(covered(runs(positions)) =~= positions);
    } else {
        let shorter = positions.drop_last();
        lemma_shorter_in_range(positions);
        lemma_runs_bounds(shorter);
        law_runs_cover_positions(shorter);
        let before = runs(shorter);
        let after = runs(positions);
        let position = positions.last();
        assert(positions[positions.len() - 1] == position);
        if before.len() > 0 && before.last().0 + before.last().1 == position {
            assert(after.drop_last() =~= before.drop_last());
            assert(covered(after) =~= covered(before).push(position));
        } else {
            assert(after.drop_last() =~= before);
            assert(covered(after) =~= covered(before).push(position));
        }
        assert(shorter.push(position) =~= positions);
    }
}

proof fn lemma_shorter_in_range(positions: Seq<usize>)
    requires
        in_range(positions),
        positions.len() > 0,
    ensures
        in_range(positions.drop_last()),
{
    let shorter = positions.drop_last();
    assert forall|i: int| 0 <= i < shorter.len() implies #[trigger] shorter[i] < usize::MAX by {
        assert(shorter[i] == positions[i]);
    }
}

/// Positions in strictly ascending order, all of them inside a list.
pub open spec fn ascending_within(positions: Seq<usize>, len: int) -> bool {
    &&& forall|i: int, j: int|
        0 <= i < j < positions.len() ==> (#[trigger] positions[i]) < (#[trigger] positions[j])
    &&& forall|i: int| 0 <= i < positions.len() ==> (#[trigger] positions[i]) < len
}

/// A list without the items at positions in ascending order.
pub open spec fn without<T>(list: Seq<T>, positions: Seq<usize>) -> Seq<T>
    decreases positions.len(),
{
    if positions.len() == 0 {
        list
    } else {
        without(list.remove(positions.last() as int), positions.drop_last())
    }
}

proof fn lemma_without_front<T>(list: Seq<T>, positions: Seq<usize>)
    requires
        ascending_within(positions, list.len() as int),
        positions.len() > 0,
    ensures
        without(list, positions) == without(list, positions.skip(1)).remove(positions[0] as int),
        positions[0] < without(list, positions.skip(1)).len(),
        without(list, positions.skip(1))[positions[0] as int] == list[positions[0] as int],
        without(list, positions).len() == list.len() - positions.len(),
        without(list, positions.skip(1)).len() == list.len() - positions.len() + 1,
    decreases positions.len(),
{
    let rest = positions.skip(1);
    if positions.len() == 1 {
        assert(rest =~= Seq::empty());
        assert(positions.drop_last() =~= Seq::empty());
        assert(without(list, rest) == list);
        let smaller = list.remove(positions[0] as int);
        assert(positions.last() == positions[0]);
        assert(without(smaller, Seq::<usize>::empty()) == smaller);
        assert(without(list, positions) == smaller);
    } else {
        let last = positions.last();
        let shorter = positions.drop_last();
        let smaller = list.remove(last as int);
        assert(positions[positions.len() - 1] == last);
        assert forall|i: int| 0 <= i < shorter.len() implies (#[trigger] shorter[i])
            < smaller.len() by {
            assert(shorter[i] == positions[i]);
            assert(positions[i] < positions[positions.len() - 1]);
        }
        assert forall|i: int, j: int| 0 <= i < j < shorter.len() implies (#[trigger] shorter[i]) < (
        #[trigger] shorter[j]) by {
            assert(shorter[i] == positions[i] && shorter[j] == positions[j]);
        }
        lemma_without_front(smaller, shorter);
        assert(rest.drop_last() =~= shorter.skip(1));
        assert(rest.last() == last);
        assert(shorter[0] == positions[0]);
        assert(positions[0] < positions[positions.len() - 1]);
        assert(smaller[positions[0] as int] == list[positions[0] as int]);
    }
}

proof fn lemma_cut_runs(list: Seq<ListSlot>, positions: Seq<usize>)
    requires
        ascending_within(positions, list.len() as int),
        in_range(positions),
    ensures
        cut_runs(list, runs(positions)) == without(list, positions),
    decreases positions.len(),
{
    if positions.len() > 0 {
        let shorter = positions.drop_last();
        let position = positions.last();
        let smaller = list.remove(position as int);
        lemma_shorter_in_range(positions);
        lemma_runs_bounds(shorter);
        lemma_runs_bounds(positions);
        assert(positions[positions.len() - 1] == position);
        assert forall|i: int| 0 <= i < shorter.len() implies (#[trigger] shorter[i])
            < smaller.len() by {
            assert(shorter[i] == positions[i]);
            assert(positions[i] < positions[positions.len() - 1]);
        }
        assert forall|i: int, j: int| 0 <= i < j < shorter.len() implies (#[trigger] shorter[i]) < (
        #[trigger] shorter[j]) by {
            assert(shorter[i] == positions[i] && shorter[j] == positions[j]);
        }
        lemma_cut_runs(smaller, shorter);
        let before = runs(shorter);
        let after = runs(positions);
        if before.len() > 0 && before.last().0 + before.last().1 == position {
            let run = before.last();
            assert(after.drop_last() =~= before.drop_last());
            assert(after.last() == (run.0, (run.1 + 1) as usize));
            assert(before[before.len() - 1].1 > 0);
            assert(cut(list, run.0 as int, run.1 + 1) =~= cut(
                smaller,
                run.0 as int,
                run.1 as int,
            ));
        } else {
            assert(after.drop_last() =~= before);
            assert(after.last() == (position, 1usize));
            assert(cut(list, position as int, 1) =~= smaller);
        }
    }
}

/// A list with new items at positions in ascending order.
spec fn inserted(list: Seq<ListSlot>, positions: Seq<usize>) -> Seq<ListSlot>
    decreases positions.len(),
{
    if positions.len() == 0 {
        list
    } else {
        inserted(list, positions.drop_last()).insert(
            positions.last() as int,
            ListSlot::Fresh(positions.last()),
        )
    }
}

/// The positions of new items leave no gaps.
spec fn no_gaps(list_len: int, positions: Seq<usize>) -> bool {
    forall|i: int| 0 <= i < positions.len() ==> (#[trigger] positions[i]) <= list_len + i
}

proof fn lemma_with_runs(list: Seq<ListSlot>, positions: Seq<usize>, next_len: int)
    requires
        ascending_within(positions, next_len),
        in_range(positions),
        no_gaps(list.len() as int, positions),
    ensures
        with_runs(list, runs(positions), next_len) == inserted(list, positions),
        inserted(list, positions).len() == list.len() + positions.len(),
        positions.len() > 0 ==> with_runs(
            list,
            runs(positions).drop_last(),
            next_len,
        ).len() >= runs(positions).last().0,
    decreases positions.len(),
{
    if positions.len() > 0 {
        let shorter = positions.drop_last();
        let position = positions.last();
        lemma_shorter_in_range(positions);
        lemma_runs_bounds(shorter);
        lemma_runs_bounds(positions);
        assert(positions[positions.len() - 1] == position);
        assert forall|i: int| 0 <= i < shorter.len() implies (#[trigger] shorter[i]) < next_len
            && shorter[i] <= list.len() + i by {
            assert(shorter[i] == positions[i]);
        }
        assert forall|i: int, j: int| 0 <= i < j < shorter.len() implies (#[trigger] shorter[i]) < (
        #[trigger] shorter[j]) by {
            assert(shorter[i] == positions[i] && shorter[j] == positions[j]);
        }
        lemma_with_runs(list, shorter, next_len);
        let before = runs(shorter);
        let after = runs(positions);
        let earlier = inserted(list, shorter);
        assert(earlier.len() == list.len() + shorter.len());
        if before.len() > 0 && before.last().0 + before.last().1 == position {
            let run = before.last();
            assert(before[before.len() - 1].1 > 0);
            assert(after.drop_last() =~= before.drop_last());
            assert(after.last() == (run.0, (run.1 + 1) as usize));
            let base = with_runs(list, before.drop_last(), next_len);
            let some = fresh_run(run.0 as int, run.1 as int, next_len);
            let more = fresh_run(run.0 as int, run.1 + 1, next_len);
            assert(more =~= some.push(ListSlot::Fresh(position)));
            assert(earlier == spliced(base, run.0 as int, some));
            assert(spliced(base, run.0 as int, more) =~= earlier.insert(
                position as int,
                ListSlot::Fresh(position),
            ));
        } else {
            assert(after.drop_last() =~= before);
            assert(after.last() == (position, 1usize));
            assert(fresh_run(position as int, 1, next_len) =~= seq![ListSlot::Fresh(position)]);
            assert(spliced(
                earlier,
                position as int,
                seq![ListSlot::Fresh(position)],
            ) =~= earlier.insert(position as int, ListSlot::Fresh(position)));
        }
    }
}

/// The item that a slot stands for.
pub open spec fn slot_item<T>(slot: ListSlot, previous: Seq<T>, next: Seq<T>) -> Option<T> {
    match slot {
        ListSlot::Kept(position) => Some(previous[position as int]),
        ListSlot::Fresh(position) => Some(next[position as int]),
        ListSlot::Hole => None,
    }
}

/// The items that slots stand for.
pub open spec fn slot_items<T>(slots: Seq<ListSlot>, previous: Seq<T>, next: Seq<T>) -> Seq<
    Option<T>,
> {
    slots.map_values(|slot: ListSlot| slot_item(slot, previous, next))
}

/// The slots give the items of the new list at given positions of it, but for updated ones.
pub open spec fn agrees<T>(
    slots: Seq<ListSlot>,
    targets: Seq<int>,
    previous: Seq<T>,
    next: Seq<T>,
    updated: Seq<usize>,
) -> bool {
    &&& slots.len() == targets.len()
    &&& forall|k: int|
        0 <= k < slots.len() ==> slot_item(#[trigger] slots[k], previous, next) == Some(
            next[targets[k]],
        ) || updated.contains(targets[k] as usize)
}

/// The positions of a list.
pub open spec fn all_positions(len: int) -> Seq<int> {
    Seq::new(len as nat, |i: int| i)
}

/// A patch tells the truth of two lists: without the removed and the inserted items they hold the
/// same, but for items that are updated.
pub open spec fn patch_fits<T>(
    previous: Seq<T>,
    next: Seq<T>,
    removed: Seq<usize>,
    inserted: Seq<usize>,
    updated: Seq<usize>,
) -> bool {
    &&& ascending_within(in_order(removed), previous.len() as int)
    &&& ascending_within(inserted, next.len() as int)
    &&& forall|i: int| 0 <= i < updated.len() ==> (#[trigger] updated[i]) < next.len()
    &&& agrees(
        without(all_kept(previous.len() as int), in_order(removed)),
        without(all_positions(next.len() as int), inserted),
        previous,
        next,
        updated,
    )
}

proof fn lemma_insert_agrees<T>(
    list: Seq<ListSlot>,
    positions: Seq<usize>,
    previous: Seq<T>,
    next: Seq<T>,
    updated: Seq<usize>,
    j: int,
)
    requires
        0 <= j <= positions.len(),
        ascending_within(positions, next.len() as int),
        agrees(
            list,
            without(all_positions(next.len() as int), positions),
            previous,
            next,
            updated,
        ),
    ensures
        agrees(
            inserted(list, positions.take(j)),
            without(all_positions(next.len() as int), positions.skip(j)),
            previous,
            next,
            updated,
        ),
    decreases j,
{
    let ids = all_positions(next.len() as int);
    if j == 0 {
        assert(positions.take(0) =~= Seq::empty());
        assert(positions.skip(0) =~= positions);
    } else {
        lemma_insert_agrees(list, positions, previous, next, updated, j - 1);
        let rest = positions.skip(j - 1);
        let position = positions[j - 1];
        assert(rest[0] == position);
        assert(rest.skip(1) =~= positions.skip(j));
        assert forall|i: int| 0 <= i < rest.len() implies (#[trigger] rest[i]) < next.len() by {
            assert(rest[i] == positions[j - 1 + i]);
        }
        assert forall|a: int, b: int| 0 <= a < b < rest.len() implies (#[trigger] rest[a]) < (
        #[trigger] rest[b]) by {
            assert(rest[a] == positions[j - 1 + a] && rest[b] == positions[j - 1 + b]);
        }
        lemma_without_front(ids, rest);
        let small = without(ids, rest);
        let large = without(ids, positions.skip(j));
        let before = inserted(list, positions.take(j - 1));
        assert(positions.take(j).drop_last() =~= positions.take(j - 1));
        assert(positions.take(j).last() == position);
        let after = before.insert(position as int, ListSlot::Fresh(position));
        assert(large =~= small.insert(position as int, position as int));
        assert forall|k: int| 0 <= k < after.len() implies slot_item(
            #[trigger] after[k],
            previous,
            next,
        ) == Some(next[large[k]]) || updated.contains(large[k] as usize) by {
            if k < position {
                assert(after[k] == before[k] && large[k] == small[k]);
            } else if k > position {
                assert(after[k] == before[k - 1] && large[k] == small[k - 1]);
            }
        }
    }
}

proof fn lemma_with_items(list: Seq<ListSlot>, positions: Seq<usize>)
    requires
        forall|i: int| 0 <= i < positions.len() ==> (#[trigger] positions[i]) < list.len(),
    ensures
        with_items(list, positions, list.len() as int).len() == list.len(),
        forall|k: int|
            0 <= k < list.len() ==> (#[trigger] with_items(
                list,
                positions,
                list.len() as int,
            )[k]) == (if positions.contains(k as usize) && k <= usize::MAX {
                ListSlot::Fresh(k as usize)
            } else {
                list[k]
            }),
    decreases positions.len(),
{
    if positions.len() > 0 {
        let shorter = positions.drop_last();
        let last = positions.last();
        assert(positions[positions.len() - 1] == last);
        assert forall|i: int| 0 <= i < shorter.len() implies (#[trigger] shorter[i])
            < list.len() by {
            assert(shorter[i] == positions[i]);
        }
        lemma_with_items(list, shorter);
        let before = with_items(list, shorter, list.len() as int);
        let after = with_items(list, positions, list.len() as int);
        assert forall|k: int| 0 <= k < list.len() implies (#[trigger] after[k]) == (
        if positions.contains(k as usize) && k <= usize::MAX {
            ListSlot::Fresh(k as usize)
        } else {
            list[k]
        }) by {
            if shorter.contains(k as usize) {
                let m = choose|m: int| 0 <= m < shorter.len() && shorter[m] == k as usize;
                assert(positions[m] == k as usize);
            }
            if positions.contains(k as usize) {
                let m = choose|m: int| 0 <= m < positions.len() && positions[m] == k as usize;
                if m < shorter.len() {
                    assert(shorter[m] == k as usize);
                }
            }
            assert(before[k] == before[k]);
        }
    }
}

proof fn lemma_updates_agree<T>(
    list: Seq<ListSlot>,
    previous: Seq<T>,
    next: Seq<T>,
    updated: Seq<usize>,
)
    requires
        agrees(list, all_positions(next.len() as int), previous, next, updated),
        next.len() <= usize::MAX,
        forall|i: int| 0 <= i < updated.len() ==> (#[trigger] updated[i]) < next.len(),
    ensures
        slot_items(with_items(list, updated, next.len() as int), previous, next)
            == next.map_values(|item: T| Some(item)),
{
    let targets = all_positions(next.len() as int);
    assert(targets.len() == next.len());
    lemma_with_items(list, updated);
    let slots = with_items(list, updated, next.len() as int);
    let expected = next.map_values(|item: T| Some(item));
    assert forall|k: int| 0 <= k < slots.len() implies slot_items(slots, previous, next)[k]
        == expected[k] by {
        assert(targets[k] == k);
        assert(slots[k] == slots[k]);
        assert(list[k] == list[k]);
    }
    assert(slot_items(slots, previous, next) =~= expected);
}

proof fn lemma_within_in_range(positions: Seq<usize>, len: int)
    requires
        len <= usize::MAX,
        ascending_within(in_order(positions), len),
    ensures
        in_range(positions),
{
    broadcast use vstd::seq_lib::group_to_multiset_ensures;

    law_positions_are_sorted(positions);
    let sorted = in_order(positions);
    assert forall|i: int| 0 <= i < positions.len() implies #[trigger] positions[i] < usize::MAX by {
        assert(positions.contains(positions[i]));
        assert(sorted.to_multiset().count(positions[i]) > 0);
        let k = choose|k: int| 0 <= k < sorted.len() && sorted[k] == positions[i];
        assert(sorted[k] < len);
    }
}

/// A list that is patched with removed, inserted and updated items is the new list, if the patch
/// tells the truth.
pub proof fn law_spliced_list_is_new_list<T>(
    previous: Seq<T>,
    next: Seq<T>,
    patch: GraphqlRootListPatch,
)
    requires
        previous.len() <= usize::MAX,
        next.len() <= usize::MAX,
        patch matches GraphqlRootListPatch::Splice {
            removed_positions,
            inserted_positions,
            updated_positions,
        } && patch_fits(
            previous,
            next,
            removed_positions@,
            inserted_positions@,
            updated_positions@,
        ),
    ensures
        slot_items(
            slots_of(Some(previous.len() as usize), next.len() as usize, Some(patch)),
            previous,
            next,
        ) == next.map_values(|item: T| Some(item)),
{
    let removed = patch->removed_positions@;
    let added = patch->inserted_positions@;
    let updated = patch->updated_positions@;
    let start = all_kept(previous.len() as int);
    let ids = all_positions(next.len() as int);
    lemma_within_in_range(removed, previous.len() as int);
    assert forall|i: int| 0 <= i < added.len() implies #[trigger] added[i] < usize::MAX by {}
    lemma_in_order(removed);
    lemma_cut_runs(start, in_order(removed));
    let kept = without(start, in_order(removed));
    assert(kept.len() == next.len() - added.len()) by {
        if added.len() > 0 {
            lemma_without_front(ids, added);
        }
    }
    assert(no_gaps(kept.len() as int, added)) by {
        lemma_no_gaps(added, next.len() as int);
    }
    lemma_with_runs(kept, added, next.len() as int);
    lemma_insert_agrees(kept, added, previous, next, updated, added.len() as int);
    assert(added.take(added.len() as int) =~= added);
    assert(added.skip(added.len() as int) =~= Seq::empty());
    assert(without(ids, Seq::empty()) == ids);
    lemma_updates_agree(inserted(kept, added), previous, next, updated);
}

proof fn lemma_no_gaps(positions: Seq<usize>, len: int)
    requires
        ascending_within(positions, len),
    ensures
        no_gaps(len - positions.len(), positions),
{
    assert forall|i: int| 0 <= i < positions.len() implies (#[trigger] positions[i]) <= len
        - positions.len() + i by {
        lemma_room_behind(positions, len, i);
    }
}

proof fn lemma_room_behind(positions: Seq<usize>, len: int, i: int)
    requires
        ascending_within(positions, len),
        0 <= i < positions.len(),
    ensures
        positions[i] <= len - positions.len() + i,
    decreases positions.len() - i,
{
    if i + 1 < positions.len() {
        lemma_room_behind(positions, len, i + 1);
        assert(positions[i] < positions[i + 1]);
    }
}

/// A list of which items are updated in place is the new list, if the other items are the same.
pub proof fn law_updated_list_is_new_list<T>(
    previous: Seq<T>,
    next: Seq<T>,
    patch: GraphqlRootListPatch,
)
    requires
        next.len() <= usize::MAX,
        previous.len() == next.len(),
        patch matches GraphqlRootListPatch::StablePositions(positions) && (forall|i: int|
            0 <= i < positions@.len() ==> (#[trigger] positions@[i]) < next.len()) && (forall|
            k: int,
        |
            0 <= k < next.len() ==> (#[trigger] next[k]) == previous[k] || positions@.contains(
                k as usize,
            )),
    ensures
        slot_items(
            slots_of(Some(previous.len() as usize), next.len() as usize, Some(patch)),
            previous,
            next,
        ) == next.map_values(|item: T| Some(item)),
{
    let start = all_kept(previous.len() as int);
    let ids = all_positions(next.len() as int);
    let positions = patch->StablePositions_0@;
    assert forall|k: int| 0 <= k < start.len() implies slot_item(
        #[trigger] start[k],
        previous,
        next,
    ) == Some(next[ids[k]]) || positions.contains(ids[k] as usize) by {
        assert(next[k] == next[k]);
    }
    lemma_updates_agree(start, previous, next, positions);
}

/// A patch tells how a list became another one. A patch of updates says nothing of lists of
/// different lengths, and is not used for them.
pub open spec fn describes<T>(patch: GraphqlRootListPatch, previous: Seq<T>, next: Seq<T>) -> bool {
    match patch {
        GraphqlRootListPatch::StablePositions(positions) => previous.len() == next.len() ==> {
            &&& forall|i: int| 0 <= i < positions@.len() ==> (#[trigger] positions@[i]) < next.len()
            &&& forall|k: int|
                0 <= k < next.len() ==> (#[trigger] next[k]) == previous[k] || positions@.contains(
                    k as usize,
                )
        },
        GraphqlRootListPatch::Splice { removed_positions, inserted_positions, updated_positions } =>
        patch_fits(
            previous,
            next,
            removed_positions@,
            inserted_positions@,
            updated_positions@,
        ),
    }
}

/// Whatever is at hand, the list that is put together is the new list, item by item: without a
/// last list, without a patch, and with a patch that tells how the last list became the new one.
pub proof fn law_patched_list_is_new_list<T>(
    previous: Option<Seq<T>>,
    next: Seq<T>,
    patch: Option<GraphqlRootListPatch>,
)
    requires
        previous matches Some(previous) ==> previous.len() <= usize::MAX,
        next.len() <= usize::MAX,
        previous is Some && patch is Some ==> describes(patch->0, previous->0, next),
    ensures
        ({
            let (items, len) = match previous {
                Some(previous) => (previous, Some(previous.len() as usize)),
                None => (Seq::empty(), None),
            };
            slot_items(slots_of(len, next.len() as usize, patch), items, next) == next.map_values(
                |item: T| Some(item),
            )
        }),
{
    let items = match previous {
        Some(previous) => previous,
        None => Seq::empty(),
    };
    let fresh = all_fresh(next.len() as int);
    assert(slot_items(fresh, items, next) =~= next.map_values(|item: T| Some(item)));
    if let (Some(previous), Some(patch)) = (previous, patch) {
        match patch {
            GraphqlRootListPatch::StablePositions(_) => {
                if previous.len() == next.len() {
                    law_updated_list_is_new_list(previous, next, patch);
                }
            },
            GraphqlRootListPatch::Splice { .. } => {
                law_spliced_list_is_new_list(previous, next, patch);
            },
        }
    }
}

} // verus!
