//! Refresh of a window of an ordered result.
//!
//! A query with an order and a limit keeps more rows than it shows. When root rows change, their
//! rows are computed anew and sorted into the rows at hand, as long as enough of those are left.
use vstd::prelude::*;

use crate::collections::RowIdSet;
use crate::eval::{compare_values, comparison_of, plain_step, Step, StepView};
use crate::facts::{Comparison, EvalFacts, FactsView};
use crate::order::{
    int_order, law_value_order_is_strict, law_values_compare_by_value, same_kind, value_precedes,
};
use crate::plan::SortOrder;
use crate::root_subset::{root_key, root_key_of_row, RootKey};
use crate::row::{rows_view, Row, RowView};
use crate::tables::RootTable;
use crate::value::{values_view, Value, ValueView};

verus! {

/// A column by which a result is ordered.
#[derive(Clone, Copy, Debug, PartialEq, Eq, Structural)]
pub struct RowsSnapshotOrderKey {
    pub output_index: usize,
    pub order: SortOrder,
}

/// What is known of a window of an ordered result.
pub struct RowsSnapshotPartialRefreshMetadata {
    pub root_table: String,
    pub root_pk_output_indices: Vec<usize>,
    pub order_keys: Vec<RowsSnapshotOrderKey>,
    pub visible_offset: usize,
    pub visible_limit: usize,
    pub overscan: usize,
    pub candidate_limit: usize,
}

/// A row of the window with the root row that it comes from.
pub struct PartialRefreshCandidateRow {
    pub row: Row,
    pub root_row_id: u64,
}

/// What a row of the window holds.
pub struct CandidateView {
    pub row: RowView,
    pub root_row_id: u64,
}

impl View for PartialRefreshCandidateRow {
    type V = CandidateView;

    open spec fn view(&self) -> CandidateView {
        CandidateView { row: self.row@, root_row_id: self.root_row_id }
    }
}

/// What the rows of a window hold.
pub open spec fn candidates_view(rows: Seq<PartialRefreshCandidateRow>) -> Seq<CandidateView> {
    rows.map_values(|row: PartialRefreshCandidateRow| row@)
}

impl Clone for PartialRefreshCandidateRow {
    fn clone(&self) -> (result: Self)
        ensures
            result@ == self@,
    {
        PartialRefreshCandidateRow { row: self.row.clone(), root_row_id: self.root_row_id }
    }
}

/// The other direction of a comparison.
pub open spec fn reversed(comparison: Comparison) -> Comparison {
    match comparison {
        Comparison::Less => Comparison::Greater,
        Comparison::Greater => Comparison::Less,
        other => other,
    }
}

/// The value of a column, if the row has it.
pub open spec fn column_of(row: RowView, index: usize) -> Option<ValueView> {
    if index < row.values.len() {
        Some(row.values[index as int])
    } else {
        None
    }
}

/// How two columns compare. A missing column comes first, or last in descending order.
pub open spec fn column_order(
    left: Option<ValueView>,
    right: Option<ValueView>,
    order: SortOrder,
    facts: FactsView,
) -> StepView<Comparison> {
    let ascending = match (left, right) {
        (Some(left), Some(right)) => comparison_of(left, right, facts),
        (None, Some(_)) => StepView::Done(Comparison::Less),
        (Some(_), None) => StepView::Done(Comparison::Greater),
        (None, None) => StepView::Done(Comparison::Equal),
    };
    match (ascending, order) {
        (StepView::Done(comparison), SortOrder::Desc) => StepView::Done(reversed(comparison)),
        _ => ascending,
    }
}

/// How two lists of values compare, value by value.
pub open spec fn values_order(
    left: Seq<ValueView>,
    right: Seq<ValueView>,
    facts: FactsView,
) -> StepView<Comparison>
    decreases left.len(),
{
    if left.len() == 0 {
        StepView::Done(
            if right.len() == 0 {
                Comparison::Equal
            } else {
                Comparison::Less
            },
        )
    } else if right.len() == 0 {
        StepView::Done(Comparison::Greater)
    } else {
        match comparison_of(left[0], right[0], facts) {
            StepView::Done(Comparison::Equal) => values_order(left.skip(1), right.skip(1), facts),
            other => other,
        }
    }
}

/// How two rows of a window compare: by the columns of the order, then by the root rows that they
/// come from, their values and their versions.
pub open spec fn candidate_order(
    left: CandidateView,
    right: CandidateView,
    keys: Seq<RowsSnapshotOrderKey>,
    facts: FactsView,
) -> StepView<Comparison>
    decreases keys.len(),
{
    if keys.len() > 0 {
        match column_order(
            column_of(left.row, keys[0].output_index),
            column_of(right.row, keys[0].output_index),
            keys[0].order,
            facts,
        ) {
            StepView::Done(Comparison::Equal) => candidate_order(left, right, keys.skip(1), facts),
            other => other,
        }
    } else {
        match int_order(left.root_row_id as int, right.root_row_id as int) {
            Comparison::Equal => match values_order(left.row.values, right.row.values, facts) {
                StepView::Done(Comparison::Equal) => StepView::Done(
                    int_order(left.row.version as int, right.row.version as int),
                ),
                other => other,
            },
            other => StepView::Done(other),
        }
    }
}

fn compare_numbers(left: u64, right: u64) -> (result: Comparison)
    ensures
        result == int_order(left as int, right as int),
{
    if left < right {
        Comparison::Less
    } else if right < left {
        Comparison::Greater
    } else {
        Comparison::Equal
    }
}

/// Compares two columns.
pub fn compare_partial_refresh_values(
    left: Option<&Value>,
    right: Option<&Value>,
    order: SortOrder,
    facts: &EvalFacts,
) -> (result: Step<Comparison>)
    ensures
        plain_step(result) == column_order(
            match left {
                Some(value) => Some(value@),
                None => None,
            },
            match right {
                Some(value) => Some(value@),
                None => None,
            },
            order,
            facts@,
        ),
{
    let ascending = match (left, right) {
        (Some(left), Some(right)) => compare_values(left, right, facts),
        (None, Some(_)) => Step::Done(Comparison::Less),
        (Some(_), None) => Step::Done(Comparison::Greater),
        (None, None) => Step::Done(Comparison::Equal),
    };
    match (ascending, order) {
        (Step::Done(comparison), SortOrder::Desc) => Step::Done(
            match comparison {
                Comparison::Less => Comparison::Greater,
                Comparison::Greater => Comparison::Less,
                other => other,
            },
        ),
        (ascending, _) => ascending,
    }
}

/// Compares two lists of values.
pub fn compare_value_lists(left: &[Value], right: &[Value], facts: &EvalFacts) -> (result: Step<
    Comparison,
>)
    ensures
        plain_step(result) == values_order(values_view(left@), values_view(right@), facts@),
{
    let ghost l = values_view(left@);
    let ghost r = values_view(right@);
    let mut i: usize = 0;
    assert(l.skip(0) =~= l);
    assert(r.skip(0) =~= r);
    while i < left.len() && i < right.len()
        invariant
            i <= left.len(),
            i <= right.len(),
            l == values_view(left@),
            r == values_view(right@),
            values_order(l.skip(i as int), r.skip(i as int), facts@) == values_order(l, r, facts@),
        decreases left.len() - i,
    {
        assert(l.skip(i as int)[0] == l[i as int] && r.skip(i as int)[0] == r[i as int]);
        assert(l.skip(i as int).skip(1) =~= l.skip(i + 1));
        assert(r.skip(i as int).skip(1) =~= r.skip(i + 1));
        match compare_values(&left[i], &right[i], facts) {
            Step::Done(Comparison::Equal) => {},
            other => {
                return other;
            },
        }
        i += 1;
    }
    Step::Done(
        if i < left.len() {
            Comparison::Greater
        } else if i < right.len() {
            Comparison::Less
        } else {
            Comparison::Equal
        },
    )
}

/// Compares two rows of a window.
pub fn compare_partial_refresh_rows(
    left: &PartialRefreshCandidateRow,
    right: &PartialRefreshCandidateRow,
    order_keys: &[RowsSnapshotOrderKey],
    facts: &EvalFacts,
) -> (result: Step<Comparison>)
    ensures
        plain_step(result) == candidate_order(left@, right@, order_keys@, facts@),
{
    let ghost keys = order_keys@;
    let mut i: usize = 0;
    assert(keys.skip(0) =~= keys);
    while i < order_keys.len()
        invariant
            i <= order_keys.len(),
            keys == order_keys@,
            candidate_order(left@, right@, keys.skip(i as int), facts@) == candidate_order(
                left@,
                right@,
                keys,
                facts@,
            ),
        decreases order_keys.len() - i,
    {
        assert(keys.skip(i as int)[0] == keys[i as int]);
        assert(keys.skip(i as int).skip(1) =~= keys.skip(i + 1));
        match compare_partial_refresh_values(
            left.row.get(order_keys[i].output_index),
            right.row.get(order_keys[i].output_index),
            order_keys[i].order,
            facts,
        ) {
            Step::Done(Comparison::Equal) => {},
            other => {
                return other;
            },
        }
        i += 1;
    }
    match compare_numbers(left.root_row_id, right.root_row_id) {
        Comparison::Equal => {},
        other => {
            return Step::Done(other);
        },
    }
    match compare_value_lists(left.row.values(), right.row.values(), facts) {
        Step::Done(Comparison::Equal) => Step::Done(
            compare_numbers(left.row.version(), right.row.version()),
        ),
        other => other,
    }
}

/// Where a row goes in a sorted window: in front of the first row that comes after it.
pub open spec fn candidate_position(
    sorted: Seq<CandidateView>,
    row: CandidateView,
    keys: Seq<RowsSnapshotOrderKey>,
    facts: FactsView,
) -> StepView<int>
    decreases sorted.len(),
{
    if sorted.len() == 0 {
        StepView::Done(0)
    } else {
        match candidate_order(sorted[0], row, keys, facts) {
            StepView::Need(request) => StepView::Need(request),
            StepView::Done(Comparison::Greater) => StepView::Done(0),
            StepView::Done(_) => match candidate_position(sorted.skip(1), row, keys, facts) {
                StepView::Done(position) => StepView::Done(position + 1),
                StepView::Need(request) => StepView::Need(request),
            },
        }
    }
}

/// The rows of a window in order; rows that compare equal keep their order.
pub open spec fn sorted_candidates(
    rows: Seq<CandidateView>,
    keys: Seq<RowsSnapshotOrderKey>,
    facts: FactsView,
) -> StepView<Seq<CandidateView>>
    decreases rows.len(),
{
    if rows.len() == 0 {
        StepView::Done(Seq::empty())
    } else {
        match sorted_candidates(rows.drop_last(), keys, facts) {
            StepView::Done(sorted) => match candidate_position(sorted, rows.last(), keys, facts) {
                StepView::Done(position) => StepView::Done(sorted.insert(position, rows.last())),
                StepView::Need(request) => StepView::Need(request),
            },
            StepView::Need(request) => StepView::Need(request),
        }
    }
}

/// What sorting a window came to.
pub open spec fn candidates_step(step: Step<Vec<PartialRefreshCandidateRow>>) -> StepView<
    Seq<CandidateView>,
> {
    match step {
        Step::Done(rows) => StepView::Done(candidates_view(rows@)),
        Step::Need(request) => StepView::Need(request@),
    }
}

fn find_candidate_position(
    sorted: &[PartialRefreshCandidateRow],
    row: &PartialRefreshCandidateRow,
    order_keys: &[RowsSnapshotOrderKey],
    facts: &EvalFacts,
) -> (result: Step<usize>)
    ensures
        match result {
            Step::Done(position) => position <= sorted.len() && candidate_position(
                candidates_view(sorted@),
                row@,
                order_keys@,
                facts@,
            ) == StepView::<int>::Done(position as int),
            Step::Need(request) => candidate_position(
                candidates_view(sorted@),
                row@,
                order_keys@,
                facts@,
            ) == StepView::<int>::Need(request@),
        },
{
    let ghost views = candidates_view(sorted@);
    let mut i: usize = 0;
    assert(views.skip(0) =~= views);
    while i < sorted.len()
        invariant
            i <= sorted.len(),
            views == candidates_view(sorted@),
            candidate_position(views, row@, order_keys@, facts@) == (match candidate_position(
                views.skip(i as int),
                row@,
                order_keys@,
                facts@,
            ) {
                StepView::Done(position) => StepView::Done(position + i),
                StepView::Need(request) => StepView::Need(request),
            }),
        decreases sorted.len() - i,
    {
        assert(views.skip(i as int)[0] == views[i as int]);
        assert(views.skip(i as int).skip(1) =~= views.skip(i + 1));
        match compare_partial_refresh_rows(&sorted[i], row, order_keys, facts) {
            Step::Need(request) => {
                return Step::Need(request);
            },
            Step::Done(Comparison::Greater) => {
                return Step::Done(i);
            },
            Step::Done(_) => {},
        }
        i += 1;
    }
    Step::Done(i)
}

proof fn lemma_sorting_stops(
    rows: Seq<CandidateView>,
    keys: Seq<RowsSnapshotOrderKey>,
    facts: FactsView,
    k: int,
)
    requires
        0 <= k <= rows.len(),
        sorted_candidates(rows.take(k), keys, facts) is Need,
    ensures
        sorted_candidates(rows, keys, facts) == sorted_candidates(rows.take(k), keys, facts),
    decreases rows.len(),
{
    if k == rows.len() {
        assert(rows.take(k) =~= rows);
    } else {
        assert(rows.drop_last().take(k) =~= rows.take(k));
        lemma_sorting_stops(rows.drop_last(), keys, facts, k);
    }
}

/// Puts the rows of a window in order.
pub fn sort_candidates(
    rows: &[PartialRefreshCandidateRow],
    order_keys: &[RowsSnapshotOrderKey],
    facts: &EvalFacts,
) -> (result: Step<Vec<PartialRefreshCandidateRow>>)
    ensures
        candidates_step(result) == sorted_candidates(candidates_view(rows@), order_keys@, facts@),
{
    let ghost views = candidates_view(rows@);
    let mut sorted: Vec<PartialRefreshCandidateRow> = Vec::new();
    let mut i: usize = 0;
    assert(views.take(0) =~= Seq::empty());
    assert(candidates_view(sorted@) =~= Seq::empty());
    while i < rows.len()
        invariant
            i <= rows.len(),
            views == candidates_view(rows@),
            sorted_candidates(views.take(i as int), order_keys@, facts@)
                == StepView::<Seq<CandidateView>>::Done(candidates_view(sorted@)),
        decreases rows.len() - i,
    {
        let ghost before = candidates_view(sorted@);
        assert(views.take(i + 1).drop_last() =~= views.take(i as int));
        assert(views.take(i + 1).last() == rows@[i as int]@);
        match find_candidate_position(sorted.as_slice(), &rows[i], order_keys, facts) {
            Step::Need(request) => {
                proof {
                    lemma_sorting_stops(views, order_keys@, facts@, i + 1);
                }
                return Step::Need(request);
            },
            Step::Done(position) => {
                sorted.insert(position, rows[i].clone());
                assert(candidates_view(sorted@) =~= before.insert(
                    position as int,
                    rows@[i as int]@,
                ));
            },
        }
        i += 1;
    }
    assert(views.take(views.len() as int) =~= views);
    Step::Done(sorted)
}

proof fn lemma_position_bounds(
    sorted: Seq<CandidateView>,
    row: CandidateView,
    keys: Seq<RowsSnapshotOrderKey>,
    facts: FactsView,
)
    requires
        candidate_position(sorted, row, keys, facts) is Done,
    ensures
        0 <= candidate_position(sorted, row, keys, facts)->Done_0 <= sorted.len(),
        forall|i: int|
            0 <= i < candidate_position(sorted, row, keys, facts)->Done_0 ==> candidate_order(
                #[trigger] sorted[i],
                row,
                keys,
                facts,
            ) != StepView::Done(Comparison::Greater) && candidate_order(
                sorted[i],
                row,
                keys,
                facts,
            ) is Done,
        candidate_position(sorted, row, keys, facts)->Done_0 < sorted.len() ==> candidate_order(
            sorted[candidate_position(sorted, row, keys, facts)->Done_0],
            row,
            keys,
            facts,
        ) == StepView::Done(Comparison::Greater),
    decreases sorted.len(),
{
    if sorted.len() > 0 && candidate_order(sorted[0], row, keys, facts) != StepView::Done(
        Comparison::Greater,
    ) {
        let rest = sorted.skip(1);
        lemma_position_bounds(rest, row, keys, facts);
        let at = candidate_position(sorted, row, keys, facts)->Done_0;
        assert forall|i: int| 0 <= i < at implies candidate_order(
            #[trigger] sorted[i],
            row,
            keys,
            facts,
        ) != StepView::Done(Comparison::Greater) && candidate_order(
            sorted[i],
            row,
            keys,
            facts,
        ) is Done by {
            if i > 0 {
                assert(rest[i - 1] == sorted[i]);
            }
        }
        if at < sorted.len() {
            assert(rest[at - 1] == sorted[at]);
        }
    }
}

/// Sorting a window keeps its rows, each as often as it came.
pub proof fn law_sorting_keeps_rows(
    rows: Seq<CandidateView>,
    keys: Seq<RowsSnapshotOrderKey>,
    facts: FactsView,
)
    requires
        sorted_candidates(rows, keys, facts) is Done,
    ensures
        sorted_candidates(rows, keys, facts)->Done_0.to_multiset() == rows.to_multiset(),
        sorted_candidates(rows, keys, facts)->Done_0.len() == rows.len(),
    decreases rows.len(),
{
    broadcast use vstd::seq_lib::group_to_multiset_ensures;

    if rows.len() > 0 {
        let shorter = rows.drop_last();
        law_sorting_keeps_rows(shorter, keys, facts);
        let sorted = sorted_candidates(shorter, keys, facts)->Done_0;
        lemma_position_bounds(sorted, rows.last(), keys, facts);
        let at = candidate_position(sorted, rows.last(), keys, facts)->Done_0;
        vstd::seq_lib::to_multiset_insert(sorted, at, rows.last());
        assert(rows =~= shorter.push(rows.last()));
    }
}

/// One row does not come after another one.
pub open spec fn not_after(
    left: CandidateView,
    right: CandidateView,
    keys: Seq<RowsSnapshotOrderKey>,
    facts: FactsView,
) -> bool {
    &&& candidate_order(left, right, keys, facts) is Done
    &&& candidate_order(left, right, keys, facts) != StepView::Done(Comparison::Greater)
}

/// The facts order the rows of a list: of two rows one does not come after the other, and what
/// does not come after a row comes after none that the row does not come after.
pub open spec fn orders_rows(
    rows: Set<CandidateView>,
    keys: Seq<RowsSnapshotOrderKey>,
    facts: FactsView,
) -> bool {
    &&& forall|a: CandidateView, b: CandidateView|
        #![trigger not_after(a, b, keys, facts)]
        rows.contains(a) && rows.contains(b) ==> not_after(a, b, keys, facts) || not_after(
            b,
            a,
            keys,
            facts,
        )
    &&& forall|a: CandidateView, b: CandidateView, c: CandidateView|
        #![trigger not_after(a, b, keys, facts), not_after(b, c, keys, facts)]
        rows.contains(a) && rows.contains(b) && rows.contains(c) && not_after(a, b, keys, facts)
            && not_after(b, c, keys, facts) ==> not_after(a, c, keys, facts)
}

/// No row of a list comes after one that stands behind it.
pub open spec fn in_order(
    rows: Seq<CandidateView>,
    keys: Seq<RowsSnapshotOrderKey>,
    facts: FactsView,
) -> bool {
    forall|i: int, j: int|
        0 <= i < j < rows.len() ==> not_after(#[trigger] rows[i], #[trigger] rows[j], keys, facts)
}

/// A sorted window is in order: no row comes after one that stands behind it.
pub proof fn law_sorting_orders_rows(
    rows: Seq<CandidateView>,
    keys: Seq<RowsSnapshotOrderKey>,
    facts: FactsView,
)
    requires
        sorted_candidates(rows, keys, facts) is Done,
        orders_rows(rows.to_set(), keys, facts),
    ensures
        in_order(sorted_candidates(rows, keys, facts)->Done_0, keys, facts),
{
    lemma_sorted(rows, rows.to_set(), keys, facts);
}

proof fn lemma_sorted(
    rows: Seq<CandidateView>,
    all: Set<CandidateView>,
    keys: Seq<RowsSnapshotOrderKey>,
    facts: FactsView,
)
    requires
        sorted_candidates(rows, keys, facts) is Done,
        forall|i: int| 0 <= i < rows.len() ==> all.contains(#[trigger] rows[i]),
        orders_rows(all, keys, facts),
    ensures
        ({
            let sorted = sorted_candidates(rows, keys, facts)->Done_0;
            &&& forall|i: int| 0 <= i < sorted.len() ==> all.contains(#[trigger] sorted[i])
            &&& in_order(sorted, keys, facts)
        }),
    decreases rows.len(),
{
    if rows.len() > 0 {
        let shorter = rows.drop_last();
        let row = rows.last();
        assert forall|i: int| 0 <= i < shorter.len() implies all.contains(#[trigger] shorter[i]) by {
            assert(shorter[i] == rows[i]);
        }
        lemma_sorted(shorter, all, keys, facts);
        let before = sorted_candidates(shorter, keys, facts)->Done_0;
        lemma_position_bounds(before, row, keys, facts);
        let at = candidate_position(before, row, keys, facts)->Done_0;
        let sorted = before.insert(at, row);
        assert(all.contains(row)) by {
            assert(rows[rows.len() - 1] == row);
        }
        assert forall|i: int| 0 <= i < sorted.len() implies all.contains(#[trigger] sorted[i]) by {
            if i < at {
                assert(sorted[i] == before[i]);
            } else if i > at {
                assert(sorted[i] == before[i - 1]);
            }
        }
        assert forall|i: int, j: int| 0 <= i < j < sorted.len() implies not_after(
            #[trigger] sorted[i],
            #[trigger] sorted[j],
            keys,
            facts,
        ) by {
            let left = if i < at {
                i
            } else {
                i - 1
            };
            let right = if j < at {
                j
            } else {
                j - 1
            };
            if j == at {
                assert(sorted[i] == before[i]);
            } else if i == at {
                assert(sorted[j] == before[right]);
                assert(not_after(row, before[at], keys, facts) || not_after(
                    before[at],
                    row,
                    keys,
                    facts,
                ));
                if right > at {
                    assert(not_after(before[at], before[right], keys, facts));
                }
            } else {
                assert(sorted[i] == before[left] && sorted[j] == before[right]);
            }
        }
    }
}

/// The root row that a row of a result comes from: the one with the key values of the row, unless
/// one of them is null or missing.
pub open spec fn root_row_id(row: RowView, indices: Seq<usize>, ids: Map<RootKey, u64>) -> Option<
    u64,
> {
    match root_key(row, indices) {
        Some(key) => if (forall|i: int|
            0 <= i < key.len() ==> (#[trigger] key[i]) != ValueView::Null) && ids.dom().contains(
            key,
        ) {
            Some(ids[key])
        } else {
            None
        },
        None => None,
    }
}

/// The rows of a result with the root rows that they come from, if each has one.
pub open spec fn candidates_of(
    rows: Seq<RowView>,
    indices: Seq<usize>,
    ids: Map<RootKey, u64>,
) -> Option<Seq<CandidateView>>
    decreases rows.len(),
{
    if rows.len() == 0 {
        Some(Seq::empty())
    } else {
        match (
            candidates_of(rows.drop_last(), indices, ids),
            root_row_id(rows.last(), indices, ids),
        ) {
            (Some(before), Some(root_row_id)) => Some(
                before.push(CandidateView { row: rows.last(), root_row_id }),
            ),
            _ => None,
        }
    }
}

/// Finds the root row that a row of a result comes from. `ids` holds the identifiers of the root
/// rows by their key values.
pub fn resolve_root_row_id_for_output_row(
    indices: &[usize],
    ids: &RootTable<u64>,
    row: &Row,
) -> (result: Option<u64>)
    ensures
        result == root_row_id(row@, indices@, ids@),
{
    let key = match root_key_of_row(row, indices) {
        Some(key) => key,
        None => {
            return None;
        },
    };
    let ghost expected = values_view(key@);
    let mut i: usize = 0;
    while i < key.len()
        invariant
            i <= key.len(),
            expected == values_view(key@),
            root_key(row@, indices@) == Some(expected),
            forall|j: int| 0 <= j < i ==> (#[trigger] expected[j]) != ValueView::Null,
        decreases key.len() - i,
    {
        if key[i].is_null() {
            assert(expected[i as int] == ValueView::Null);
            return None;
        }
        assert(expected[i as int] == key@[i as int]@);
        i += 1;
    }
    match ids.get(key.as_slice()) {
        Some(id) => Some(*id),
        None => None,
    }
}

proof fn lemma_candidates_prefix(
    rows: Seq<RowView>,
    indices: Seq<usize>,
    ids: Map<RootKey, u64>,
    k: int,
)
    requires
        0 <= k <= rows.len(),
        candidates_of(rows.take(k), indices, ids) is None,
    ensures
        candidates_of(rows, indices, ids) is None,
    decreases rows.len(),
{
    if k == rows.len() {
        assert(rows.take(k) =~= rows);
    } else {
        assert(rows.drop_last().take(k) =~= rows.take(k));
        lemma_candidates_prefix(rows.drop_last(), indices, ids, k);
    }
}

/// Finds the root rows of a result.
pub fn build_partial_refresh_candidate_rows(
    indices: &[usize],
    ids: &RootTable<u64>,
    rows: &[Row],
) -> (result: Option<Vec<PartialRefreshCandidateRow>>)
    ensures
        match candidates_of(rows_view(rows@), indices@, ids@) {
            Some(candidates) => result is Some && candidates_view(result->0@) == candidates,
            None => result is None,
        },
{
    let ghost views = rows_view(rows@);
    let mut candidates: Vec<PartialRefreshCandidateRow> = Vec::new();
    let mut i: usize = 0;
    assert(views.take(0) =~= Seq::empty());
    assert(candidates_view(candidates@) =~= Seq::empty());
    while i < rows.len()
        invariant
            i <= rows.len(),
            views == rows_view(rows@),
            candidates_of(views.take(i as int), indices@, ids@) == Some(
                candidates_view(candidates@),
            ),
        decreases rows.len() - i,
    {
        let ghost before = candidates_view(candidates@);
        assert(views.take(i + 1).drop_last() =~= views.take(i as int));
        assert(views.take(i + 1).last() == rows@[i as int]@);
        match resolve_root_row_id_for_output_row(indices, ids, &rows[i]) {
            Some(root_row_id) => {
                candidates.push(PartialRefreshCandidateRow { row: rows[i].clone(), root_row_id });
                assert(candidates_view(candidates@) =~= before.push(
                    CandidateView { row: rows@[i as int]@, root_row_id },
                ));
            },
            None => {
                proof {
                    lemma_candidates_prefix(views, indices@, ids@, i + 1);
                }
                return None;
            },
        }
        i += 1;
    }
    assert(views.take(views.len() as int) =~= views);
    Some(candidates)
}

/// The rows of a window that do not come from the affected root rows.
pub open spec fn unaffected(rows: Seq<CandidateView>, affected: Set<u64>) -> Seq<CandidateView>
    decreases rows.len(),
{
    if rows.len() == 0 {
        Seq::empty()
    } else if affected.contains(rows.last().root_row_id) {
        unaffected(rows.drop_last(), affected)
    } else {
        unaffected(rows.drop_last(), affected).push(rows.last())
    }
}

/// The rows in front of a limit.
pub open spec fn limited(rows: Seq<CandidateView>, limit: usize) -> Seq<CandidateView> {
    if limit <= rows.len() {
        rows.take(limit as int)
    } else {
        rows
    }
}

/// The window after the rows of the affected root rows were computed anew.
pub open spec fn refreshed_window(
    metadata: RowsSnapshotPartialRefreshMetadata,
    rows: Seq<CandidateView>,
    affected: Set<u64>,
    recomputed: Seq<CandidateView>,
    facts: FactsView,
) -> StepView<Seq<CandidateView>> {
    match sorted_candidates(
        unaffected(rows, affected) + recomputed,
        metadata.order_keys@,
        facts,
    ) {
        StepView::Done(sorted) => StepView::Done(limited(sorted, metadata.candidate_limit)),
        StepView::Need(request) => StepView::Need(request),
    }
}

/// The rows that the window shows.
pub open spec fn visible_rows(
    metadata: RowsSnapshotPartialRefreshMetadata,
    rows: Seq<CandidateView>,
) -> Seq<RowView> {
    let start = if metadata.visible_offset <= rows.len() {
        metadata.visible_offset as int
    } else {
        rows.len() as int
    };
    let rest = rows.skip(start);
    let shown = if metadata.visible_limit <= rest.len() {
        rest.take(metadata.visible_limit as int)
    } else {
        rest
    };
    shown.map_values(|row: CandidateView| row.row)
}

/// The number of rows that a window needs.
pub open spec fn needed_rows(metadata: RowsSnapshotPartialRefreshMetadata) -> int {
    let sum = metadata.visible_offset + metadata.visible_limit + metadata.overscan;
    if sum <= usize::MAX {
        sum
    } else {
        usize::MAX as int
    }
}

/// Lists the rows that the window shows.
pub fn slice_partial_visible_rows(
    rows: &[PartialRefreshCandidateRow],
    metadata: &RowsSnapshotPartialRefreshMetadata,
) -> (result: Vec<Row>)
    ensures
        rows_view(result@) == visible_rows(*metadata, candidates_view(rows@)),
{
    let ghost views = candidates_view(rows@);
    let start: usize = if metadata.visible_offset <= rows.len() {
        metadata.visible_offset
    } else {
        rows.len()
    };
    let count: usize = if metadata.visible_limit <= rows.len() - start {
        metadata.visible_limit
    } else {
        rows.len() - start
    };
    let mut result: Vec<Row> = Vec::new();
    while result.len() < count
        invariant
            start + count <= rows.len(),
            result.len() <= count,
            forall|j: int|
                0 <= j < result.len() ==> (#[trigger] result@[j])@ == rows@[start + j].row@,
        decreases count - result.len(),
    {
        result.push(rows[start + result.len()].row.clone());
    }
    assert(rows_view(result@) =~= visible_rows(*metadata, views));
    result
}

impl RowsSnapshotPartialRefreshMetadata {
    /// The number of rows that the window needs; the sum stops at the largest number.
    pub fn min_shadow_window(&self) -> (count: usize)
        ensures
            count == needed_rows(*self),
    {
        self.visible_offset.saturating_add(self.visible_limit).saturating_add(self.overscan)
    }
}

/// A window with the rows at hand.
pub struct SnapshotPartialRefreshRuntime {
    pub metadata: RowsSnapshotPartialRefreshMetadata,
    pub candidate_rows: Vec<PartialRefreshCandidateRow>,
}

/// How many rows of a window come from affected root rows.
pub open spec fn affected_rows(rows: Seq<CandidateView>, affected: Set<u64>) -> int {
    rows.len() - unaffected(rows, affected).len()
}

proof fn lemma_unaffected_len(rows: Seq<CandidateView>, affected: Set<u64>)
    ensures
        unaffected(rows, affected).len() <= rows.len(),
    decreases rows.len(),
{
    if rows.len() > 0 {
        lemma_unaffected_len(rows.drop_last(), affected);
    }
}

impl SnapshotPartialRefreshRuntime {
    /// The rows at hand.
    pub open spec fn window(&self) -> Seq<CandidateView> {
        candidates_view(self.candidate_rows@)
    }

    /// Starts with the rows of a result, if each has a root row.
    pub fn new(
        metadata: RowsSnapshotPartialRefreshMetadata,
        ids: &RootTable<u64>,
        initial_candidate_rows: &[Row],
    ) -> (result: Option<Self>)
        ensures
            match candidates_of(
                rows_view(initial_candidate_rows@),
                metadata.root_pk_output_indices@,
                ids@,
            ) {
                Some(candidates) => result is Some && result->0.metadata == metadata
                    && result->0.window() == candidates,
                None => result is None,
            },
    {
        match build_partial_refresh_candidate_rows(
            metadata.root_pk_output_indices.as_slice(),
            ids,
            initial_candidate_rows,
        ) {
            Some(candidate_rows) => Some(
                SnapshotPartialRefreshRuntime { metadata, candidate_rows },
            ),
            None => None,
        }
    }

    /// Copies the rows that do not come from the affected root rows.
    fn unaffected_rows(&self, affected: &RowIdSet) -> (result: Vec<PartialRefreshCandidateRow>)
        ensures
            candidates_view(result@) == unaffected(self.window(), affected@),
    {
        let ghost views = self.window();
        let mut result: Vec<PartialRefreshCandidateRow> = Vec::new();
        let mut i: usize = 0;
        assert(views.take(0) =~= Seq::empty());
        assert(candidates_view(result@) =~= Seq::empty());
        while i < self.candidate_rows.len()
            invariant
                i <= self.candidate_rows.len(),
                views == self.window(),
                candidates_view(result@) == unaffected(views.take(i as int), affected@),
            decreases self.candidate_rows.len() - i,
        {
            let ghost before = candidates_view(result@);
            assert(views.take(i + 1).drop_last() =~= views.take(i as int));
            assert(views.take(i + 1).last() == self.candidate_rows@[i as int]@);
            if !affected.contains(self.candidate_rows[i].root_row_id) {
                result.push(self.candidate_rows[i].clone());
                assert(candidates_view(result@) =~= before.push(self.candidate_rows@[i as int]@));
            }
            i += 1;
        }
        assert(views.take(views.len() as int) =~= views);
        result
    }

    /// Counts the rows that come from affected root rows.
    pub fn affected_candidate_rows(&self, affected: &RowIdSet) -> (count: usize)
        ensures
            count == affected_rows(self.window(), affected@),
    {
        let rest = self.unaffected_rows(affected);
        proof {
            lemma_unaffected_len(self.window(), affected@);
            assert(rest@.len() == candidates_view(rest@).len());
        }
        self.candidate_rows.len() - rest.len()
    }

    /// Sorts the rows that were computed anew into the others.
    pub fn merge(
        &self,
        affected: &RowIdSet,
        recomputed: &[PartialRefreshCandidateRow],
        facts: &EvalFacts,
    ) -> (result: Step<Vec<PartialRefreshCandidateRow>>)
        ensures
            candidates_step(result) == refreshed_window(
                self.metadata,
                self.window(),
                affected@,
                candidates_view(recomputed@),
                facts@,
            ),
    {
        let mut rows = self.unaffected_rows(affected);
        let ghost rest = candidates_view(rows@);
        let ghost added = candidates_view(recomputed@);
        let mut i: usize = 0;
        assert(rest + added.take(0) =~= rest);
        while i < recomputed.len()
            invariant
                i <= recomputed.len(),
                added == candidates_view(recomputed@),
                candidates_view(rows@) == rest + added.take(i as int),
            decreases recomputed.len() - i,
        {
            let ghost before = candidates_view(rows@);
            rows.push(recomputed[i].clone());
            assert(candidates_view(rows@) =~= before.push(added[i as int]));
            assert(before.push(added[i as int]) =~= rest + added.take(i + 1));
            i += 1;
        }
        assert(added.take(added.len() as int) =~= added);
        match sort_candidates(rows.as_slice(), self.metadata.order_keys.as_slice(), facts) {
            Step::Need(request) => Step::Need(request),
            Step::Done(mut sorted) => {
                let ghost all = candidates_view(sorted@);
                if self.metadata.candidate_limit < sorted.len() {
                    sorted.truncate(self.metadata.candidate_limit);
                }
                assert(candidates_view(sorted@) =~= limited(all, self.metadata.candidate_limit));
                Step::Done(sorted)
            },
        }
    }

    /// Tells whether a merged window of the given length has fallen below what the window needs.
    pub fn is_depleted(&self, merged: usize) -> (depleted: bool)
        ensures
            depleted == (merged < needed_rows(self.metadata) && self.window().len()
                >= needed_rows(self.metadata)),
    {
        let needed = self.metadata.min_shadow_window();
        assert(self.window().len() == self.candidate_rows@.len());
        merged < needed && self.candidate_rows.len() >= needed
    }
}

/// The facts order rows, and rows of which none comes after the other are the same row.
pub open spec fn orders_strictly(
    rows: Set<CandidateView>,
    keys: Seq<RowsSnapshotOrderKey>,
    facts: FactsView,
) -> bool {
    &&& orders_rows(rows, keys, facts)
    &&& forall|a: CandidateView, b: CandidateView|
        #![trigger not_after(a, b, keys, facts)]
        rows.contains(a) && rows.contains(b) && not_after(a, b, keys, facts) && not_after(
            b,
            a,
            keys,
            facts,
        ) ==> a == b
}

proof fn lemma_unaffected_parts(
    front: Seq<CandidateView>,
    back: Seq<CandidateView>,
    affected: Set<u64>,
)
    ensures
        unaffected(front + back, affected) == unaffected(front, affected) + unaffected(
            back,
            affected,
        ),
    decreases back.len(),
{
    if back.len() == 0 {
        assert(front + back =~= front);
        assert(unaffected(front, affected) + unaffected(back, affected) =~= unaffected(
            front,
            affected,
        ));
    } else {
        lemma_unaffected_parts(front, back.drop_last(), affected);
        assert((front + back).drop_last() =~= front + back.drop_last());
        assert((front + back).last() == back.last());
        assert(unaffected(front + back, affected) =~= unaffected(front, affected) + unaffected(
            back,
            affected,
        ));
    }
}

proof fn lemma_unaffected_members(rows: Seq<CandidateView>, affected: Set<u64>)
    ensures
        forall|i: int|
            0 <= i < unaffected(rows, affected).len() ==> rows.contains(
                #[trigger] unaffected(rows, affected)[i],
            ),
    decreases rows.len(),
{
    if rows.len() > 0 {
        let shorter = rows.drop_last();
        lemma_unaffected_members(shorter, affected);
        assert forall|i: int| 0 <= i < unaffected(rows, affected).len() implies rows.contains(
            #[trigger] unaffected(rows, affected)[i],
        ) by {
            if i < unaffected(shorter, affected).len() {
                let row = unaffected(shorter, affected)[i];
                assert(shorter.contains(row));
                let k = choose|k: int| 0 <= k < shorter.len() && shorter[k] == row;
                assert(rows[k] == row);
            } else {
                assert(rows[rows.len() - 1] == rows.last());
            }
        }
    }
}

/// One of the rows that sorted rows were made of stands at a position or behind it, if there are
/// more of these rows than positions in front.
proof fn lemma_member_behind(
    sorted: Seq<CandidateView>,
    rows: Seq<CandidateView>,
    others: Seq<CandidateView>,
    at: int,
) -> (k: int)
    requires
        sorted.to_multiset() == rows.to_multiset().add(others.to_multiset()),
        0 <= at < rows.len(),
        at < sorted.len(),
    ensures
        at <= k < sorted.len(),
        rows.contains(sorted[k]),
{
    broadcast use vstd::seq_lib::group_to_multiset_ensures;

    let front = sorted.take(at);
    let back = sorted.skip(at);
    assert(sorted =~= front + back);
    vstd::seq_lib::lemma_multiset_commutative(front, back);
    if forall|i: int| 0 <= i < back.len() ==> !rows.contains(#[trigger] back[i]) {
        assert forall|row: CandidateView| rows.to_multiset().count(row) <= front.to_multiset().count(
            row,
        ) by {
            if rows.contains(row) {
                assert(!back.contains(row));
                assert(back.to_multiset().count(row) == 0);
            } else {
                assert(rows.to_multiset().count(row) == 0);
            }
            assert(sorted.to_multiset().count(row) == front.to_multiset().count(row)
                + back.to_multiset().count(row));
        }
        assert(rows.to_multiset().subset_of(front.to_multiset()));
        assert(front.to_multiset().sub(rows.to_multiset()).len() == front.len() - rows.len());
        assert(false);
    }
    let i = choose|i: int| 0 <= i < back.len() && rows.contains(#[trigger] back[i]);
    assert(sorted[at + i] == back[i]);
    at + i
}

/// Rows that stand behind all the rows of a window do not come into its first places.
proof fn lemma_merged_prefix(
    window: Seq<CandidateView>,
    beyond: Seq<CandidateView>,
    added: Seq<CandidateView>,
    merged: Seq<CandidateView>,
    whole: Seq<CandidateView>,
    all: Set<CandidateView>,
    keys: Seq<RowsSnapshotOrderKey>,
    facts: FactsView,
    count: int,
)
    requires
        merged.to_multiset() == window.to_multiset().add(added.to_multiset()),
        whole.to_multiset() == window.to_multiset().add(beyond.to_multiset()).add(
            added.to_multiset(),
        ),
        in_order(merged, keys, facts),
        in_order(whole, keys, facts),
        orders_strictly(all, keys, facts),
        forall|i: int| 0 <= i < merged.len() ==> all.contains(#[trigger] merged[i]),
        forall|i: int| 0 <= i < whole.len() ==> all.contains(#[trigger] whole[i]),
        forall|i: int, j: int|
            0 <= i < window.len() && 0 <= j < beyond.len() ==> not_after(
                #[trigger] window[i],
                #[trigger] beyond[j],
                keys,
                facts,
            ),
        0 <= count <= window.len(),
    ensures
        count <= merged.len(),
        count <= whole.len(),
        whole.take(count) == merged.take(count),
    decreases count,
{
    broadcast use vstd::seq_lib::group_to_multiset_ensures;

    assert(merged.to_multiset().len() == window.to_multiset().len() + added.to_multiset().len());
    assert(whole.to_multiset().len() == window.to_multiset().len() + beyond.to_multiset().len()
        + added.to_multiset().len());
    if count == 0 {
        assert(whole.take(0) =~= merged.take(0));
    } else {
        let at = count - 1;
        lemma_merged_prefix(window, beyond, added, merged, whole, all, keys, facts, at);
        let left = merged.skip(at);
        let right = whole.skip(at);
        assert(merged =~= merged.take(at) + left);
        assert(whole =~= whole.take(at) + right);
        vstd::seq_lib::lemma_multiset_commutative(merged.take(at), left);
        vstd::seq_lib::lemma_multiset_commutative(whole.take(at), right);
        assert forall|row: CandidateView| right.to_multiset().count(row)
            == left.to_multiset().count(row) + beyond.to_multiset().count(row) by {
            assert(merged.to_multiset().count(row) == merged.take(at).to_multiset().count(row)
                + left.to_multiset().count(row));
            assert(whole.to_multiset().count(row) == whole.take(at).to_multiset().count(row)
                + right.to_multiset().count(row));
        }
        let first = merged[at];
        assert(left[0] == first);
        assert(left.contains(first));
        assert(right.to_multiset().count(first) > 0);
        assert(right.contains(first));
        let j = choose|j: int| 0 <= j < right.len() && right[j] == first;
        assert(whole[at + j] == first);
        let found = whole[at];
        assert(right[0] == found);
        assert(right.contains(found));
        if found != first {
            assert(not_after(found, first, keys, facts));
            if left.contains(found) {
                let k = choose|k: int| 0 <= k < left.len() && left[k] == found;
                assert(merged[at + k] == found);
                assert(not_after(first, found, keys, facts));
            } else {
                assert(left.to_multiset().count(found) == 0);
                assert(right.to_multiset().count(found) > 0);
                assert(beyond.to_multiset().count(found) > 0);
                assert(beyond.contains(found));
                let b = choose|b: int| 0 <= b < beyond.len() && beyond[b] == found;
                let k = lemma_member_behind(merged, window, added, at);
                let behind = merged[k];
                let w = choose|w: int| 0 <= w < window.len() && window[w] == behind;
                assert(not_after(window[w], beyond[b], keys, facts));
                if k > at {
                    assert(not_after(merged[at], merged[k], keys, facts));
                }
                assert(not_after(first, found, keys, facts));
            }
            assert(false);
        }
        assert(whole.take(count) =~= whole.take(at).push(found));
        assert(merged.take(count) =~= merged.take(at).push(first));
    }
}

/// A refresh of a window shows what sorting the whole result anew would show: if the window holds
/// the first rows of the result, of which not more than the overscan are affected, and the rows of
/// the affected root rows are computed anew, the visible rows are those of the whole new result.
pub proof fn law_window_shows_whole_result(
    metadata: RowsSnapshotPartialRefreshMetadata,
    whole: Seq<CandidateView>,
    count: int,
    affected: Set<u64>,
    recomputed: Seq<CandidateView>,
    facts: FactsView,
)
    requires
        0 <= count <= whole.len(),
        count < whole.len() ==> metadata.visible_offset + metadata.visible_limit
            + metadata.overscan <= count,
        metadata.visible_offset + metadata.visible_limit <= metadata.candidate_limit,
        affected_rows(whole.take(count), affected) <= metadata.overscan,
        in_order(whole, metadata.order_keys@, facts),
        orders_strictly(
            whole.to_set().union(recomputed.to_set()),
            metadata.order_keys@,
            facts,
        ),
        refreshed_window(metadata, whole.take(count), affected, recomputed, facts) is Done,
        sorted_candidates(
            unaffected(whole, affected) + recomputed,
            metadata.order_keys@,
            facts,
        ) is Done,
    ensures
        visible_rows(
            metadata,
            refreshed_window(metadata, whole.take(count), affected, recomputed, facts)->Done_0,
        ) == visible_rows(
            metadata,
            sorted_candidates(
                unaffected(whole, affected) + recomputed,
                metadata.order_keys@,
                facts,
            )->Done_0,
        ),
{
    broadcast use vstd::seq_lib::group_to_multiset_ensures;

    let keys = metadata.order_keys@;
    let front = whole.take(count);
    let back = whole.skip(count);
    let window = unaffected(front, affected);
    let beyond = unaffected(back, affected);
    let rest = unaffected(whole, affected);
    let all = whole.to_set().union(recomputed.to_set());
    assert(whole =~= front + back);
    lemma_unaffected_parts(front, back, affected);
    lemma_unaffected_members(front, affected);
    lemma_unaffected_members(back, affected);
    lemma_unaffected_members(whole, affected);
    let merged = sorted_candidates(window + recomputed, keys, facts)->Done_0;
    let sorted = sorted_candidates(rest + recomputed, keys, facts)->Done_0;
    assert forall|i: int| 0 <= i < (window + recomputed).len() implies all.contains(
        #[trigger] (window + recomputed)[i],
    ) by {
        if i < window.len() {
            assert(front.contains(window[i]));
            let k = choose|k: int| 0 <= k < front.len() && front[k] == window[i];
            assert(whole[k] == window[i]);
        } else {
            assert(recomputed.contains(recomputed[i - window.len()]));
        }
    }
    assert forall|i: int| 0 <= i < (rest + recomputed).len() implies all.contains(
        #[trigger] (rest + recomputed)[i],
    ) by {
        if i < rest.len() {
            assert(whole.contains(rest[i]));
        } else {
            assert(recomputed.contains(recomputed[i - rest.len()]));
        }
    }
    lemma_sorted(window + recomputed, all, keys, facts);
    lemma_sorted(rest + recomputed, all, keys, facts);
    law_sorting_keeps_rows(window + recomputed, keys, facts);
    law_sorting_keeps_rows(rest + recomputed, keys, facts);
    let shown = metadata.visible_offset + metadata.visible_limit;
    if count == whole.len() {
        assert(front =~= whole);
    } else {
        vstd::seq_lib::lemma_multiset_commutative(window, recomputed);
        vstd::seq_lib::lemma_multiset_commutative(rest, recomputed);
        vstd::seq_lib::lemma_multiset_commutative(window, beyond);
        assert forall|i: int, j: int|
            0 <= i < window.len() && 0 <= j < beyond.len() implies not_after(
            #[trigger] window[i],
            #[trigger] beyond[j],
            keys,
            facts,
        ) by {
            assert(front.contains(window[i]));
            assert(back.contains(beyond[j]));
            let k = choose|k: int| 0 <= k < front.len() && front[k] == window[i];
            let m = choose|m: int| 0 <= m < back.len() && back[m] == beyond[j];
            assert(whole[k] == window[i] && whole[count + m] == beyond[j]);
            assert(not_after(whole[k], whole[count + m], keys, facts));
        }
        lemma_merged_prefix(
            window,
            beyond,
            recomputed,
            merged,
            sorted,
            all,
            keys,
            facts,
            shown,
        );
    }
    let limit = limited(merged, metadata.candidate_limit);
    let left = visible_rows(metadata, limit);
    let right = visible_rows(metadata, sorted);
    assert forall|i: int| 0 <= i < shown && i < limit.len() implies limit[i] == sorted[i] by {
        if count < whole.len() {
            assert(merged.take(shown)[i] == sorted.take(shown)[i]);
        }
    }
    assert(left =~= right);
}

/// A value stands in front of another one in a column that is ordered in a direction: the smaller one
/// in ascending order, and the larger one in descending order.
pub open spec fn leads(left: ValueView, right: ValueView, order: SortOrder) -> bool {
    match order {
        SortOrder::Asc => value_precedes(left, right),
        SortOrder::Desc => value_precedes(right, left),
    }
}

/// Two rows have the column of an order key, with values of one kind.
pub open spec fn comparable_in(
    left: CandidateView,
    right: CandidateView,
    key: RowsSnapshotOrderKey,
) -> bool {
    &&& key.output_index < left.row.values.len()
    &&& key.output_index < right.row.values.len()
    &&& same_kind(
        left.row.values[key.output_index as int],
        right.row.values[key.output_index as int],
    )
}

/// The value of a row in the column of an order key.
pub open spec fn key_value(row: CandidateView, key: RowsSnapshotOrderKey) -> ValueView {
    row.row.values[key.output_index as int]
}

/// The first order key in which two rows differ decides between them: the row with the smaller value
/// comes first in ascending order, and the row with the larger value in descending order. For whole
/// numbers this is their order as numbers.
pub proof fn law_first_difference_decides(
    left: CandidateView,
    right: CandidateView,
    keys: Seq<RowsSnapshotOrderKey>,
    k: int,
    facts: FactsView,
)
    requires
        0 <= k < keys.len(),
        forall|i: int| 0 <= i <= k ==> comparable_in(left, right, #[trigger] keys[i]),
        forall|i: int|
            0 <= i < k ==> key_value(left, #[trigger] keys[i]) == key_value(right, keys[i]),
        key_value(left, keys[k]) != key_value(right, keys[k]),
    ensures
        candidate_order(left, right, keys, facts) == StepView::Done(
            if leads(key_value(left, keys[k]), key_value(right, keys[k]), keys[k].order) {
                Comparison::Less
            } else {
                Comparison::Greater
            },
        ),
        leads(key_value(left, keys[k]), key_value(right, keys[k]), keys[k].order) != leads(
            key_value(right, keys[k]),
            key_value(left, keys[k]),
            keys[k].order,
        ),
        match (key_value(left, keys[k]), key_value(right, keys[k]), keys[k].order) {
            (ValueView::Int64(a), ValueView::Int64(b), SortOrder::Asc) => candidate_order(
                left,
                right,
                keys,
                facts,
            ) == StepView::Done(Comparison::Less) <==> a < b,
            (ValueView::Int64(a), ValueView::Int64(b), SortOrder::Desc) => candidate_order(
                left,
                right,
                keys,
                facts,
            ) == StepView::Done(Comparison::Less) <==> a > b,
            _ => true,
        },
    decreases k,
{
    assert(comparable_in(left, right, keys[0]));
    law_values_compare_by_value(key_value(left, keys[0]), key_value(right, keys[0]));
    law_values_compare_by_value(key_value(right, keys[0]), key_value(left, keys[0]));
    law_values_compare_by_value(key_value(left, keys[k]), key_value(right, keys[k]));
    law_value_order_is_strict(
        key_value(left, keys[k]),
        key_value(right, keys[k]),
        key_value(left, keys[k]),
    );
    if k > 0 {
        let rest = keys.skip(1);
        assert forall|i: int| 0 <= i <= k - 1 implies comparable_in(
            left,
            right,
            #[trigger] rest[i],
        ) by {
            assert(comparable_in(left, right, keys[i + 1]));
        }
        assert forall|i: int| 0 <= i < k - 1 implies key_value(left, #[trigger] rest[i])
            == key_value(right, rest[i]) by {
            assert(key_value(left, keys[i + 1]) == key_value(right, keys[i + 1]));
        }
        law_first_difference_decides(left, right, rest, k - 1, facts);
    }
}

/// Rows that are equal in all order keys stand by the identifiers of their root rows.
pub proof fn law_equal_keys_leave_the_root_rows(
    left: CandidateView,
    right: CandidateView,
    keys: Seq<RowsSnapshotOrderKey>,
    facts: FactsView,
)
    requires
        forall|i: int| 0 <= i < keys.len() ==> comparable_in(left, right, #[trigger] keys[i]),
        forall|i: int|
            0 <= i < keys.len() ==> key_value(left, #[trigger] keys[i]) == key_value(
                right,
                keys[i],
            ),
        left.root_row_id != right.root_row_id,
    ensures
        candidate_order(left, right, keys, facts) == StepView::Done(
            if left.root_row_id < right.root_row_id {
                Comparison::Less
            } else {
                Comparison::Greater
            },
        ),
    decreases keys.len(),
{
    if keys.len() > 0 {
        assert(comparable_in(left, right, keys[0]));
        law_values_compare_by_value(key_value(left, keys[0]), key_value(right, keys[0]));
        let rest = keys.skip(1);
        assert forall|i: int| 0 <= i < rest.len() implies comparable_in(
            left,
            right,
            #[trigger] rest[i],
        ) by {
            assert(comparable_in(left, right, keys[i + 1]));
        }
        assert forall|i: int| 0 <= i < rest.len() implies key_value(left, #[trigger] rest[i])
            == key_value(right, rest[i]) by {
            assert(key_value(left, keys[i + 1]) == key_value(right, keys[i + 1]));
        }
        law_equal_keys_leave_the_root_rows(left, right, rest, facts);
    }
}

/// All rows of a list have the column of an order key, with values of one kind.
pub open spec fn all_comparable(rows: Seq<CandidateView>, key: RowsSnapshotOrderKey) -> bool {
    forall|i: int, j: int|
        0 <= i < rows.len() && 0 <= j < rows.len() ==> comparable_in(
            #[trigger] rows[i],
            #[trigger] rows[j],
            key,
        )
}

/// The values in the column of an order key stand in its direction: no value stands behind one that
/// it leads.
pub open spec fn follows_key(rows: Seq<CandidateView>, key: RowsSnapshotOrderKey) -> bool {
    forall|i: int, j: int|
        0 <= i < j < rows.len() ==> !leads(
            key_value(#[trigger] rows[j], key),
            key_value(#[trigger] rows[i], key),
            key.order,
        )
}

proof fn lemma_order_respects_first_key(
    left: CandidateView,
    right: CandidateView,
    keys: Seq<RowsSnapshotOrderKey>,
    facts: FactsView,
)
    requires
        keys.len() > 0,
        comparable_in(left, right, keys[0]),
    ensures
        leads(key_value(left, keys[0]), key_value(right, keys[0]), keys[0].order)
            ==> candidate_order(left, right, keys, facts) == StepView::Done(Comparison::Less),
        leads(key_value(right, keys[0]), key_value(left, keys[0]), keys[0].order)
            ==> candidate_order(left, right, keys, facts) == StepView::Done(Comparison::Greater),
{
    law_values_compare_by_value(key_value(left, keys[0]), key_value(right, keys[0]));
    law_value_order_is_strict(
        key_value(left, keys[0]),
        key_value(right, keys[0]),
        key_value(left, keys[0]),
    );
    if key_value(left, keys[0]) != key_value(right, keys[0]) {
        law_first_difference_decides(left, right, keys, 0, facts);
    }
}

proof fn lemma_position_respects_first_key(
    sorted: Seq<CandidateView>,
    row: CandidateView,
    keys: Seq<RowsSnapshotOrderKey>,
    facts: FactsView,
)
    requires
        keys.len() > 0,
        candidate_position(sorted, row, keys, facts) is Done,
        forall|i: int| 0 <= i < sorted.len() ==> comparable_in(#[trigger] sorted[i], row, keys[0]),
    ensures
        ({
            let at = candidate_position(sorted, row, keys, facts)->Done_0;
            &&& 0 <= at <= sorted.len()
            &&& forall|i: int|
                0 <= i < at ==> !leads(
                    key_value(row, keys[0]),
                    key_value(#[trigger] sorted[i], keys[0]),
                    keys[0].order,
                )
            &&& at < sorted.len() ==> !leads(
                key_value(sorted[at], keys[0]),
                key_value(row, keys[0]),
                keys[0].order,
            )
        }),
    decreases sorted.len(),
{
    if sorted.len() > 0 {
        assert(comparable_in(sorted[0], row, keys[0]));
        lemma_order_respects_first_key(sorted[0], row, keys, facts);
        if candidate_order(sorted[0], row, keys, facts) != StepView::Done(Comparison::Greater) {
            let rest = sorted.skip(1);
            assert forall|i: int| 0 <= i < rest.len() implies comparable_in(
                #[trigger] rest[i],
                row,
                keys[0],
            ) by {
                assert(comparable_in(sorted[i + 1], row, keys[0]));
            }
            lemma_position_respects_first_key(rest, row, keys, facts);
            let at = candidate_position(sorted, row, keys, facts)->Done_0;
            assert forall|i: int| 0 <= i < at implies !leads(
                key_value(row, keys[0]),
                key_value(#[trigger] sorted[i], keys[0]),
                keys[0].order,
            ) by {
                if i > 0 {
                    assert(rest[i - 1] == sorted[i]);
                }
            }
        }
    }
}

/// A sorted window shows the first order key: in an ascending column the values never decrease, and
/// in a descending one they never increase. This is said of the values of the column alone.
pub proof fn law_sorting_follows_first_key(
    rows: Seq<CandidateView>,
    keys: Seq<RowsSnapshotOrderKey>,
    facts: FactsView,
)
    requires
        keys.len() > 0,
        sorted_candidates(rows, keys, facts) is Done,
        all_comparable(rows, keys[0]),
    ensures
        follows_key(sorted_candidates(rows, keys, facts)->Done_0, keys[0]),
        all_comparable(sorted_candidates(rows, keys, facts)->Done_0, keys[0]),
    decreases rows.len(),
{
    broadcast use vstd::seq_lib::group_to_multiset_ensures;

    if rows.len() > 0 {
        let shorter = rows.drop_last();
        let row = rows.last();
        let key = keys[0];
        let last = rows.len() - 1;
        assert forall|i: int, j: int|
            0 <= i < shorter.len() && 0 <= j < shorter.len() implies comparable_in(
            #[trigger] shorter[i],
            #[trigger] shorter[j],
            key,
        ) by {
            assert(comparable_in(rows[i], rows[j], key));
        }
        law_sorting_follows_first_key(shorter, keys, facts);
        law_sorting_keeps_rows(shorter, keys, facts);
        law_sorting_keeps_rows(rows, keys, facts);
        let before = sorted_candidates(shorter, keys, facts)->Done_0;
        let sorted = sorted_candidates(rows, keys, facts)->Done_0;
        assert forall|i: int| 0 <= i < before.len() implies comparable_in(
            #[trigger] before[i],
            row,
            key,
        ) by {
            assert(before.contains(before[i]));
            assert(shorter.to_multiset().count(before[i]) > 0);
            let k = choose|k: int| 0 <= k < shorter.len() && shorter[k] == before[i];
            assert(comparable_in(rows[k], rows[last], key));
        }
        lemma_position_respects_first_key(before, row, keys, facts);
        let at = candidate_position(before, row, keys, facts)->Done_0;
        assert(sorted == before.insert(at, row));
        assert forall|i: int, j: int|
            0 <= i < sorted.len() && 0 <= j < sorted.len() implies comparable_in(
            #[trigger] sorted[i],
            #[trigger] sorted[j],
            key,
        ) by {
            assert(sorted.contains(sorted[i]) && sorted.contains(sorted[j]));
            assert(rows.to_multiset().count(sorted[i]) > 0);
            assert(rows.to_multiset().count(sorted[j]) > 0);
            let k = choose|k: int| 0 <= k < rows.len() && rows[k] == sorted[i];
            let m = choose|m: int| 0 <= m < rows.len() && rows[m] == sorted[j];
            assert(comparable_in(rows[k], rows[m], key));
        }
        assert forall|i: int, j: int| 0 <= i < j < sorted.len() implies !leads(
            key_value(#[trigger] sorted[j], key),
            key_value(#[trigger] sorted[i], key),
            key.order,
        ) by {
            if j < at {
                assert(sorted[i] == before[i] && sorted[j] == before[j]);
            } else if i > at {
                assert(sorted[i] == before[i - 1] && sorted[j] == before[j - 1]);
            } else if j == at {
                assert(sorted[i] == before[i]);
            } else if i == at {
                assert(sorted[j] == before[j - 1]);
                assert(comparable_in(before[at], row, key));
                assert(comparable_in(before[j - 1], row, key));
                law_value_order_is_strict(
                    key_value(before[j - 1], key),
                    key_value(before[at], key),
                    key_value(row, key),
                );
                law_value_order_is_strict(
                    key_value(row, key),
                    key_value(before[at], key),
                    key_value(before[j - 1], key),
                );
            } else {
                assert(sorted[i] == before[i] && sorted[j] == before[j - 1]);
            }
        }
    }
}

/// The rows that a refreshed window shows follow its first order key: the values of an ascending
/// column never decrease from row to row, and those of a descending one never increase.
pub proof fn law_window_follows_first_key(
    metadata: RowsSnapshotPartialRefreshMetadata,
    rows: Seq<CandidateView>,
    affected: Set<u64>,
    recomputed: Seq<CandidateView>,
    facts: FactsView,
    i: int,
    j: int,
)
    requires
        metadata.order_keys@.len() > 0,
        refreshed_window(metadata, rows, affected, recomputed, facts) is Done,
        all_comparable(unaffected(rows, affected) + recomputed, metadata.order_keys@[0]),
        0 <= i < j < visible_rows(
            metadata,
            refreshed_window(metadata, rows, affected, recomputed, facts)->Done_0,
        ).len(),
    ensures
        ({
            let key = metadata.order_keys@[0];
            let shown = visible_rows(
                metadata,
                refreshed_window(metadata, rows, affected, recomputed, facts)->Done_0,
            );
            let first = shown[i].values[key.output_index as int];
            let second = shown[j].values[key.output_index as int];
            &&& key.output_index < shown[i].values.len()
            &&& key.output_index < shown[j].values.len()
            &&& !leads(second, first, key.order)
            &&& match (first, second, key.order) {
                (ValueView::Int32(a), ValueView::Int32(b), SortOrder::Asc) => a <= b,
                (ValueView::Int32(a), ValueView::Int32(b), SortOrder::Desc) => a >= b,
                (ValueView::Int64(a), ValueView::Int64(b), SortOrder::Asc) => a <= b,
                (ValueView::Int64(a), ValueView::Int64(b), SortOrder::Desc) => a >= b,
                _ => true,
            }
        }),
{
    let keys = metadata.order_keys@;
    let all = unaffected(rows, affected) + recomputed;
    law_sorting_follows_first_key(all, keys, facts);
    let sorted = sorted_candidates(all, keys, facts)->Done_0;
    let window = refreshed_window(metadata, rows, affected, recomputed, facts)->Done_0;
    let start = if metadata.visible_offset <= window.len() {
        metadata.visible_offset as int
    } else {
        window.len() as int
    };
    let shown = visible_rows(metadata, window);
    assert(shown[i] == window[start + i].row && shown[j] == window[start + j].row);
    assert(window[start + i] == sorted[start + i] && window[start + j] == sorted[start + j]);
    assert(comparable_in(sorted[start + i], sorted[start + j], keys[0]));
}

proof fn lemma_unaffected_count(
    rows: Seq<CandidateView>,
    affected: Set<u64>,
    row: CandidateView,
)
    ensures
        unaffected(rows, affected).to_multiset().count(row) == (if affected.contains(
            row.root_row_id,
        ) {
            0
        } else {
            rows.to_multiset().count(row)
        }),
    decreases rows.len(),
{
    broadcast use vstd::seq_lib::group_to_multiset_ensures;

    if rows.len() > 0 {
        let shorter = rows.drop_last();
        lemma_unaffected_count(shorter, affected, row);
        assert(rows =~= shorter.push(rows.last()));
        assert(unaffected(rows, affected) =~= unaffected(shorter, affected) || unaffected(
            rows,
            affected,
        ) =~= unaffected(shorter, affected).push(rows.last()));
    }
}

/// A refreshed window holds the rows of root rows that are not affected and the rows that were
/// computed anew, each as often as it came, and none of the old rows of affected root rows. Of more
/// rows than the window takes it holds the first ones.
pub proof fn law_refreshed_window_replaces_affected_rows(
    metadata: RowsSnapshotPartialRefreshMetadata,
    rows: Seq<CandidateView>,
    affected: Set<u64>,
    recomputed: Seq<CandidateView>,
    facts: FactsView,
    row: CandidateView,
)
    requires
        refreshed_window(metadata, rows, affected, recomputed, facts) is Done,
    ensures
        ({
            let window = refreshed_window(metadata, rows, affected, recomputed, facts)->Done_0;
            let stayed: nat = if affected.contains(row.root_row_id) {
                0
            } else {
                rows.to_multiset().count(row)
            };
            let all = stayed + recomputed.to_multiset().count(row);
            &&& window.len() <= metadata.candidate_limit
            &&& window.to_multiset().count(row) <= all
            &&& window.len() < metadata.candidate_limit ==> window.to_multiset().count(row) == all
        }),
{
    broadcast use vstd::seq_lib::group_to_multiset_ensures;

    let front = unaffected(rows, affected);
    let keys = metadata.order_keys@;
    law_sorting_keeps_rows(front + recomputed, keys, facts);
    lemma_unaffected_count(rows, affected, row);
    vstd::seq_lib::lemma_multiset_commutative(front, recomputed);
    let sorted = sorted_candidates(front + recomputed, keys, facts)->Done_0;
    let window = refreshed_window(metadata, rows, affected, recomputed, facts)->Done_0;
    let rest = sorted.skip(window.len() as int);
    assert(sorted =~= window + rest);
    vstd::seq_lib::lemma_multiset_commutative(window, rest);
    assert(sorted.to_multiset().count(row) == front.to_multiset().count(row)
        + recomputed.to_multiset().count(row));
    assert((window + rest).to_multiset().count(row) == window.to_multiset().count(row)
        + rest.to_multiset().count(row));
    if window.len() < metadata.candidate_limit {
        assert(window =~= sorted);
    }
}

/// A window shows its rows from the offset on, as many as the limit allows and no fewer than there
/// are.
pub proof fn law_window_shows_its_slice(
    metadata: RowsSnapshotPartialRefreshMetadata,
    rows: Seq<CandidateView>,
    i: int,
)
    ensures
        visible_rows(metadata, rows).len() <= metadata.visible_limit,
        0 <= i < metadata.visible_limit && metadata.visible_offset + i < rows.len() ==> {
            &&& i < visible_rows(metadata, rows).len()
            &&& visible_rows(metadata, rows)[i] == rows[metadata.visible_offset + i].row
        },
        metadata.visible_offset >= rows.len() ==> visible_rows(metadata, rows).len() == 0,
        metadata.visible_offset <= rows.len() ==> visible_rows(metadata, rows).len()
            <= rows.len() - metadata.visible_offset,
{
}

/// The rows of a window are the rows of the result in their order, each with the root row whose key
/// it holds.
pub proof fn law_candidates_come_from_their_roots(
    rows: Seq<RowView>,
    indices: Seq<usize>,
    ids: Map<RootKey, u64>,
    at: int,
)
    requires
        0 <= at < rows.len(),
    ensures
        candidates_of(rows, indices, ids) matches Some(candidates) ==> {
            &&& candidates.len() == rows.len()
            &&& candidates[at].row == rows[at]
            &&& root_key(rows[at], indices) matches Some(key)
            &&& ids.dom().contains(key)
            &&& candidates[at].root_row_id == ids[key]
        },
        root_key(rows[at], indices) is None ==> candidates_of(rows, indices, ids) is None,
        root_key(rows[at], indices) matches Some(key) ==> (!ids.dom().contains(key)
            || key.contains(ValueView::Null) ==> candidates_of(rows, indices, ids) is None),
    decreases rows.len(),
{
    let front = rows.drop_last();
    lemma_candidates_len(front, indices, ids);
    if at < rows.len() - 1 {
        law_candidates_come_from_their_roots(front, indices, ids, at);
        assert(front[at] == rows[at]);
    }
}

proof fn lemma_candidates_len(rows: Seq<RowView>, indices: Seq<usize>, ids: Map<RootKey, u64>)
    ensures
        candidates_of(rows, indices, ids) matches Some(candidates) ==> candidates.len()
            == rows.len(),
    decreases rows.len(),
{
    if rows.len() > 0 {
        lemma_candidates_len(rows.drop_last(), indices, ids);
    }
}

/// The rows of a window that are affected are those that come from an affected root row: a window
/// has as many more of them as one more row adds.
pub proof fn law_affected_rows_are_counted(
    rows: Seq<CandidateView>,
    affected: Set<u64>,
    row: CandidateView,
)
    ensures
        affected_rows(Seq::empty(), affected) == 0,
        affected_rows(rows.push(row), affected) == affected_rows(rows, affected) + (
        if affected.contains(row.root_row_id) {
            1int
        } else {
            0
        }),
{
    assert(rows.push(row).drop_last() =~= rows);
}

/// A window needs as many rows as stand in front of what it shows, as it shows and as it has to
/// spare.
pub proof fn law_windows_need_their_rows(metadata: RowsSnapshotPartialRefreshMetadata, rows: int)
    requires
        0 <= rows <= usize::MAX,
    ensures
        rows < needed_rows(metadata) ==> rows < metadata.visible_offset + metadata.visible_limit
            + metadata.overscan,
        rows >= metadata.visible_offset + metadata.visible_limit + metadata.overscan ==> rows
            >= needed_rows(metadata),
        metadata.visible_offset + metadata.visible_limit + metadata.overscan <= usize::MAX && rows
            < metadata.visible_offset + metadata.visible_limit + metadata.overscan ==> rows
            < needed_rows(metadata),
{
}

} // verus!
