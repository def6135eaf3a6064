//! Propagation of row changes along joins to the root table of a query.
//!
//! Changed rows of a table affect the rows of the tables that it is joined with, and in the end
//! rows of the root table. The search for them alternates with reads of the stored rows, which
//! the caller makes: [`AffectedRoots::advance`] takes the answer to the last question and gives
//! the next one.
use vstd::prelude::*;

use crate::collections::RowIdSet;
use crate::eval::{find_truth, plain_step, truth_of, Step, StepView};
use crate::facts::{known, AnswerView, EvalFacts, EvalRequest, FactsView, RequestView};
use crate::root_subset::RootKeySet;
use crate::row::{rows_view, Row, RowView};
use crate::schema::TableId;
use crate::tables::IdTable;
use crate::value::{values_view, Value, ValueView};

verus! {

/// How the rows with a value in a column are found.
#[derive(Debug)]
pub enum RowsSnapshotLookupPrimitive {
    PrimaryKey,
    SingleColumnIndex { index_name: String },
    ScanFallback,
}

/// A join seen from one of its tables.
#[derive(Debug)]
pub struct RowsSnapshotDirectedJoinEdge {
    pub source_column_index: usize,
    pub target_table_id: TableId,
    pub target_table: String,
    pub target_column_index: usize,
    pub lookup: RowsSnapshotLookupPrimitive,
}

/// The joins of a query.
pub struct RowsSnapshotDependencyGraph {
    pub root_table_id: TableId,
    pub table_names: IdTable<String>,
    pub edges_by_source: IdTable<Vec<RowsSnapshotDirectedJoinEdge>>,
}

impl RowsSnapshotDependencyGraph {
    /// A table of the query.
    pub open spec fn has_table(&self, table: u64) -> bool {
        self.table_names@.dom().contains(table)
    }

    /// A number that stands for a table of the query.
    pub open spec fn is_relevant(&self, table: u64) -> bool {
        table <= u32::MAX && self.has_table(table)
    }

    /// The joins of a table.
    pub open spec fn edges(&self, table: u64) -> Seq<RowsSnapshotDirectedJoinEdge> {
        if self.edges_by_source@.dom().contains(table) {
            self.edges_by_source@[table]@
        } else {
            Seq::empty()
        }
    }

    /// The name of a table of the query.
    pub fn table_name(&self, table_id: TableId) -> (name: Option<&str>)
        ensures
            match name {
                Some(name) => self.has_table(table_id as u64) && name@
                    == self.table_names@[table_id as u64]@,
                None => !self.has_table(table_id as u64),
            },
    {
        match self.table_names.get(table_id as u64) {
            Some(name) => Some(name.as_str()),
            None => None,
        }
    }

    /// The joins of a table.
    pub fn edges_from(&self, table_id: TableId) -> (edges: &[RowsSnapshotDirectedJoinEdge])
        ensures
            edges@ == self.edges(table_id as u64),
    {
        match self.edges_by_source.get(table_id as u64) {
            Some(edges) => edges.as_slice(),
            None => &[],
        }
    }
}

/// The values of a column that rows are joined by: each value once, in the order of the rows,
/// without null.
pub open spec fn join_values(rows: Seq<RowView>, column: usize) -> Seq<ValueView>
    decreases rows.len(),
{
    if rows.len() == 0 {
        Seq::empty()
    } else {
        let before = join_values(rows.drop_last(), column);
        let row = rows.last();
        if column < row.values.len() && row.values[column as int] != ValueView::Null
            && !before.contains(row.values[column as int]) {
            before.push(row.values[column as int])
        } else {
            before
        }
    }
}

fn add_join_values(
    values: &mut Vec<Value>,
    seen: &mut RootKeySet,
    rows: &[Row],
    column_index: usize,
    Ghost(earlier): Ghost<Seq<RowView>>,
)
    requires
        values_view(old(values)@) == join_values(earlier, column_index),
        forall|value: ValueView| #[trigger]
            old(seen)@.contains(seq![value]) <==> values_view(old(values)@).contains(value),
    ensures
        values_view(final(values)@) == join_values(earlier + rows_view(rows@), column_index),
        forall|value: ValueView| #[trigger]
            final(seen)@.contains(seq![value]) <==> values_view(final(values)@).contains(value),
{
    let ghost views = rows_view(rows@);
    let mut i: usize = 0;
    assert(earlier + views.take(0) =~= earlier);
    while i < rows.len()
        invariant
            i <= rows.len(),
            views == rows_view(rows@),
            values_view(values@) == join_values(earlier + views.take(i as int), column_index),
            forall|value: ValueView| #[trigger]
                seen@.contains(seq![value]) <==> values_view(values@).contains(value),
        decreases rows.len() - i,
    {
        let ghost longer = earlier + views.take(i + 1);
        assert(longer.drop_last() =~= earlier + views.take(i as int));
        assert(longer.last() == rows@[i as int]@);
        if let Some(value) = rows[i].get(column_index) {
            if !value.is_null() {
                let mut key: Vec<Value> = Vec::new();
                key.push(value.clone());
                assert(values_view(key@) =~= seq![value@]);
                if !seen.contains(key.as_slice()) {
                    let ghost before = values_view(values@);
                    let ghost seen_before = seen@;
                    values.push(value.clone());
                    seen.insert(key);
                    proof {
                        assert(values_view(values@) =~= before.push(value@));
                        assert forall|other: ValueView| #[trigger]
                            seen@.contains(seq![other]) <==> values_view(values@).contains(
                            other,
                        ) by {
                            assert(seq![other][0] == other);
                            if seq![other] == seq![value@] {
                                assert(seq![other][0] == seq![value@][0]);
                            }
                            if before.contains(other) {
                                let k = choose|k: int|
                                    0 <= k < before.len() && before[k] == other;
                                assert(before.push(value@)[k] == other);
                            }
                            if other == value@ {
                                assert(before.push(value@)[before.len() as int] == other);
                            }
                            if before.push(value@).contains(other) {
                                let k = choose|k: int|
                                    0 <= k < before.len() + 1 && before.push(value@)[k] == other;
                                if k < before.len() {
                                    assert(before[k] == other);
                                }
                            }
                        }
                    }
                }
            }
        }
        i += 1;
    }
    assert(views.take(views.len() as int) =~= views);
}

/// The values that rows are joined by, in stored rows and in changed ones.
pub fn collect_join_values_by_row_ids_and_deltas(
    rows: &[Row],
    deltas: &[Row],
    column_index: usize,
) -> (values: Vec<Value>)
    ensures
        values_view(values@) == join_values(rows_view(rows@) + rows_view(deltas@), column_index),
{
    let mut values: Vec<Value> = Vec::new();
    let mut seen = RootKeySet::new();
    assert(values_view(values@) =~= Seq::empty());
    add_join_values(&mut values, &mut seen, rows, column_index, Ghost(Seq::empty()));
    assert(Seq::<RowView>::empty() + rows_view(rows@) =~= rows_view(rows@));
    add_join_values(&mut values, &mut seen, deltas, column_index, Ghost(rows_view(rows@)));
    values
}

/// Whether a value equals one of the given values. Those behind the first one that it equals are
/// not compared.
pub open spec fn equals_any(value: ValueView, values: Seq<ValueView>, facts: FactsView) -> StepView<
    bool,
>
    decreases values.len(),
{
    if values.len() == 0 {
        StepView::Done(false)
    } else {
        match equals_any(value, values.drop_last(), facts) {
            StepView::Done(false) => truth_of(
                RequestView::Equals { left: value, right: values.last() },
                facts,
            ),
            step => step,
        }
    }
}

/// The identifiers of the rows that hold one of the given values in a column, in the order of the
/// rows.
pub open spec fn ids_with_values(
    rows: Seq<RowView>,
    column: usize,
    values: Seq<ValueView>,
    facts: FactsView,
) -> StepView<Seq<u64>>
    decreases rows.len(),
{
    if rows.len() == 0 {
        StepView::Done(Seq::empty())
    } else {
        match ids_with_values(rows.drop_last(), column, values, facts) {
            StepView::Done(before) => {
                let row = rows.last();
                let found = if column < row.values.len() {
                    equals_any(row.values[column as int], values, facts)
                } else {
                    StepView::Done(false)
                };
                match found {
                    StepView::Done(found) => StepView::Done(
                        if found {
                            before.push(row.id)
                        } else {
                            before
                        },
                    ),
                    StepView::Need(request) => StepView::Need(request),
                }
            },
            step => step,
        }
    }
}

/// What a search for row identifiers came to.
pub open spec fn ids_step(step: Step<Vec<u64>>) -> StepView<Seq<u64>> {
    match step {
        Step::Done(ids) => StepView::Done(ids@),
        Step::Need(request) => StepView::Need(request@),
    }
}

proof fn lemma_equals_any_prefix(
    value: ValueView,
    values: Seq<ValueView>,
    facts: FactsView,
    k: int,
)
    requires
        0 <= k <= values.len(),
        equals_any(value, values.take(k), facts) != StepView::<bool>::Done(false),
    ensures
        equals_any(value, values, facts) == equals_any(value, values.take(k), facts),
    decreases values.len(),
{
    if k == values.len() {
        assert(values.take(k) =~= values);
    } else {
        assert(values.drop_last().take(k) =~= values.take(k));
        lemma_equals_any_prefix(value, values.drop_last(), facts, k);
    }
}

proof fn lemma_ids_with_values_prefix(
    rows: Seq<RowView>,
    column: usize,
    values: Seq<ValueView>,
    facts: FactsView,
    k: int,
)
    requires
        0 <= k <= rows.len(),
        ids_with_values(rows.take(k), column, values, facts) is Need,
    ensures
        ids_with_values(rows, column, values, facts) == ids_with_values(
            rows.take(k),
            column,
            values,
            facts,
        ),
    decreases rows.len(),
{
    if k == rows.len() {
        assert(rows.take(k) =~= rows);
    } else {
        assert(rows.drop_last().take(k) =~= rows.take(k));
        lemma_ids_with_values_prefix(rows.drop_last(), column, values, facts, k);
    }
}

fn value_equals_any(value: &Value, values: &[Value], facts: &EvalFacts) -> (result: Step<bool>)
    ensures
        plain_step(result) == equals_any(value@, values_view(values@), facts@),
{
    let ghost views = values_view(values@);
    let mut i: usize = 0;
    assert(views.take(0) =~= Seq::empty());
    while i < values.len()
        invariant
            i <= values.len(),
            views == values_view(values@),
            equals_any(value@, views.take(i as int), facts@) == StepView::<bool>::Done(false),
        decreases values.len() - i,
    {
        assert(views.take(i + 1).drop_last() =~= views.take(i as int));
        assert(views.take(i + 1).last() == values@[i as int]@);
        match find_truth(
            EvalRequest::Equals { left: value.clone(), right: values[i].clone() },
            facts,
        ) {
            Step::Done(false) => {},
            decided => {
                proof {
                    lemma_equals_any_prefix(value@, views, facts@, i + 1);
                }
                return decided;
            },
        }
        i += 1;
    }
    assert(views.take(views.len() as int) =~= views);
    Step::Done(false)
}

/// Looks for the rows of a table that hold one of the given values in a column. This is how a
/// join is followed that has no index.
pub fn scan_row_ids_by_column_values(
    rows: &[Row],
    column_index: usize,
    values: &[Value],
    facts: &EvalFacts,
) -> (result: Step<Vec<u64>>)
    ensures
        ids_step(result) == ids_with_values(
            rows_view(rows@),
            column_index,
            values_view(values@),
            facts@,
        ),
{
    let ghost views = rows_view(rows@);
    let ghost wanted = values_view(values@);
    let mut ids: Vec<u64> = Vec::new();
    let mut i: usize = 0;
    assert(views.take(0) =~= Seq::empty());
    while i < rows.len()
        invariant
            i <= rows.len(),
            views == rows_view(rows@),
            wanted == values_view(values@),
            ids_with_values(views.take(i as int), column_index, wanted, facts@) == StepView::Done(
                ids@,
            ),
        decreases rows.len() - i,
    {
        assert(views.take(i + 1).drop_last() =~= views.take(i as int));
        assert(views.take(i + 1).last() == rows@[i as int]@);
        let found = match rows[i].get(column_index) {
            Some(value) => value_equals_any(value, values, facts),
            None => Step::Done(false),
        };
        match found {
            Step::Done(found) => {
                if found {
                    ids.push(rows[i].id());
                }
            },
            Step::Need(request) => {
                proof {
                    lemma_ids_with_values_prefix(views, column_index, wanted, facts@, i + 1);
                }
                return Step::Need(request);
            },
        }
        i += 1;
    }
    assert(views.take(views.len() as int) =~= views);
    Step::Done(ids)
}

/// What the search waits for.
pub enum SearchPhase {
    /// Nothing: the next table is to be taken up.
    Ready,
    /// The rows of a table.
    Reading { table: TableId, count: usize },
    /// The rows that a join of a table leads to.
    Matching { table: TableId, rows: Vec<Row>, edge: usize },
    /// The search was given up.
    Failed,
}

/// What the search waits for.
#[allow(inconsistent_fields)]
pub enum PhaseView {
    Ready,
    Reading { table: u64, count: nat },
    Matching { table: u64, rows: Seq<RowView>, edge: nat },
    Failed,
}

/// What the search has found.
#[verifier::ext_equal]
pub struct SearchView {
    pub dirty: Map<u64, Set<u64>>,
    pub queue: Seq<TableId>,
    pub queued: Set<u64>,
    pub phase: PhaseView,
}

/// A question of the search.
pub enum AffectedStep {
    /// The stored rows with the given identifiers.
    ReadRows { table: TableId, ids: Vec<u64> },
    /// The identifiers of the rows that have one of the values in the column that a join of the
    /// table leads to.
    FindRows { table: TableId, edge: usize, values: Vec<Value> },
    /// The affected rows of the root table; none if they cannot be told.
    Done(Option<RowIdSet>),
}

/// An answer to the search.
pub enum StoreReply {
    /// The search begins.
    Start,
    /// The rows that are stored; none without a table.
    Rows(Option<Vec<Row>>),
    /// The rows that were found; none without a table.
    Ids(Option<Vec<u64>>),
}

/// The identifiers of tables as numbers.
pub open spec fn table_numbers(tables: Seq<TableId>) -> Set<u64> {
    Set::new(
        |number: u64| exists|i: int| 0 <= i < tables.len() && #[trigger] tables[i] as u64 == number,
    )
}

/// What is known of the changed rows, by table.
pub open spec fn sets_view(sets: Map<u64, RowIdSet>) -> Map<u64, Set<u64>> {
    sets.map_values(|set: RowIdSet| set@)
}

impl SearchView {
    /// The search at its beginning: the changed rows of the tables of the query, whose tables
    /// wait in the order of the changes.
    pub open spec fn begun(
        self,
        changes: Map<u64, Set<u64>>,
        order: Seq<u64>,
        graph: RowsSnapshotDependencyGraph,
    ) -> bool {
        &&& self.dirty == changes.restrict(Set::new(|table: u64| graph.is_relevant(table)))
        &&& self.queue.map_values(|table: TableId| table as u64) == order.filter(
            |table: u64| graph.is_relevant(table),
        )
        &&& self.queued == table_numbers(self.queue)
        &&& self.phase == PhaseView::Ready
    }

    /// The changed rows of a table.
    pub open spec fn rows_of(self, table: u64) -> Set<u64> {
        if self.dirty.dom().contains(table) {
            self.dirty[table]
        } else {
            Set::empty()
        }
    }

    /// The search with more changed rows in a table.
    pub open spec fn with_rows(self, table: TableId, ids: Set<u64>) -> SearchView {
        let key = table as u64;
        let fresh = !ids.subset_of(self.rows_of(key)) && !self.queued.contains(key);
        SearchView {
            dirty: self.dirty.insert(key, self.rows_of(key).union(ids)),
            queue: if fresh {
                self.queue.push(table)
            } else {
                self.queue
            },
            queued: if fresh {
                self.queued.insert(key)
            } else {
                self.queued
            },
            phase: self.phase,
        }
    }

    /// The search without its last waiting table.
    pub open spec fn taken(self) -> SearchView {
        SearchView {
            queue: self.queue.drop_last(),
            queued: self.queued.remove(self.queue.last() as u64),
            ..self
        }
    }

    /// The search after it has taken up the last waiting table with changed rows.
    pub open spec fn next_table(self, graph: RowsSnapshotDependencyGraph) -> SearchView
        decreases self.queue.len(),
    {
        if self.queue.len() == 0 {
            SearchView { phase: PhaseView::Ready, ..self }
        } else {
            let table = self.queue.last() as u64;
            if graph.has_table(table) && self.rows_of(table) != Set::<u64>::empty() {
                SearchView {
                    phase: PhaseView::Reading { table, count: self.rows_of(table).len() },
                    ..self.taken()
                }
            } else {
                self.taken().next_table(graph)
            }
        }
    }

    /// The search after it has taken up the first join of a table, from a position on, that has
    /// values to follow.
    pub open spec fn next_edge(
        self,
        table: u64,
        rows: Seq<RowView>,
        edge: nat,
        graph: RowsSnapshotDependencyGraph,
        deltas: Map<u64, Seq<RowView>>,
    ) -> SearchView
        decreases graph.edges(table).len() - edge,
    {
        if edge >= graph.edges(table).len() {
            self.next_table(graph)
        } else if edge_values(table, rows, edge, graph, deltas).len() > 0 {
            SearchView { phase: PhaseView::Matching { table, rows, edge }, ..self }
        } else {
            self.next_edge(table, rows, edge + 1, graph, deltas)
        }
    }

    /// The search after an answer. Changed rows of a table other than the root table that are
    /// stored no longer and whose changes are not known end it.
    pub open spec fn answered(
        self,
        reply: ReplyView,
        graph: RowsSnapshotDependencyGraph,
        deltas: Map<u64, Seq<RowView>>,
    ) -> SearchView {
        let failed = SearchView { phase: PhaseView::Failed, ..self };
        match (self.phase, reply) {
            (PhaseView::Ready, ReplyView::Start) => self.next_table(graph),
            (PhaseView::Reading { table, count }, ReplyView::Rows(Some(rows))) => if table
                != graph.root_table_id && rows.len() != count && delta_rows(deltas, table).len()
                == 0 {
                failed
            } else {
                self.next_edge(table, rows, 0, graph, deltas)
            },
            (PhaseView::Matching { table, rows, edge }, ReplyView::Ids(Some(ids))) => if edge
                < graph.edges(table).len() {
                let target = graph.edges(table)[edge as int].target_table_id;
                self.with_rows(target, ids.to_set()).next_edge(
                    table,
                    rows,
                    edge + 1,
                    graph,
                    deltas,
                )
            } else {
                failed
            },
            _ => failed,
        }
    }
}

/// The changed rows of a table of which more than the identifiers is known.
pub open spec fn delta_rows(deltas: Map<u64, Seq<RowView>>, table: u64) -> Seq<RowView> {
    if deltas.dom().contains(table) {
        deltas[table]
    } else {
        Seq::empty()
    }
}

/// The values that a join of a table follows.
pub open spec fn edge_values(
    table: u64,
    rows: Seq<RowView>,
    edge: nat,
    graph: RowsSnapshotDependencyGraph,
    deltas: Map<u64, Seq<RowView>>,
) -> Seq<ValueView> {
    join_values(
        rows + delta_rows(deltas, table),
        graph.edges(table)[edge as int].source_column_index,
    )
}

/// What an answer says.
pub enum ReplyView {
    Start,
    Rows(Option<Seq<RowView>>),
    Ids(Option<Seq<u64>>),
}

impl View for StoreReply {
    type V = ReplyView;

    open spec fn view(&self) -> ReplyView {
        match self {
            StoreReply::Start => ReplyView::Start,
            StoreReply::Rows(rows) => ReplyView::Rows(
                match rows {
                    Some(rows) => Some(rows_view(rows@)),
                    None => None,
                },
            ),
            StoreReply::Ids(ids) => ReplyView::Ids(
                match ids {
                    Some(ids) => Some(ids@),
                    None => None,
                },
            ),
        }
    }
}

/// The changed rows by table.
pub open spec fn deltas_view(deltas: Map<u64, Vec<Row>>) -> Map<u64, Seq<RowView>> {
    deltas.map_values(|rows: Vec<Row>| rows_view(rows@))
}

/// The question that a search has.
pub open spec fn asks(
    step: AffectedStep,
    search: SearchView,
    graph: RowsSnapshotDependencyGraph,
    deltas: Map<u64, Seq<RowView>>,
) -> bool {
    match (step, search.phase) {
        (AffectedStep::ReadRows { table, ids }, PhaseView::Reading { table: expected, .. }) => {
            &&& table as u64 == expected
            &&& crate::collections::ascending(ids@)
            &&& ids@.to_set() == search.rows_of(expected)
        },
        (
            AffectedStep::FindRows { table, edge, values },
            PhaseView::Matching { table: expected, rows, edge: position },
        ) => {
            &&& table as u64 == expected
            &&& edge == position
            &&& values_view(values@) == edge_values(expected, rows, position, graph, deltas)
        },
        (AffectedStep::Done(found), PhaseView::Ready) => found is Some && found->0@
            == search.rows_of(graph.root_table_id as u64),
        (AffectedStep::Done(found), PhaseView::Failed) => found is None,
        _ => false,
    }
}

/// A search for the rows of the root table that changes affect.
pub struct AffectedRoots {
    dirty: IdTable<RowIdSet>,
    queue: Vec<TableId>,
    queued: RowIdSet,
    phase: SearchPhase,
}

impl AffectedRoots {
    /// What the search has found.
    pub closed spec fn view(&self) -> SearchView {
        SearchView {
            dirty: sets_view(self.dirty@),
            queue: self.queue@,
            queued: self.queued@,
            phase: match self.phase {
                SearchPhase::Ready => PhaseView::Ready,
                SearchPhase::Reading { table, count } => PhaseView::Reading {
                    table: table as u64,
                    count: count as nat,
                },
                SearchPhase::Matching { table, rows, edge } => PhaseView::Matching {
                    table: table as u64,
                    rows: rows_view(rows@),
                    edge: edge as nat,
                },
                SearchPhase::Failed => PhaseView::Failed,
            },
        }
    }

    /// Begins a search with the changed rows by table. Keys that are no table identifiers do not
    /// count.
    pub fn new(changes: &IdTable<RowIdSet>, graph: &RowsSnapshotDependencyGraph) -> (result: Self)
        ensures
            result@.begun(sets_view(changes@), changes.order(), *graph),
    {
        let ghost wanted = |table: u64| graph.is_relevant(table);
        let mut dirty: IdTable<RowIdSet> = IdTable::new();
        let mut queue: Vec<TableId> = Vec::new();
        let mut queued = RowIdSet::new();
        let count = changes.len();
        let ghost order = changes.order();
        let mut i: usize = 0;
        proof {
            reveal(Seq::filter);
            assert(order.take(0).filter(wanted) =~= Seq::empty());
            assert(queue@.map_values(|table: TableId| table as u64) =~= Seq::empty());
            assert(table_numbers(queue@) =~= Set::empty());
        }
        while i < count
            invariant
                i <= count,
                count == order.len(),
                order == changes.order(),
                order.no_duplicates(),
                order.to_set() == changes@.dom(),
                wanted == (|table: u64| graph.is_relevant(table)),
                forall|table: u64| #[trigger]
                    sets_view(dirty@).dom().contains(table) <==> order.take(i as int).contains(
                        table,
                    ) && graph.is_relevant(table),
                forall|table: u64| #[trigger]
                    sets_view(dirty@).dom().contains(table) ==> sets_view(dirty@)[table]
                        == sets_view(changes@)[table],
                queue@.map_values(|table: TableId| table as u64) == order.take(i as int).filter(
                    wanted,
                ),
                queued@ == table_numbers(queue@),
            decreases count - i,
        {
            let table = *changes.key_at(i);
            let ghost shorter = order.take(i as int);
            let ghost longer = order.take(i + 1);
            let ghost queue_before = queue@;
            let ghost dirty_before = sets_view(dirty@);
            proof {
                reveal(Seq::filter);
                assert(longer.drop_last() =~= shorter);
                assert(longer.last() == table);
                assert(order.to_set().contains(order[i as int]));
                assert forall|other: u64| longer.contains(other) <==> (shorter.contains(other)
                    || other == table) by {
                    if shorter.contains(other) {
                        let k = choose|k: int| 0 <= k < shorter.len() && shorter[k] == other;
                        assert(longer[k] == other);
                    }
                    assert(longer[i as int] == table);
                    if longer.contains(other) {
                        let k = choose|k: int| 0 <= k < longer.len() && longer[k] == other;
                        if k < i {
                            assert(shorter[k] == other);
                        }
                    }
                }
            }
            if table <= u32::MAX as u64 && graph.table_names.contains_key(table) {
                let ids = changes.value_at(i).copy();
                let ghost added = ids@;
                dirty.insert(table, ids);
                queue.push(table as TableId);
                let _ = queued.insert(table);
                proof {
                    assert(sets_view(dirty@) =~= dirty_before.insert(table, added));
                    assert(added == sets_view(changes@)[table]);
                    assert(queue@.map_values(|table: TableId| table as u64)
                        =~= queue_before.map_values(|table: TableId| table as u64).push(table));
                    lemma_numbers_push(queue_before, table as TableId);
                }
            }
            i += 1;
        }
        assert(order.take(order.len() as int) =~= order);
        let result = AffectedRoots { dirty, queue, queued, phase: SearchPhase::Ready };
        proof {
            let expected = sets_view(changes@).restrict(
                Set::new(|table: u64| graph.is_relevant(table)),
            );
            assert forall|table: u64| order.contains(table) <==> changes@.dom().contains(table) by {
                assert(order.to_set().contains(table) <==> order.contains(table));
            }
            assert(result@.dirty =~= expected);
        }
        result
    }

    /// Takes up the last waiting table with changed rows.
    fn take_table(&mut self, graph: &RowsSnapshotDependencyGraph) -> (step: AffectedStep)
        ensures
            final(self)@ == old(self)@.next_table(*graph),
            forall|deltas: Map<u64, Seq<RowView>>| #[trigger]
                asks(step, final(self)@, *graph, deltas),
    {
        let ghost start = self@;
        while self.queue.len() > 0
            invariant
                self@.next_table(*graph) == start.next_table(*graph),
                start == old(self)@,
            decreases self.queue.len(),
        {
            let ghost before = self@;
            let table = self.queue[self.queue.len() - 1];
            let _ = self.queue.pop();
            let _ = self.queued.remove(table as u64);
            assert(self@ =~= before.taken());
            let known = graph.table_names.contains_key(table as u64);
            match self.dirty.get(table as u64) {
                Some(rows) => {
                    if known && !rows.is_empty() {
                        let ids = rows.sorted();
                        let count = rows.len();
                        self.phase = SearchPhase::Reading { table, count };
                        return AffectedStep::ReadRows { table, ids };
                    }
                },
                None => {},
            }
        }
        self.phase = SearchPhase::Ready;
        match self.dirty.get(graph.root_table_id as u64) {
            Some(rows) => AffectedStep::Done(Some(rows.copy())),
            None => AffectedStep::Done(Some(RowIdSet::new())),
        }
    }

    /// Takes up the first join of a table, from a position on, that has values to follow.
    fn take_edge(
        &mut self,
        table: TableId,
        rows: Vec<Row>,
        from: usize,
        graph: &RowsSnapshotDependencyGraph,
        deltas: &IdTable<Vec<Row>>,
    ) -> (step: AffectedStep)
        ensures
            final(self)@ == old(self)@.next_edge(
                table as u64,
                rows_view(rows@),
                from as nat,
                *graph,
                deltas_view(deltas@),
            ),
            asks(step, final(self)@, *graph, deltas_view(deltas@)),
    {
        let ghost start = self@;
        let ghost known = deltas_view(deltas@);
        let mut edge = from;
        let edges = graph.edges_from(table);
        while edge < edges.len()
            invariant
                self@ == start,
                start == old(self)@,
                known == deltas_view(deltas@),
                edges@ == graph.edges(table as u64),
                start.next_edge(table as u64, rows_view(rows@), edge as nat, *graph, known)
                    == start.next_edge(
                    table as u64,
                    rows_view(rows@),
                    from as nat,
                    *graph,
                    known,
                ),
            decreases edges.len() - edge,
        {
            let values = match deltas.get(table as u64) {
                Some(changed) => collect_join_values_by_row_ids_and_deltas(
                    rows.as_slice(),
                    changed.as_slice(),
                    edges[edge].source_column_index,
                ),
                None => {
                    let none: Vec<Row> = Vec::new();
                    assert(rows_view(none@) =~= Seq::empty());
                    collect_join_values_by_row_ids_and_deltas(
                        rows.as_slice(),
                        none.as_slice(),
                        edges[edge].source_column_index,
                    )
                },
            };
            assert(values_view(values@) == edge_values(
                table as u64,
                rows_view(rows@),
                edge as nat,
                *graph,
                known,
            ));
            assert(values_view(values@).len() == values@.len());
            if values.len() > 0 {
                self.phase = SearchPhase::Matching { table, rows, edge };
                return AffectedStep::FindRows { table, edge, values };
            }
            edge += 1;
        }
        self.take_table(graph)
    }

    /// Adds changed rows of a table, which waits again if some are new.
    fn add_rows(&mut self, table: TableId, ids: &[u64])
        ensures
            final(self)@ == old(self)@.with_rows(table, ids@.to_set()),
    {
        let ghost start = self@;
        let key = table as u64;
        let mut rows = match self.dirty.replace(key, RowIdSet::new()) {
            Some(rows) => rows,
            None => RowIdSet::new(),
        };
        let ghost before = rows@;
        assert(before == start.rows_of(key));
        let mut added = false;
        let mut i: usize = 0;
        assert(before =~= before.union(ids@.take(0).to_set()));
        while i < ids.len()
            invariant
                i <= ids.len(),
                rows@ == before.union(ids@.take(i as int).to_set()),
                added == !ids@.take(i as int).to_set().subset_of(before),
            decreases ids.len() - i,
        {
            let ghost shorter = ids@.take(i as int);
            let ghost longer = ids@.take(i + 1);
            proof {
                assert forall|x: u64| longer.to_set().contains(x) <==> (shorter.to_set().contains(x)
                    || x == ids@[i as int]) by {
                    if shorter.contains(x) {
                        let k = choose|k: int| 0 <= k < shorter.len() && shorter[k] == x;
                        assert(longer[k] == x);
                    }
                    assert(longer[i as int] == ids@[i as int]);
                    if longer.contains(x) {
                        let k = choose|k: int| 0 <= k < longer.len() && longer[k] == x;
                        if k < i {
                            assert(shorter[k] == x);
                        }
                    }
                }
            }
            let new = rows.insert(ids[i]);
            if new {
                added = true;
            }
            proof {
                assert(rows@ =~= before.union(longer.to_set()));
                if new {
                    assert(longer.to_set().contains(ids@[i as int]));
                    assert(!before.contains(ids@[i as int]));
                } else if shorter.to_set().subset_of(before) {
                    assert(before.contains(ids@[i as int]));
                    assert(longer.to_set().subset_of(before));
                } else {
                    let x = choose|x: u64| shorter.to_set().contains(x) && !before.contains(x);
                    assert(longer.to_set().contains(x));
                }
            }
            i += 1;
        }
        assert(ids@.take(ids@.len() as int) =~= ids@);
        let ghost all = rows@;
        self.dirty.insert(key, rows);
        assert(sets_view(self.dirty@) =~= start.dirty.insert(key, all));
        if added && !self.queued.contains(key) {
            let _ = self.queued.insert(key);
            self.queue.push(table);
        }
        assert(self@ =~= start.with_rows(table, ids@.to_set()));
    }

    /// Takes the answer to the last question, and asks the next one. `deltas` holds the changed
    /// rows of which more than the identifiers is known.
    pub fn advance(
        &mut self,
        reply: StoreReply,
        graph: &RowsSnapshotDependencyGraph,
        deltas: &IdTable<Vec<Row>>,
    ) -> (step: AffectedStep)
        ensures
            final(self)@ == old(self)@.answered(reply@, *graph, deltas_view(deltas@)),
            asks(step, final(self)@, *graph, deltas_view(deltas@)),
    {
        let mut phase = SearchPhase::Failed;
        let ghost start = self@;
        core::mem::swap(&mut self.phase, &mut phase);
        assert(self@ =~= (SearchView { phase: PhaseView::Failed, ..start }));
        match (phase, reply) {
            (SearchPhase::Ready, StoreReply::Start) => {
                self.phase = SearchPhase::Ready;
                assert(self@ =~= start);
                self.take_table(graph)
            },
            (SearchPhase::Reading { table, count }, StoreReply::Rows(Some(rows))) => {
                let unknown = match deltas.get(table as u64) {
                    Some(changed) => changed.len() == 0,
                    None => true,
                };
                assert(rows_view(rows@).len() == rows@.len());
                assert(unknown == (delta_rows(deltas_view(deltas@), table as u64).len() == 0));
                if table != graph.root_table_id && rows.len() != count && unknown {
                    AffectedStep::Done(None)
                } else {
                    self.phase = SearchPhase::Reading { table, count };
                    assert(self@ =~= start);
                    self.take_edge(table, rows, 0, graph, deltas)
                }
            },
            (SearchPhase::Matching { table, rows, edge }, StoreReply::Ids(Some(ids))) => {
                let edges = graph.edges_from(table);
                if edge >= edges.len() {
                    return AffectedStep::Done(None);
                }
                let target = edges[edge].target_table_id;
                let copy = crate::root_subset::clone_rows(rows.as_slice());
                self.phase = SearchPhase::Matching { table, rows: copy, edge };
                assert(self@ =~= start);
                self.add_rows(target, ids.as_slice());
                self.take_edge(table, rows, edge + 1, graph, deltas)
            },
            _ => AffectedStep::Done(None),
        }
    }
}

proof fn lemma_numbers_push(tables: Seq<TableId>, table: TableId)
    ensures
        table_numbers(tables.push(table)) == table_numbers(tables).insert(table as u64),
{
    let longer = tables.push(table);
    assert forall|number: u64| table_numbers(longer).contains(number) <==> table_numbers(
        tables,
    ).insert(table as u64).contains(number) by {
        if table_numbers(tables).contains(number) {
            let k = choose|k: int| 0 <= k < tables.len() && #[trigger] tables[k] as u64 == number;
            assert(longer[k] as u64 == number);
        }
        assert(longer[tables.len() as int] as u64 == table as u64);
        if table_numbers(longer).contains(number) {
            let k = choose|k: int| 0 <= k < longer.len() && #[trigger] longer[k] as u64 == number;
            if k < tables.len() {
                assert(tables[k] as u64 == number);
            }
        }
    }
    assert(table_numbers(longer) =~= table_numbers(tables).insert(table as u64));
}

/// What the tables hold: the stored rows with given identifiers, and the rows that a join of a
/// table leads to from given values.
pub struct StoreModel {
    pub rows: spec_fn(u64, Set<u64>) -> Seq<RowView>,
    pub found: spec_fn(u64, nat, Set<ValueView>) -> Set<u64>,
}

impl SearchView {
    /// An answer tells what the tables hold.
    pub open spec fn agrees(
        self,
        reply: ReplyView,
        store: StoreModel,
        graph: RowsSnapshotDependencyGraph,
        deltas: Map<u64, Seq<RowView>>,
    ) -> bool {
        match (self.phase, reply) {
            (PhaseView::Reading { table, .. }, ReplyView::Rows(Some(rows))) => rows
                == (store.rows)(table, self.rows_of(table)),
            (PhaseView::Matching { table, rows, edge }, ReplyView::Ids(Some(ids))) => ids.to_set()
                == (store.found)(
                table,
                edge,
                edge_values(table, rows, edge, graph, deltas).to_set(),
            ),
            _ => true,
        }
    }

    /// A join was followed: the rows that the changed rows of the table lead to are among the
    /// changed rows of the table that it leads to.
    pub open spec fn followed(
        self,
        table: u64,
        edge: nat,
        store: StoreModel,
        graph: RowsSnapshotDependencyGraph,
        deltas: Map<u64, Seq<RowView>>,
    ) -> bool {
        let values = edge_values(
            table,
            (store.rows)(table, self.rows_of(table)),
            edge,
            graph,
            deltas,
        );
        values.len() > 0 ==> (store.found)(table, edge, values.to_set()).subset_of(
            self.rows_of(graph.edges(table)[edge as int].target_table_id as u64),
        )
    }

    /// Every join of every table of the query with changed rows was followed.
    pub open spec fn complete(
        self,
        store: StoreModel,
        graph: RowsSnapshotDependencyGraph,
        deltas: Map<u64, Seq<RowView>>,
    ) -> bool {
        forall|table: u64, edge: nat|
            graph.has_table(table) && edge < graph.edges(table).len() && self.rows_of(table)
                != Set::<u64>::empty() ==> #[trigger] self.followed(
                table,
                edge,
                store,
                graph,
                deltas,
            )
    }

    /// The joins were followed but for those of waiting tables and those of one table from a
    /// position on, whose rows are at hand.
    spec fn followed_up_to(
        self,
        at: u64,
        from: nat,
        store: StoreModel,
        graph: RowsSnapshotDependencyGraph,
        deltas: Map<u64, Seq<RowView>>,
    ) -> bool {
        &&& self.queue.no_duplicates()
        &&& self.queued == table_numbers(self.queue)
        &&& forall|table: u64, edge: nat|
            graph.has_table(table) && edge < graph.edges(table).len() && self.rows_of(table)
                != Set::<u64>::empty() && !self.queued.contains(table) && !(table == at && edge
                >= from) ==> #[trigger] self.followed(table, edge, store, graph, deltas)
    }

    /// What holds of a search between two answers.
    pub closed spec fn sound(
        self,
        store: StoreModel,
        graph: RowsSnapshotDependencyGraph,
        deltas: Map<u64, Seq<RowView>>,
    ) -> bool {
        match self.phase {
            PhaseView::Ready => self.followed_up_to(
                0,
                graph.edges(0).len(),
                store,
                graph,
                deltas,
            ),
            PhaseView::Reading { table, .. } => self.followed_up_to(table, 0, store, graph, deltas),
            PhaseView::Matching { table, rows, edge } => {
                &&& self.followed_up_to(table, edge, store, graph, deltas)
                &&& !self.queued.contains(table) ==> rows == (store.rows)(
                    table,
                    self.rows_of(table),
                )
            },
            PhaseView::Failed => true,
        }
    }
}

proof fn lemma_numbers_drop(tables: Seq<TableId>)
    requires
        tables.len() > 0,
        tables.no_duplicates(),
    ensures
        table_numbers(tables.drop_last()) == table_numbers(tables).remove(tables.last() as u64),
{
    let shorter = tables.drop_last();
    lemma_numbers_push(shorter, tables.last());
    assert(shorter.push(tables.last()) =~= tables);
    assert(!table_numbers(shorter).contains(tables.last() as u64)) by {
        if table_numbers(shorter).contains(tables.last() as u64) {
            let k = choose|k: int|
                0 <= k < shorter.len() && #[trigger] shorter[k] as u64 == tables.last() as u64;
            assert(tables[k] == tables[tables.len() - 1]);
        }
    }
    assert(table_numbers(shorter) =~= table_numbers(tables).remove(tables.last() as u64));
}

proof fn lemma_next_table_sound(
    search: SearchView,
    store: StoreModel,
    graph: RowsSnapshotDependencyGraph,
    deltas: Map<u64, Seq<RowView>>,
    at: u64,
    from: nat,
)
    requires
        search.followed_up_to(at, from, store, graph, deltas),
        from >= graph.edges(at).len(),
    ensures
        search.next_table(graph).sound(store, graph, deltas),
        search.next_table(graph).phase is Ready ==> search.next_table(graph).complete(
            store,
            graph,
            deltas,
        ),
    decreases search.queue.len(),
{
    if search.queue.len() == 0 {
        let after = SearchView { phase: PhaseView::Ready, ..search };
        assert forall|table: u64, edge: nat|
            graph.has_table(table) && edge < graph.edges(table).len() && after.rows_of(table)
                != Set::<u64>::empty() implies #[trigger] after.followed(
            table,
            edge,
            store,
            graph,
            deltas,
        ) by {
            assert(!search.queued.contains(table));
            assert(search.followed(table, edge, store, graph, deltas));
        }
    } else {
        let table = search.queue.last() as u64;
        let after = search.taken();
        lemma_numbers_drop(search.queue);
        assert forall|other: u64, edge: nat|
            graph.has_table(other) && edge < graph.edges(other).len() && after.rows_of(other)
                != Set::<u64>::empty() && !after.queued.contains(other) && other
                != table implies #[trigger] after.followed(other, edge, store, graph, deltas) by {
            assert(search.followed(other, edge, store, graph, deltas));
        }
        if graph.has_table(table) && search.rows_of(table) != Set::<u64>::empty() {
            let reading = SearchView {
                phase: PhaseView::Reading { table, count: search.rows_of(table).len() },
                ..after
            };
            assert forall|other: u64, edge: nat|
                graph.has_table(other) && edge < graph.edges(other).len() && reading.rows_of(other)
                    != Set::<u64>::empty() && !reading.queued.contains(other) && !(other == table
                    && edge >= 0) implies #[trigger] reading.followed(
                other,
                edge,
                store,
                graph,
                deltas,
            ) by {
                assert(after.followed(other, edge, store, graph, deltas));
            }
        } else {
            assert(after.followed_up_to(table, graph.edges(table).len(), store, graph, deltas));
            lemma_next_table_sound(
                after,
                store,
                graph,
                deltas,
                table,
                graph.edges(table).len(),
            );
        }
    }
}

proof fn lemma_next_edge_sound(
    search: SearchView,
    table: u64,
    rows: Seq<RowView>,
    edge: nat,
    store: StoreModel,
    graph: RowsSnapshotDependencyGraph,
    deltas: Map<u64, Seq<RowView>>,
)
    requires
        search.followed_up_to(table, edge, store, graph, deltas),
        !search.queued.contains(table) ==> rows == (store.rows)(table, search.rows_of(table)),
    ensures
        search.next_edge(table, rows, edge, graph, deltas).sound(store, graph, deltas),
        search.next_edge(table, rows, edge, graph, deltas).phase is Ready ==> search.next_edge(
            table,
            rows,
            edge,
            graph,
            deltas,
        ).complete(store, graph, deltas),
    decreases graph.edges(table).len() - edge,
{
    if edge >= graph.edges(table).len() {
        lemma_next_table_sound(search, store, graph, deltas, table, edge);
    } else if edge_values(table, rows, edge, graph, deltas).len() > 0 {
        let after = SearchView { phase: PhaseView::Matching { table, rows, edge }, ..search };
        assert forall|other: u64, position: nat|
            graph.has_table(other) && position < graph.edges(other).len() && after.rows_of(other)
                != Set::<u64>::empty() && !after.queued.contains(other) && !(other == table
                && position >= edge) implies #[trigger] after.followed(
            other,
            position,
            store,
            graph,
            deltas,
        ) by {
            assert(search.followed(other, position, store, graph, deltas));
        }
    } else {
        assert forall|other: u64, position: nat|
            graph.has_table(other) && position < graph.edges(other).len() && search.rows_of(other)
                != Set::<u64>::empty() && !search.queued.contains(other) && !(other == table
                && position >= edge + 1) implies #[trigger] search.followed(
            other,
            position,
            store,
            graph,
            deltas,
        ) by {}
        lemma_next_edge_sound(search, table, rows, edge + 1, store, graph, deltas);
    }
}

/// The search never drops a changed row.
pub proof fn law_search_only_adds(
    search: SearchView,
    reply: ReplyView,
    graph: RowsSnapshotDependencyGraph,
    deltas: Map<u64, Seq<RowView>>,
    table: u64,
)
    ensures
        search.rows_of(table).subset_of(search.answered(reply, graph, deltas).rows_of(table)),
{
    match (search.phase, reply) {
        (PhaseView::Matching { table: source, rows, edge }, ReplyView::Ids(Some(ids))) => {
            if edge < graph.edges(source).len() {
                let target = graph.edges(source)[edge as int].target_table_id;
                let after = search.with_rows(target, ids.to_set());
                lemma_next_edge_dirty(after, source, rows, edge + 1, graph, deltas);
            }
        },
        (PhaseView::Reading { table: source, .. }, ReplyView::Rows(Some(rows))) => {
            lemma_next_edge_dirty(search, source, rows, 0, graph, deltas);
        },
        _ => {
            lemma_next_table_dirty(search, graph);
        },
    }
}

proof fn lemma_next_table_dirty(search: SearchView, graph: RowsSnapshotDependencyGraph)
    ensures
        search.next_table(graph).dirty == search.dirty,
    decreases search.queue.len(),
{
    if search.queue.len() > 0 {
        lemma_next_table_dirty(search.taken(), graph);
    }
}

proof fn lemma_next_edge_dirty(
    search: SearchView,
    table: u64,
    rows: Seq<RowView>,
    edge: nat,
    graph: RowsSnapshotDependencyGraph,
    deltas: Map<u64, Seq<RowView>>,
)
    ensures
        search.next_edge(table, rows, edge, graph, deltas).dirty == search.dirty,
    decreases graph.edges(table).len() - edge,
{
    if edge >= graph.edges(table).len() {
        lemma_next_table_dirty(search, graph);
    } else if edge_values(table, rows, edge, graph, deltas).len() == 0 {
        lemma_next_edge_dirty(search, table, rows, edge + 1, graph, deltas);
    }
}

/// A search starts soundly: the tables with changed rows wait.
pub proof fn law_search_starts_sound(
    search: SearchView,
    changes: Map<u64, Set<u64>>,
    order: Seq<u64>,
    store: StoreModel,
    graph: RowsSnapshotDependencyGraph,
    deltas: Map<u64, Seq<RowView>>,
)
    requires
        search.begun(changes, order, graph),
        order.no_duplicates(),
        order.to_set() == changes.dom(),
    ensures
        search.sound(store, graph, deltas),
{
    let wanted = |table: u64| graph.is_relevant(table);
    let numbers = search.queue.map_values(|table: TableId| table as u64);
    lemma_filtered_numbers(order, wanted);
    assert forall|i: int, j: int|
        0 <= i < j < search.queue.len() implies search.queue[i] != search.queue[j] by {
        assert(numbers[i] == search.queue[i] as u64 && numbers[j] == search.queue[j] as u64);
    }
    assert forall|table: u64| search.rows_of(table) != Set::<u64>::empty() implies search.queued.contains(
        table,
    ) by {
        assert(search.dirty.dom().contains(table));
        assert(order.to_set().contains(table));
        assert(numbers.contains(table));
        let k = choose|k: int| 0 <= k < numbers.len() && numbers[k] == table;
        assert(search.queue[k] as u64 == table);
    }
}

proof fn lemma_filtered_numbers(numbers: Seq<u64>, wanted: spec_fn(u64) -> bool)
    ensures
        forall|number: u64| #[trigger]
            numbers.filter(wanted).contains(number) <==> numbers.contains(number) && wanted(number),
        numbers.no_duplicates() ==> numbers.filter(wanted).no_duplicates(),
    decreases numbers.len(),
{
    reveal(Seq::filter);
    if numbers.len() > 0 {
        let shorter = numbers.drop_last();
        let last = numbers.last();
        let kept = shorter.filter(wanted);
        lemma_filtered_numbers(shorter, wanted);
        assert forall|number: u64| #[trigger]
            numbers.filter(wanted).contains(number) <==> numbers.contains(number) && wanted(
                number,
            ) by {
            if numbers.filter(wanted).contains(number) {
                let k = choose|k: int|
                    0 <= k < numbers.filter(wanted).len() && numbers.filter(wanted)[k] == number;
                if k < kept.len() {
                    assert(kept[k] == number);
                    assert(kept.contains(number));
                    let m = choose|m: int| 0 <= m < shorter.len() && shorter[m] == number;
                    assert(numbers[m] == number);
                } else {
                    assert(numbers[numbers.len() - 1] == number);
                }
            }
            if numbers.contains(number) && wanted(number) {
                let k = choose|k: int| 0 <= k < numbers.len() && numbers[k] == number;
                if k < shorter.len() {
                    assert(shorter[k] == number);
                    assert(shorter.contains(number));
                    assert(kept.contains(number));
                    let m = choose|m: int| 0 <= m < kept.len() && kept[m] == number;
                    assert(numbers.filter(wanted)[m] == number);
                } else {
                    assert(numbers.filter(wanted)[kept.len() as int] == number);
                }
            }
        }
        if numbers.no_duplicates() && wanted(last) {
            assert(shorter.no_duplicates());
            assert(!kept.contains(last)) by {
                if shorter.contains(last) {
                    let k = choose|k: int| 0 <= k < shorter.len() && shorter[k] == last;
                    assert(numbers[k] == numbers[numbers.len() - 1]);
                }
            }
            let longer = kept.push(last);
            assert forall|i: int, j: int| 0 <= i < j < longer.len() implies longer[i]
                != longer[j] by {
                assert(kept.contains(kept[i]));
            }
        }
    }
}

/// Answers that tell what the tables hold keep a search sound, and a search that ends well has
/// followed every join: the rows that it found include all that the changed rows lead to.
pub proof fn law_search_follows_joins(
    search: SearchView,
    reply: ReplyView,
    store: StoreModel,
    graph: RowsSnapshotDependencyGraph,
    deltas: Map<u64, Seq<RowView>>,
)
    requires
        search.sound(store, graph, deltas),
        search.agrees(reply, store, graph, deltas),
    ensures
        search.answered(reply, graph, deltas).sound(store, graph, deltas),
        search.answered(reply, graph, deltas).phase is Ready ==> search.answered(
            reply,
            graph,
            deltas,
        ).complete(store, graph, deltas),
{
    match (search.phase, reply) {
        (PhaseView::Ready, ReplyView::Start) => {
            lemma_next_table_sound(
                search,
                store,
                graph,
                deltas,
                0,
                graph.edges(0).len(),
            );
        },
        (PhaseView::Reading { table, .. }, ReplyView::Rows(Some(rows))) => {
            lemma_next_edge_sound(search, table, rows, 0, store, graph, deltas);
        },
        (PhaseView::Matching { table, rows, edge }, ReplyView::Ids(Some(ids))) => {
            if edge < graph.edges(table).len() {
                let target = graph.edges(table)[edge as int].target_table_id;
                let key = target as u64;
                let after = search.with_rows(target, ids.to_set());
                let fresh = !ids.to_set().subset_of(search.rows_of(key)) && !search.queued.contains(
                    key,
                );
                if fresh {
                    lemma_numbers_push(search.queue, target);
                    assert(!search.queue.contains(target)) by {
                        if search.queue.contains(target) {
                            let k = choose|k: int|
                                0 <= k < search.queue.len() && search.queue[k] == target;
                            assert(search.queue[k] as u64 == key);
                        }
                    }
                    assert forall|i: int, j: int|
                        0 <= i < j < after.queue.len() implies after.queue[i] != after.queue[j] by {
                        assert(search.queue.contains(search.queue[i]));
                    }
                }
                assert forall|other: u64| !after.queued.contains(other) implies after.rows_of(other)
                    == search.rows_of(other) by {
                    if other == key {
                        assert(ids.to_set().subset_of(search.rows_of(key)));
                        assert(after.rows_of(key) =~= search.rows_of(key));
                    }
                }
                assert forall|other: u64, position: nat|
                    graph.has_table(other) && position < graph.edges(other).len() && after.rows_of(
                        other,
                    ) != Set::<u64>::empty() && !after.queued.contains(other) && !(other == table
                        && position >= edge + 1) implies #[trigger] after.followed(
                    other,
                    position,
                    store,
                    graph,
                    deltas,
                ) by {
                    assert(after.rows_of(other) == search.rows_of(other));
                    let reached = graph.edges(other)[position as int].target_table_id as u64;
                    assert(search.rows_of(reached).subset_of(after.rows_of(reached)));
                    if !(other == table && position == edge) {
                        assert(search.followed(other, position, store, graph, deltas));
                    }
                }
                lemma_next_edge_sound(after, table, rows, edge + 1, store, graph, deltas);
            }
        },
        _ => {},
    }
}

proof fn lemma_join_values(rows: Seq<RowView>, column: usize, value: ValueView)
    ensures
        join_values(rows, column).no_duplicates(),
        join_values(rows, column).contains(value) <==> value != ValueView::Null && exists|i: int|
            0 <= i < rows.len() && column < (#[trigger] rows[i]).values.len()
                && rows[i].values[column as int] == value,
    decreases rows.len(),
{
    if rows.len() > 0 {
        let front = rows.drop_last();
        let last = rows.len() - 1;
        lemma_join_values(front, column, value);
        let before = join_values(front, column);
        let all = join_values(rows, column);
        assert(forall|i: int| 0 <= i < last ==> front[i] == rows[i]);
        assert(rows[last] == rows.last());
        if before.contains(value) {
            assert(all[before.index_of(value)] == value);
            let i = choose|i: int|
                0 <= i < front.len() && column < (#[trigger] front[i]).values.len()
                    && front[i].values[column as int] == value;
            assert(rows[i].values[column as int] == value);
        }
        if all.len() > before.len() {
            assert(all[before.len() as int] == rows.last().values[column as int]);
        }
        if all.contains(value) && !before.contains(value) {
            let k = all.index_of(value);
            if k < before.len() {
                assert(before[k] == value);
            }
            assert(rows[last].values[column as int] == value);
        }
        if value != ValueView::Null && exists|i: int|
            0 <= i < rows.len() && column < (#[trigger] rows[i]).values.len()
                && rows[i].values[column as int] == value {
            let i = choose|i: int|
                0 <= i < rows.len() && column < (#[trigger] rows[i]).values.len()
                    && rows[i].values[column as int] == value;
            if i < last {
                assert(front[i].values[column as int] == value);
                assert(before.contains(value));
            }
        }
    }
}

/// A join is followed by the values that the changed rows of its table hold in its column of that
/// table: the stored rows and those that were added or dropped. Each value is followed once, and
/// null never.
pub proof fn law_joins_follow_the_values_of_changed_rows(
    table: u64,
    rows: Seq<RowView>,
    edge: nat,
    graph: RowsSnapshotDependencyGraph,
    deltas: Map<u64, Seq<RowView>>,
    row: RowView,
)
    requires
        edge < graph.edges(table).len(),
    ensures
        ({
            let column = graph.edges(table)[edge as int].source_column_index;
            let values = edge_values(table, rows, edge, graph, deltas);
            &&& values.no_duplicates()
            &&& !values.contains(ValueView::Null)
            &&& (rows.contains(row) || delta_rows(deltas, table).contains(row)) && column
                < row.values.len() && row.values[column as int] != ValueView::Null
                ==> values.contains(row.values[column as int])
            &&& forall|value: ValueView| #[trigger]
                values.contains(value) ==> exists|source: RowView| #[trigger]
                    holds_at(source, column, value) && (rows.contains(source) || delta_rows(
                        deltas,
                        table,
                    ).contains(source))
        }),
{
    let column = graph.edges(table)[edge as int].source_column_index;
    let known = delta_rows(deltas, table);
    let all = rows + known;
    let values = edge_values(table, rows, edge, graph, deltas);
    lemma_join_values(all, column, ValueView::Null);
    if column < row.values.len() {
        lemma_join_values(all, column, row.values[column as int]);
        if rows.contains(row) {
            assert(all[rows.index_of(row)] == row);
        } else if known.contains(row) {
            assert(all[rows.len() + known.index_of(row)] == row);
        }
    }
    assert forall|value: ValueView| #[trigger] values.contains(value) implies exists|
        source: RowView,
    | #[trigger]
        holds_at(source, column, value) && (rows.contains(source) || known.contains(source)) by {
        lemma_join_values(all, column, value);
        let i = choose|i: int|
            0 <= i < all.len() && column < (#[trigger] all[i]).values.len()
                && all[i].values[column as int] == value;
        if i < rows.len() {
            assert(rows[i] == all[i]);
        } else {
            assert(known[i - rows.len()] == all[i]);
        }
        assert(holds_at(all[i], column, value));
    }
}

/// A row holds a value in a column.
pub open spec fn holds_at(row: RowView, column: usize, value: ValueView) -> bool {
    column < row.values.len() && row.values[column as int] == value
}

/// The facts tell of the values of rows whether they are equal.
pub open spec fn facts_compare(
    facts: FactsView,
    equal: spec_fn(ValueView, ValueView) -> bool,
) -> bool {
    forall|left: ValueView, right: ValueView|
        #![trigger known(facts, RequestView::Equals { left, right })]
        known(facts, RequestView::Equals { left, right }) matches Some(AnswerView::Truth(truth))
            ==> truth == equal(left, right)
}

proof fn lemma_equals_any(
    value: ValueView,
    values: Seq<ValueView>,
    facts: FactsView,
    equal: spec_fn(ValueView, ValueView) -> bool,
)
    requires
        facts_compare(facts, equal),
    ensures
        equals_any(value, values, facts) matches StepView::Done(found) ==> (found <==> exists|
            i: int,
        |
            0 <= i < values.len() && equal(value, #[trigger] values[i])),
    decreases values.len(),
{
    if values.len() > 0 {
        let front = values.drop_last();
        let last = values.len() - 1;
        lemma_equals_any(value, front, facts, equal);
        assert(forall|i: int| 0 <= i < last ==> front[i] == values[i]);
        assert(values[last] == values.last());
        if equals_any(value, front, facts) == StepView::<bool>::Done(true) {
            let i = choose|i: int| 0 <= i < front.len() && equal(value, #[trigger] front[i]);
            assert(equal(value, values[i]));
        }
        if equals_any(value, front, facts) == StepView::<bool>::Done(false) {
            assert forall|i: int| 0 <= i < last implies !equal(value, #[trigger] values[i]) by {
                assert(!equal(value, front[i]));
            }
        }
    }
}

/// Looking through rows finds those that hold, in the column, a value equal to one that is looked
/// for, and no others.
pub proof fn law_rows_are_found_by_their_values(
    rows: Seq<RowView>,
    column: usize,
    values: Seq<ValueView>,
    facts: FactsView,
    equal: spec_fn(ValueView, ValueView) -> bool,
    id: u64,
)
    requires
        facts_compare(facts, equal),
    ensures
        ids_with_values(rows, column, values, facts) matches StepView::Done(ids) ==> (ids.contains(
            id,
        ) <==> exists|i: int, j: int|
            0 <= i < rows.len() && 0 <= j < values.len() && (#[trigger] rows[i]).id == id && column
                < rows[i].values.len() && equal(
                rows[i].values[column as int],
                #[trigger] values[j],
            )),
    decreases rows.len(),
{
    if rows.len() > 0 {
        let front = rows.drop_last();
        let last = rows.len() - 1;
        law_rows_are_found_by_their_values(front, column, values, facts, equal, id);
        assert(forall|i: int| 0 <= i < last ==> front[i] == rows[i]);
        assert(rows[last] == rows.last());
        if column < rows.last().values.len() {
            lemma_equals_any(rows.last().values[column as int], values, facts, equal);
        }
        if let StepView::Done(ids) = ids_with_values(rows, column, values, facts) {
            let before = ids_with_values(front, column, values, facts)->Done_0;
            if ids.len() > before.len() {
                assert(ids[before.len() as int] == rows.last().id);
            }
            if before.contains(id) {
                assert(ids[before.index_of(id)] == id);
                let (i, j) = choose|i: int, j: int|
                    0 <= i < front.len() && 0 <= j < values.len() && (#[trigger] front[i]).id == id
                        && column < front[i].values.len() && equal(
                        front[i].values[column as int],
                        #[trigger] values[j],
                    );
                assert(rows[i].id == id && equal(rows[i].values[column as int], values[j]));
            }
            if ids.contains(id) && !before.contains(id) {
                let k = ids.index_of(id);
                if k < before.len() {
                    assert(before[k] == id);
                }
                let j = choose|j: int|
                    0 <= j < values.len() && equal(
                        rows.last().values[column as int],
                        #[trigger] values[j],
                    );
                assert(rows[last].id == id && equal(rows[last].values[column as int], values[j]));
            }
            if exists|i: int, j: int|
                0 <= i < rows.len() && 0 <= j < values.len() && (#[trigger] rows[i]).id == id
                    && column < rows[i].values.len() && equal(
                    rows[i].values[column as int],
                    #[trigger] values[j],
                ) {
                let (i, j) = choose|i: int, j: int|
                    0 <= i < rows.len() && 0 <= j < values.len() && (#[trigger] rows[i]).id == id
                        && column < rows[i].values.len() && equal(
                        rows[i].values[column as int],
                        #[trigger] values[j],
                    );
                if i < last {
                    assert(front[i].id == id && equal(
                        front[i].values[column as int],
                        values[j],
                    ));
                    assert(before.contains(id));
                }
            }
        }
    }
}

} // verus!
