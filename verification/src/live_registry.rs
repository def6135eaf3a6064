//! The registry of live queries.
//!
//! Changes of tables are collected until a flush hands them to the queries that read the tables:
//! first the rows that changed to the queries that follow changes, then the identifiers of changed
//! rows to the queries that are run anew.
use vstd::prelude::*;

use crate::affected_roots::sets_view;
use crate::collections::RowIdSet;
use crate::row::{Row, RowView};
use crate::schema::TableId;
use crate::tables::IdTable;

verus! {

/// How a live query keeps its result.
#[derive(Clone, Copy, Debug, PartialEq, Eq, Structural)]
pub enum LiveEngineKind {
    Snapshot,
    Delta,
}

/// What a live query gives.
#[derive(Clone, Copy, Debug, PartialEq, Eq, Structural)]
pub enum LiveOutputKind {
    RowsSnapshot,
    RowsDelta,
    GraphqlSnapshot,
    GraphqlDelta,
}

/// The engine that gives an output.
pub open spec fn engine_for(output: LiveOutputKind) -> LiveEngineKind {
    match output {
        LiveOutputKind::RowsSnapshot => LiveEngineKind::Snapshot,
        LiveOutputKind::GraphqlSnapshot => LiveEngineKind::Snapshot,
        LiveOutputKind::RowsDelta => LiveEngineKind::Delta,
        LiveOutputKind::GraphqlDelta => LiveEngineKind::Delta,
    }
}

/// The numbers of a list in ascending order, each once.
pub open spec fn strictly_ascending(ids: Seq<TableId>) -> bool {
    forall|i: int, j: int| 0 <= i < j < ids.len() ==> ids[i] < ids[j]
}

/// Sorts identifiers and drops repetitions.
pub fn sorted_distinct(ids: &[TableId]) -> (result: Vec<TableId>)
    ensures
        strictly_ascending(result@),
        forall|id: TableId| #[trigger] result@.contains(id) <==> ids@.contains(id),
{
    let mut result: Vec<TableId> = Vec::new();
    let mut i: usize = 0;
    while i < ids.len()
        invariant
            i <= ids.len(),
            strictly_ascending(result@),
            forall|id: TableId| #[trigger]
                result@.contains(id) <==> ids@.take(i as int).contains(id),
        decreases ids.len() - i,
    {
        let id = ids[i];
        let mut at: usize = 0;
        while at < result.len() && result[at] < id
            invariant
                at <= result.len(),
                forall|k: int| 0 <= k < at ==> result@[k] < id,
            decreases result.len() - at,
        {
            at += 1;
        }
        let ghost before = result@;
        let ghost shorter = ids@.take(i as int);
        let ghost longer = ids@.take(i + 1);
        let present = at < result.len() && result[at] == id;
        if !present {
            result.insert(at, id);
        }
        proof {
            assert forall|a: int, b: int| 0 <= a < b < result@.len() implies result@[a]
                < result@[b] by {
                if !present {
                    let left = if a < at {
                        before[a]
                    } else if a == at {
                        id
                    } else {
                        before[a - 1]
                    };
                    let right = if b < at {
                        before[b]
                    } else if b == at {
                        id
                    } else {
                        before[b - 1]
                    };
                    assert(result@[a] == left && result@[b] == right);
                    if a == at {
                        assert(id < before[at as int]);
                        if b - 1 > at {
                            assert(before[at as int] < before[b - 1]);
                        }
                    }
                }
            }
            assert forall|x: TableId| #[trigger] result@.contains(x) <==> longer.contains(x) by {
                assert(before.contains(x) <==> shorter.contains(x));
                if longer.contains(x) {
                    let k = choose|k: int| 0 <= k < longer.len() && longer[k] == x;
                    if k < i {
                        assert(shorter[k] == x);
                        assert(before.contains(x));
                        let m = choose|m: int| 0 <= m < before.len() && before[m] == x;
                        assert(result@[if present || m < at {
                            m
                        } else {
                            m + 1
                        }] == x);
                    } else {
                        assert(result@[at as int] == x);
                    }
                }
                if result@.contains(x) {
                    let k = choose|k: int| 0 <= k < result@.len() && result@[k] == x;
                    if x == id {
                        assert(longer[i as int] == x);
                    } else {
                        assert(before[if present || k < at {
                            k
                        } else {
                            k - 1
                        }] == x);
                        assert(before.contains(x));
                        let m = choose|m: int| 0 <= m < shorter.len() && shorter[m] == x;
                        assert(longer[m] == x);
                    }
                }
            }
        }
        i += 1;
    }
    assert(ids@.take(ids@.len() as int) =~= ids@);
    result
}

/// The tables that a live query reads, and those of its root rows.
#[derive(Debug)]
pub struct LiveDependencySet {
    pub tables: Vec<TableId>,
    pub root_tables: Vec<TableId>,
}

impl LiveDependencySet {
    /// Both lists are in ascending order and without repetitions.
    pub open spec fn well_formed(&self) -> bool {
        strictly_ascending(self.tables@) && strictly_ascending(self.root_tables@)
    }

    /// Sorts the identifiers and drops repetitions.
    pub fn new(tables: Vec<TableId>, root_tables: Vec<TableId>) -> (result: Self)
        ensures
            result.well_formed(),
            forall|id: TableId| #[trigger] result.tables@.contains(id) <==> tables@.contains(id),
            forall|id: TableId| #[trigger]
                result.root_tables@.contains(id) <==> root_tables@.contains(id),
    {
        LiveDependencySet {
            tables: sorted_distinct(tables.as_slice()),
            root_tables: sorted_distinct(root_tables.as_slice()),
        }
    }

    /// The tables of a query without root rows.
    pub fn snapshot(tables: Vec<TableId>) -> (result: Self)
        ensures
            result.well_formed(),
            forall|id: TableId| #[trigger] result.tables@.contains(id) <==> tables@.contains(id),
            result.root_tables@.len() == 0,
    {
        let result = LiveDependencySet::new(tables, Vec::new());
        proof {
            if result.root_tables@.len() > 0 {
                assert(result.root_tables@.contains(result.root_tables@[0]));
            }
        }
        result
    }

    /// The tables of a GraphQL query.
    pub fn graphql(tables: Vec<TableId>, root_tables: Vec<TableId>) -> (result: Self)
        ensures
            result.well_formed(),
            forall|id: TableId| #[trigger] result.tables@.contains(id) <==> tables@.contains(id),
            forall|id: TableId| #[trigger]
                result.root_tables@.contains(id) <==> root_tables@.contains(id),
    {
        LiveDependencySet::new(tables, root_tables)
    }
}

/// What a live query is and reads.
pub struct LivePlanDescriptor {
    pub engine: LiveEngineKind,
    pub output: LiveOutputKind,
    pub dependencies: LiveDependencySet,
}

impl LivePlanDescriptor {
    /// A live query with the engine that gives its output.
    pub fn new(output: LiveOutputKind, dependencies: LiveDependencySet) -> (result: Self)
        ensures
            result.output == output,
            result.engine == engine_for(output),
            result.dependencies == dependencies,
    {
        let engine = match output {
            LiveOutputKind::RowsSnapshot => LiveEngineKind::Snapshot,
            LiveOutputKind::GraphqlSnapshot => LiveEngineKind::Snapshot,
            LiveOutputKind::RowsDelta => LiveEngineKind::Delta,
            LiveOutputKind::GraphqlDelta => LiveEngineKind::Delta,
        };
        LivePlanDescriptor { engine, output, dependencies }
    }
}

/// What a live query gives: rows or a GraphQL response.
#[derive(Clone, Copy, Debug, PartialEq, Eq, Structural)]
pub enum LiveQueryKind {
    Rows,
    Graphql,
}

/// A registered live query.
#[derive(Clone, Copy, Debug, PartialEq, Eq, Structural)]
pub struct LiveQuery {
    pub id: u64,
    pub kind: LiveQueryKind,
}

/// A row that was added to a table, or dropped from it.
#[derive(Debug)]
pub struct RowDelta {
    pub row: Row,
    pub diff: i32,
}

/// A row that was added to a table, or dropped from it.
pub struct DeltaView {
    pub row: RowView,
    pub diff: i32,
}

impl View for RowDelta {
    type V = DeltaView;

    open spec fn view(&self) -> DeltaView {
        DeltaView { row: self.row@, diff: self.diff }
    }
}

impl Clone for RowDelta {
    fn clone(&self) -> (result: Self)
        ensures
            result@ == self@,
    {
        RowDelta { row: self.row.clone(), diff: self.diff }
    }
}

impl RowDelta {
    /// A row that was added.
    pub fn insert(row: Row) -> (result: Self)
        ensures
            result@ == (DeltaView { row: row@, diff: 1 }),
    {
        RowDelta { row, diff: 1 }
    }

    /// A row that was dropped.
    pub fn delete(row: Row) -> (result: Self)
        ensures
            result@ == (DeltaView { row: row@, diff: (-1) as i32 }),
    {
        RowDelta { row, diff: -1 }
    }
}

/// Rows that were added or dropped.
pub open spec fn row_deltas_view(deltas: Seq<RowDelta>) -> Seq<DeltaView> {
    deltas.map_values(|delta: RowDelta| delta@)
}

/// Rows that were added or dropped, by table.
pub open spec fn delta_tables_view(deltas: Map<u64, Vec<RowDelta>>) -> Map<u64, Seq<DeltaView>> {
    deltas.map_values(|rows: Vec<RowDelta>| row_deltas_view(rows@))
}

/// Queries by table.
pub open spec fn queries_view(queries: Map<u64, Vec<LiveQuery>>) -> Map<u64, Seq<LiveQuery>> {
    queries.map_values(|list: Vec<LiveQuery>| list@)
}

/// Copies rows that were added or dropped.
pub fn clone_deltas(deltas: &[RowDelta]) -> (result: Vec<RowDelta>)
    ensures
        row_deltas_view(result@) == row_deltas_view(deltas@),
{
    let mut result: Vec<RowDelta> = Vec::new();
    let mut i: usize = 0;
    while i < deltas.len()
        invariant
            i <= deltas.len(),
            result.len() == i,
            forall|j: int| 0 <= j < i ==> (#[trigger] result@[j])@ == deltas@[j]@,
        decreases deltas.len() - i,
    {
        result.push(deltas[i].clone());
        i += 1;
    }
    assert(row_deltas_view(result@) =~= row_deltas_view(deltas@));
    result
}

/// The queries of a table.
pub open spec fn queries_of(queries: Map<u64, Seq<LiveQuery>>, table: u64) -> Seq<LiveQuery> {
    if queries.dom().contains(table) {
        queries[table]
    } else {
        Seq::empty()
    }
}

/// Queries by table, with one more for each of a list of tables.
pub open spec fn registered(
    queries: Map<u64, Seq<LiveQuery>>,
    query: LiveQuery,
    tables: Seq<TableId>,
) -> Map<u64, Seq<LiveQuery>>
    decreases tables.len(),
{
    if tables.len() == 0 {
        queries
    } else {
        let before = registered(queries, query, tables.drop_last());
        let table = tables.last() as u64;
        before.insert(table, queries_of(before, table).push(query))
    }
}

/// The queries of a list that have subscribers.
pub open spec fn active_of(queries: Seq<LiveQuery>, active: Set<u64>) -> Seq<LiveQuery>
    decreases queries.len(),
{
    if queries.len() == 0 {
        Seq::empty()
    } else if active.contains(queries.last().id) {
        active_of(queries.drop_last(), active).push(queries.last())
    } else {
        active_of(queries.drop_last(), active)
    }
}

/// Queries by table without those that have no subscribers. A table without queries is dropped.
pub open spec fn collected(queries: Map<u64, Seq<LiveQuery>>, active: Set<u64>) -> Map<
    u64,
    Seq<LiveQuery>,
> {
    Map::new(
        |table: u64| active_of(queries_of(queries, table), active).len() > 0,
        |table: u64| active_of(queries_of(queries, table), active),
    )
}

/// The changes of a query.
pub open spec fn changes_of(lane: Map<u64, Map<u64, Set<u64>>>, id: u64) -> Map<u64, Set<u64>> {
    if lane.dom().contains(id) {
        lane[id]
    } else {
        Map::empty()
    }
}

/// Changes by query, with those of a table for each query of a list that is of a kind.
pub open spec fn noted(
    lane: Map<u64, Map<u64, Set<u64>>>,
    table: u64,
    ids: Set<u64>,
    queries: Seq<LiveQuery>,
    kind: LiveQueryKind,
) -> Map<u64, Map<u64, Set<u64>>>
    decreases queries.len(),
{
    if queries.len() == 0 {
        lane
    } else {
        let before = noted(lane, table, ids, queries.drop_last(), kind);
        let query = queries.last();
        if query.kind == kind {
            before.insert(query.id, changes_of(before, query.id).insert(table, ids))
        } else {
            before
        }
    }
}

/// The changes that each query of a kind is told of.
pub open spec fn snapshot_lane(
    queries: Map<u64, Seq<LiveQuery>>,
    changes: Map<u64, Set<u64>>,
    tables: Seq<u64>,
    kind: LiveQueryKind,
) -> Map<u64, Map<u64, Set<u64>>>
    decreases tables.len(),
{
    if tables.len() == 0 {
        Map::empty()
    } else {
        let table = tables.last();
        noted(
            snapshot_lane(queries, changes, tables.drop_last(), kind),
            table,
            changes[table],
            queries_of(queries, table),
            kind,
        )
    }
}

/// A query with the rows of a table that were added or dropped.
pub struct DispatchView {
    pub query: LiveQuery,
    pub table: u64,
    pub deltas: Seq<DeltaView>,
}

/// A query with the rows of a table that were added or dropped.
pub struct DeltaDispatch {
    pub query: LiveQuery,
    pub table: u64,
    pub deltas: Vec<RowDelta>,
}

impl View for DeltaDispatch {
    type V = DispatchView;

    open spec fn view(&self) -> DispatchView {
        DispatchView {
            query: self.query,
            table: self.table,
            deltas: row_deltas_view(self.deltas@),
        }
    }
}

/// What is handed to queries.
pub open spec fn dispatches_view(dispatches: Seq<DeltaDispatch>) -> Seq<DispatchView> {
    dispatches.map_values(|dispatch: DeltaDispatch| dispatch@)
}

/// The rows of a table handed to each query of a list.
pub open spec fn dispatched(queries: Seq<LiveQuery>, table: u64, deltas: Seq<DeltaView>) -> Seq<
    DispatchView,
> {
    queries.map_values(|query: LiveQuery| DispatchView { query, table, deltas })
}

/// How a flush of added and dropped rows went.
#[derive(Clone, Copy, Debug, PartialEq, Eq, Structural)]
pub struct DeltaFlushCounts {
    pub delta_table_count: usize,
    pub delta_query_count: usize,
    pub rows_query_count: usize,
    pub graphql_query_count: usize,
    pub delta_row_count: usize,
    pub clone_count: usize,
}

/// What is registered and pending.
#[verifier::ext_equal]
pub struct LiveView {
    pub snapshot_queries: Map<u64, Seq<LiveQuery>>,
    pub delta_queries: Map<u64, Seq<LiveQuery>>,
    pub pending_changes: Map<u64, Set<u64>>,
    pub pending_deltas: Map<u64, Seq<DeltaView>>,
    pub flush_scheduled: bool,
}

impl LiveView {
    /// Nothing is registered or pending.
    pub open spec fn empty() -> LiveView {
        LiveView {
            snapshot_queries: Map::empty(),
            delta_queries: Map::empty(),
            pending_changes: Map::empty(),
            pending_deltas: Map::empty(),
            flush_scheduled: false,
        }
    }

    /// Changed rows of a table wait for the next flush.
    pub open spec fn with_changes(self, table: u64, ids: Set<u64>) -> LiveView {
        let before = if self.pending_changes.dom().contains(table) {
            self.pending_changes[table]
        } else {
            Set::empty()
        };
        LiveView {
            pending_changes: self.pending_changes.insert(table, before.union(ids)),
            flush_scheduled: true,
            ..self
        }
    }

    /// Added and dropped rows of a table wait for the next flush.
    pub open spec fn with_deltas(self, table: u64, deltas: Seq<DeltaView>) -> LiveView {
        let before = if self.pending_deltas.dom().contains(table) {
            self.pending_deltas[table]
        } else {
            Seq::empty()
        };
        LiveView { pending_deltas: self.pending_deltas.insert(table, before + deltas), ..self }
    }

    /// Nothing is pending.
    pub open spec fn flushed(self) -> LiveView {
        LiveView {
            pending_changes: Map::empty(),
            pending_deltas: Map::empty(),
            flush_scheduled: false,
            ..self
        }
    }

    /// The queries with subscribers that follow the changes of a table.
    pub open spec fn followers(self, table: u64, active: Set<u64>) -> Seq<LiveQuery> {
        active_of(queries_of(self.delta_queries, table), active)
    }

    /// A query with subscribers is run anew when a table changes.
    pub open spec fn has_active_snapshot(self, table: u64, active: Set<u64>) -> bool {
        active_of(queries_of(self.snapshot_queries, table), active).len() > 0
    }

    /// What the queries that follow changes are handed.
    pub open spec fn delta_lane(
        self,
        deltas: Map<u64, Seq<DeltaView>>,
        tables: Seq<u64>,
        active: Set<u64>,
    ) -> Seq<DispatchView>
        decreases tables.len(),
    {
        if tables.len() == 0 {
            Seq::empty()
        } else {
            let table = tables.last();
            self.delta_lane(deltas, tables.drop_last(), active) + dispatched(
                self.followers(table, active),
                table,
                deltas[table],
            )
        }
    }

    /// The rows that are left for the queries that are run anew: those of a table are given away
    /// if some query follows them and none is run anew.
    pub open spec fn left_deltas(self, deltas: Map<u64, Seq<DeltaView>>, active: Set<u64>) -> Map<
        u64,
        Seq<DeltaView>,
    > {
        deltas.restrict(
            Set::new(
                |table: u64|
                    self.followers(table, active).len() == 0 || self.has_active_snapshot(
                        table,
                        active,
                    ),
            ),
        )
    }
}

/// The live queries of a database.
pub struct LiveRegistry {
    snapshot_queries: IdTable<Vec<LiveQuery>>,
    delta_queries: IdTable<Vec<LiveQuery>>,
    pending_changes: IdTable<RowIdSet>,
    pending_deltas: IdTable<Vec<RowDelta>>,
    flush_scheduled: bool,
}

fn register_in(queries: &mut IdTable<Vec<LiveQuery>>, query: LiveQuery, tables: &[TableId])
    ensures
        queries_view(final(queries)@) == registered(queries_view(old(queries)@), query, tables@),
{
    let ghost start = queries_view(queries@);
    let mut i: usize = 0;
    assert(tables@.take(0) =~= Seq::empty());
    while i < tables.len()
        invariant
            i <= tables.len(),
            queries_view(queries@) == registered(start, query, tables@.take(i as int)),
        decreases tables.len() - i,
    {
        let ghost before = queries_view(queries@);
        assert(tables@.take(i + 1).drop_last() =~= tables@.take(i as int));
        assert(tables@.take(i + 1).last() == tables@[i as int]);
        let table = tables[i] as u64;
        let mut list = match queries.replace(table, Vec::new()) {
            Some(list) => list,
            None => Vec::new(),
        };
        assert(list@ == queries_of(before, table));
        list.push(query);
        let ghost added = list@;
        queries.insert(table, list);
        assert(queries_view(queries@) =~= before.insert(table, added));
        i += 1;
    }
    assert(tables@.take(tables@.len() as int) =~= tables@);
}

fn active_queries(queries: &[LiveQuery], active: &RowIdSet) -> (result: Vec<LiveQuery>)
    ensures
        result@ == active_of(queries@, active@),
{
    let mut result: Vec<LiveQuery> = Vec::new();
    let mut i: usize = 0;
    assert(queries@.take(0) =~= Seq::empty());
    while i < queries.len()
        invariant
            i <= queries.len(),
            result@ == active_of(queries@.take(i as int), active@),
        decreases queries.len() - i,
    {
        assert(queries@.take(i + 1).drop_last() =~= queries@.take(i as int));
        assert(queries@.take(i + 1).last() == queries@[i as int]);
        if active.contains(queries[i].id) {
            result.push(queries[i]);
        }
        i += 1;
    }
    assert(queries@.take(queries@.len() as int) =~= queries@);
    result
}

fn collect_in(queries: &IdTable<Vec<LiveQuery>>, active: &RowIdSet) -> (result: IdTable<
    Vec<LiveQuery>,
>)
    ensures
        queries_view(result@) == collected(queries_view(queries@), active@),
{
    let ghost given = queries_view(queries@);
    let count = queries.len();
    let ghost order = queries.order();
    let mut result: IdTable<Vec<LiveQuery>> = IdTable::new();
    let mut i: usize = 0;
    while i < count
        invariant
            i <= count,
            count == order.len(),
            order == queries.order(),
            given == queries_view(queries@),
            forall|table: u64| #[trigger]
                queries_view(result@).dom().contains(table) <==> order.take(i as int).contains(
                    table,
                ) && active_of(queries_of(given, table), active@).len() > 0,
            forall|table: u64| #[trigger]
                queries_view(result@).dom().contains(table) ==> queries_view(result@)[table]
                    == active_of(queries_of(given, table), active@),
        decreases count - i,
    {
        let table = *queries.key_at(i);
        let ghost shorter = order.take(i as int);
        let ghost longer = order.take(i + 1);
        let ghost before = queries_view(result@);
        proof {
            assert forall|other: u64| longer.contains(other) <==> (shorter.contains(other) || other
                == table) by {
                if shorter.contains(other) {
                    let k = choose|k: int| 0 <= k < shorter.len() && shorter[k] == other;
                    assert(longer[k] == other);
                }
                assert(longer[i as int] == table);
                if longer.contains(other) {
                    let k = choose|k: int| 0 <= k < longer.len() && longer[k] == other;
                    if k < i {
                        assert(shorter[k] == other);
                    }
                }
            }
        }
        let list = active_queries(queries.value_at(i).as_slice(), active);
        assert(list@ == active_of(queries_of(given, table), active@));
        if list.len() > 0 {
            let ghost added = list@;
            result.insert(table, list);
            assert(queries_view(result@) =~= before.insert(table, added));
        }
        i += 1;
    }
    proof {
        assert(order.take(order.len() as int) =~= order);
        assert forall|table: u64| order.contains(table) <==> given.dom().contains(table) by {
            assert(order.to_set().contains(table) <==> order.contains(table));
        }
        assert forall|table: u64| active_of(queries_of(given, table), active@).len()
            > 0 implies given.dom().contains(table) by {}
        assert(queries_view(result@) =~= collected(given, active@));
    }
    result
}

/// The number of registered queries, each counted for each of its tables.
pub open spec fn query_total(queries: Map<u64, Seq<LiveQuery>>, tables: Seq<u64>) -> int
    decreases tables.len(),
{
    if tables.len() == 0 {
        0
    } else {
        query_total(queries, tables.drop_last()) + queries_of(queries, tables.last()).len()
    }
}

proof fn lemma_total_grows(queries: Map<u64, Seq<LiveQuery>>, tables: Seq<u64>, k: int)
    requires
        0 <= k <= tables.len(),
    ensures
        0 <= query_total(queries, tables.take(k)) <= query_total(queries, tables),
    decreases tables.len(),
{
    if k == tables.len() {
        assert(tables.take(k) =~= tables);
        if tables.len() > 0 {
            lemma_total_grows(queries, tables.drop_last(), tables.len() - 1);
            assert(tables.drop_last().take(tables.len() - 1) =~= tables.drop_last());
        }
    } else {
        lemma_total_grows(queries, tables.drop_last(), k);
        assert(tables.drop_last().take(k) =~= tables.take(k));
    }
}

fn count_queries(queries: &IdTable<Vec<LiveQuery>>) -> (total: usize)
    requires
        total_of(queries_view(queries@)) <= usize::MAX,
    ensures
        total == total_of(queries_view(queries@)),
{
    let ghost given = queries_view(queries@);
    let ghost order = queries.order();
    let count = queries.len();
    proof {
        assert(order.to_set() =~= given.dom());
        lemma_total_of(given, order);
    }
    let mut total: usize = 0;
    let mut i: usize = 0;
    assert(order.take(0) =~= Seq::empty());
    while i < count
        invariant
            i <= count,
            count == order.len(),
            order == queries.order(),
            given == queries_view(queries@),
            query_total(given, order) <= usize::MAX,
            total == query_total(given, order.take(i as int)),
        decreases count - i,
    {
        assert(order.take(i + 1).drop_last() =~= order.take(i as int));
        assert(order.take(i + 1).last() == order[i as int]);
        proof {
            lemma_total_grows(given, order, i + 1);
        }
        let list = queries.value_at(i);
        assert(list@ == queries_of(given, order[i as int]));
        total = total + list.len();
        i += 1;
    }
    assert(order.take(order.len() as int) =~= order);
    total
}

/// Changes by query.
pub open spec fn lane_view(lane: Map<u64, IdTable<RowIdSet>>) -> Map<u64, Map<u64, Set<u64>>> {
    lane.map_values(|changes: IdTable<RowIdSet>| sets_view(changes@))
}

fn note_changes(
    lane: &mut IdTable<IdTable<RowIdSet>>,
    table: u64,
    ids: &RowIdSet,
    queries: &[LiveQuery],
    kind: LiveQueryKind,
)
    ensures
        lane_view(final(lane)@) == noted(lane_view(old(lane)@), table, ids@, queries@, kind),
{
    let ghost start = lane_view(lane@);
    let mut i: usize = 0;
    assert(queries@.take(0) =~= Seq::empty());
    while i < queries.len()
        invariant
            i <= queries.len(),
            lane_view(lane@) == noted(start, table, ids@, queries@.take(i as int), kind),
        decreases queries.len() - i,
    {
        let ghost before = lane_view(lane@);
        assert(queries@.take(i + 1).drop_last() =~= queries@.take(i as int));
        assert(queries@.take(i + 1).last() == queries@[i as int]);
        if queries[i].kind == kind {
            let id = queries[i].id;
            let mut changes: IdTable<RowIdSet> = match lane.replace(id, IdTable::new()) {
                Some(changes) => changes,
                None => IdTable::new(),
            };
            let ghost earlier = sets_view(changes@);
            assert(earlier =~= changes_of(before, id));
            changes.insert(table, ids.copy());
            let ghost after = sets_view(changes@);
            assert(after =~= earlier.insert(table, ids@));
            lane.insert(id, changes);
            assert(lane_view(lane@) =~= before.insert(id, after));
        }
        i += 1;
    }
    assert(queries@.take(queries@.len() as int) =~= queries@);
}

impl LiveRegistry {
    /// What is registered and pending.
    pub closed spec fn view(&self) -> LiveView {
        LiveView {
            snapshot_queries: queries_view(self.snapshot_queries@),
            delta_queries: queries_view(self.delta_queries@),
            pending_changes: sets_view(self.pending_changes@),
            pending_deltas: delta_tables_view(self.pending_deltas@),
            flush_scheduled: self.flush_scheduled,
        }
    }

    /// A registry without queries.
    pub fn new() -> (result: Self)
        ensures
            result@ == LiveView::empty(),
    {
        let result = LiveRegistry {
            snapshot_queries: IdTable::new(),
            delta_queries: IdTable::new(),
            pending_changes: IdTable::new(),
            pending_deltas: IdTable::new(),
            flush_scheduled: false,
        };
        assert(result@ =~= LiveView::empty());
        result
    }

    /// Registers a query that is run anew when one of its tables changes.
    pub fn register_snapshot(&mut self, query: LiveQuery, dependencies: &LiveDependencySet)
        ensures
            final(self)@ == (LiveView {
                snapshot_queries: registered(
                    old(self)@.snapshot_queries,
                    query,
                    dependencies.tables@,
                ),
                ..old(self)@
            }),
    {
        register_in(&mut self.snapshot_queries, query, dependencies.tables.as_slice());
    }

    /// Registers a query that follows the changes of its tables.
    pub fn register_delta(&mut self, query: LiveQuery, dependencies: &LiveDependencySet)
        ensures
            final(self)@ == (LiveView {
                delta_queries: registered(old(self)@.delta_queries, query, dependencies.tables@),
                ..old(self)@
            }),
    {
        register_in(&mut self.delta_queries, query, dependencies.tables.as_slice());
    }

    /// Tells whether a query with subscribers is run anew when a table changes.
    pub fn has_active_snapshot_queries(&self, table_id: TableId, active: &RowIdSet) -> (found: bool)
        ensures
            found == self@.has_active_snapshot(table_id as u64, active@),
    {
        match self.snapshot_queries.get(table_id as u64) {
            Some(queries) => active_queries(queries.as_slice(), active).len() > 0,
            None => false,
        }
    }

    fn add_changes(&mut self, table_id: TableId, changed_ids: &RowIdSet)
        ensures
            final(self)@ == (LiveView {
                flush_scheduled: old(self)@.flush_scheduled,
                ..old(self)@.with_changes(table_id as u64, changed_ids@)
            }),
    {
        let ghost start = self@;
        let key = table_id as u64;
        let mut ids = match self.pending_changes.replace(key, RowIdSet::new()) {
            Some(ids) => ids,
            None => RowIdSet::new(),
        };
        ids.extend_set(changed_ids);
        let ghost all = ids@;
        self.pending_changes.insert(key, ids);
        assert(sets_view(self.pending_changes@) =~= start.pending_changes.insert(key, all));
    }

    /// Takes note of rows of a table that changed, and tells whether a flush is to be scheduled.
    pub fn on_table_change(&mut self, table_id: TableId, changed_ids: &RowIdSet) -> (schedule: bool)
        ensures
            final(self)@ == old(self)@.with_changes(table_id as u64, changed_ids@),
            schedule == !old(self)@.flush_scheduled,
    {
        self.add_changes(table_id, changed_ids);
        let schedule = !self.flush_scheduled;
        self.flush_scheduled = true;
        schedule
    }

    /// Takes note of rows of a table that were added or dropped, and tells whether a flush is to
    /// be scheduled.
    pub fn on_table_change_delta(
        &mut self,
        table_id: TableId,
        deltas: Vec<RowDelta>,
        changed_ids: &RowIdSet,
    ) -> (schedule: bool)
        ensures
            final(self)@ == old(self)@.with_deltas(
                table_id as u64,
                row_deltas_view(deltas@),
            ).with_changes(table_id as u64, changed_ids@),
            schedule == !old(self)@.flush_scheduled,
    {
        let ghost start = self@;
        let ghost added = row_deltas_view(deltas@);
        let key = table_id as u64;
        let mut rows = match self.pending_deltas.replace(key, Vec::new()) {
            Some(rows) => rows,
            None => Vec::new(),
        };
        let ghost before = row_deltas_view(rows@);
        let mut deltas = deltas;
        rows.append(&mut deltas);
        assert(row_deltas_view(rows@) =~= before + added);
        let ghost all = row_deltas_view(rows@);
        self.pending_deltas.insert(key, rows);
        proof {
            if !start.pending_deltas.dom().contains(key) {
                assert(before =~= Seq::empty());
            }
            assert(delta_tables_view(self.pending_deltas@) =~= start.pending_deltas.insert(
                key,
                all,
            ));
        }
        self.on_table_change(table_id, changed_ids)
    }

    /// Tells whether a flush is scheduled.
    pub fn flush_is_scheduled(&self) -> (scheduled: bool)
        ensures
            scheduled == self@.flush_scheduled,
    {
        self.flush_scheduled
    }

    /// Takes what is pending, for a flush.
    pub fn take_pending(&mut self) -> (pending: (IdTable<RowIdSet>, IdTable<Vec<RowDelta>>))
        ensures
            final(self)@ == old(self)@.flushed(),
            sets_view(pending.0@) == old(self)@.pending_changes,
            delta_tables_view(pending.1@) == old(self)@.pending_deltas,
    {
        let ghost start = self@;
        let mut changes: IdTable<RowIdSet> = IdTable::new();
        let mut deltas: IdTable<Vec<RowDelta>> = IdTable::new();
        core::mem::swap(&mut self.pending_changes, &mut changes);
        core::mem::swap(&mut self.pending_deltas, &mut deltas);
        self.flush_scheduled = false;
        assert(self@ =~= start.flushed());
        (changes, deltas)
    }

    fn lane_for(&self, changes: &IdTable<RowIdSet>, kind: LiveQueryKind) -> (lane: IdTable<
        IdTable<RowIdSet>,
    >)
        ensures
            lane_view(lane@) == snapshot_lane(
                self@.snapshot_queries,
                sets_view(changes@),
                changes.order(),
                kind,
            ),
    {
        let ghost order = changes.order();
        let ghost given = sets_view(changes@);
        let count = changes.len();
        let mut lane: IdTable<IdTable<RowIdSet>> = IdTable::new();
        let mut i: usize = 0;
        assert(order.take(0) =~= Seq::empty());
        assert(lane_view(lane@) =~= Map::empty());
        while i < count
            invariant
                i <= count,
                count == order.len(),
                order == changes.order(),
                given == sets_view(changes@),
                lane_view(lane@) == snapshot_lane(
                    self@.snapshot_queries,
                    given,
                    order.take(i as int),
                    kind,
                ),
            decreases count - i,
        {
            assert(order.take(i + 1).drop_last() =~= order.take(i as int));
            assert(order.take(i + 1).last() == order[i as int]);
            let table = *changes.key_at(i);
            let ids = changes.value_at(i);
            match self.snapshot_queries.get(table) {
                Some(queries) => {
                    note_changes(&mut lane, table, ids, queries.as_slice(), kind);
                },
                None => {},
            }
            i += 1;
        }
        assert(order.take(order.len() as int) =~= order);
        lane
    }

    /// The changes that the queries that are run anew are told of: first those of queries for
    /// rows, then those of GraphQL queries. Each query is told once.
    pub fn flush_snapshot_lane(&self, changes: &IdTable<RowIdSet>) -> (lanes: (
        IdTable<IdTable<RowIdSet>>,
        IdTable<IdTable<RowIdSet>>,
    ))
        ensures
            lane_view(lanes.0@) == snapshot_lane(
                self@.snapshot_queries,
                sets_view(changes@),
                changes.order(),
                LiveQueryKind::Rows,
            ),
            lane_view(lanes.1@) == snapshot_lane(
                self@.snapshot_queries,
                sets_view(changes@),
                changes.order(),
                LiveQueryKind::Graphql,
            ),
    {
        (
            self.lane_for(changes, LiveQueryKind::Rows),
            self.lane_for(changes, LiveQueryKind::Graphql),
        )
    }

    /// Drops the queries without subscribers.
    pub fn gc_dead_queries(&mut self, active: &RowIdSet)
        ensures
            final(self)@ == (LiveView {
                snapshot_queries: collected(old(self)@.snapshot_queries, active@),
                delta_queries: collected(old(self)@.delta_queries, active@),
                ..old(self)@
            }),
    {
        self.snapshot_queries = collect_in(&self.snapshot_queries, active);
        self.delta_queries = collect_in(&self.delta_queries, active);
    }

    /// The number of registered queries, each counted for each of its tables.
    pub fn query_count(&self) -> (count: usize)
        requires
            total_of(self@.snapshot_queries) + total_of(self@.delta_queries) <= usize::MAX,
        ensures
            count == total_of(self@.snapshot_queries) + total_of(self@.delta_queries),
    {
        proof {
            lemma_total_not_negative(self@.snapshot_queries);
            lemma_total_not_negative(self@.delta_queries);
        }
        count_queries(&self.snapshot_queries) + count_queries(&self.delta_queries)
    }

    /// Tells whether something is pending.
    pub fn has_pending_changes(&self) -> (pending: bool)
        ensures
            pending == (self@.pending_changes.dom() != Set::<u64>::empty()
                || self@.pending_deltas.dom() != Set::<u64>::empty()),
    {
        let changes = self.pending_changes.len();
        let deltas = self.pending_deltas.len();
        proof {
            let order = self.pending_changes.order();
            if changes == 0 {
                assert(self@.pending_changes.dom() =~= Set::<u64>::empty()) by {
                    assert(order.to_set() =~= Set::<u64>::empty());
                }
            } else {
                assert(order.to_set().contains(order[0]));
                assert(self@.pending_changes.dom().contains(order[0]));
            }
            let order = self.pending_deltas.order();
            if deltas == 0 {
                assert(self@.pending_deltas.dom() =~= Set::<u64>::empty()) by {
                    assert(order.to_set() =~= Set::<u64>::empty());
                }
            } else {
                assert(order.to_set().contains(order[0]));
                assert(self@.pending_deltas.dom().contains(order[0]));
            }
        }
        changes > 0 || deltas > 0
    }
}

/// The number of queries, each counted for each of its tables.
pub open spec fn total_of(queries: Map<u64, Seq<LiveQuery>>) -> int
    decreases queries.dom().len(),
{
    if queries.dom().finite() && queries.dom().len() > 0 {
        let table = queries.dom().choose();
        queries[table].len() + total_of(queries.remove(table))
    } else {
        0
    }
}

proof fn lemma_total_not_negative(queries: Map<u64, Seq<LiveQuery>>)
    ensures
        total_of(queries) >= 0,
    decreases queries.dom().len(),
{
    if queries.dom().finite() && queries.dom().len() > 0 {
        lemma_total_not_negative(queries.remove(queries.dom().choose()));
    }
}

proof fn lemma_total_split(queries: Map<u64, Seq<LiveQuery>>, table: u64)
    requires
        queries.dom().finite(),
        queries.dom().contains(table),
    ensures
        total_of(queries) == queries[table].len() + total_of(queries.remove(table)),
    decreases queries.dom().len(),
{
    assert(queries.dom().len() > 0) by {
        if queries.dom().len() == 0 {
            assert(queries.dom() =~= Set::empty());
        }
    }
    let first = queries.dom().choose();
    if first != table {
        lemma_total_split(queries.remove(first), table);
        lemma_total_split(queries.remove(table), first);
        assert(queries.remove(first).remove(table) =~= queries.remove(table).remove(first));
    }
}

proof fn lemma_total_of(queries: Map<u64, Seq<LiveQuery>>, tables: Seq<u64>)
    requires
        tables.no_duplicates(),
        tables.to_set() == queries.dom(),
    ensures
        query_total(queries, tables) == total_of(queries),
    decreases tables.len(),
{
    vstd::seq_lib::seq_to_set_is_finite(tables);
    if tables.len() == 0 {
        assert(queries.dom() =~= Set::empty());
    } else {
        let last = tables.last();
        let shorter = tables.drop_last();
        assert(tables.to_set().contains(last)) by {
            assert(tables[tables.len() - 1] == last);
        }
        lemma_total_split(queries, last);
        let rest = queries.remove(last);
        assert(shorter.to_set() =~= rest.dom()) by {
            assert forall|x: u64| shorter.to_set().contains(x) <==> rest.dom().contains(x) by {
                assert(tables.to_set().contains(x) <==> tables.contains(x));
                if shorter.contains(x) {
                    let k = choose|k: int| 0 <= k < shorter.len() && shorter[k] == x;
                    assert(tables[k] == x);
                    assert(x != last);
                }
                if rest.dom().contains(x) {
                    let k = choose|k: int| 0 <= k < tables.len() && tables[k] == x;
                    assert(shorter[k] == x);
                }
            }
        }
        lemma_total_of(rest, shorter);
        lemma_total_ignores(queries, shorter, last);
    }
}

proof fn lemma_total_ignores(queries: Map<u64, Seq<LiveQuery>>, tables: Seq<u64>, table: u64)
    requires
        !tables.contains(table),
    ensures
        query_total(queries.remove(table), tables) == query_total(queries, tables),
    decreases tables.len(),
{
    if tables.len() > 0 {
        assert(tables[tables.len() - 1] != table);
        assert(!tables.drop_last().contains(table)) by {
            if tables.drop_last().contains(table) {
                let k = choose|k: int|
                    0 <= k < tables.len() - 1 && tables.drop_last()[k] == table;
                assert(tables[k] == table);
            }
        }
        lemma_total_ignores(queries, tables.drop_last(), table);
    }
}

/// The number of rows of a list of tables.
pub open spec fn row_total(deltas: Map<u64, Seq<DeltaView>>, tables: Seq<u64>) -> int
    decreases tables.len(),
{
    if tables.len() == 0 {
        0
    } else {
        row_total(deltas, tables.drop_last()) + deltas[tables.last()].len()
    }
}

proof fn lemma_row_total_grows(deltas: Map<u64, Seq<DeltaView>>, tables: Seq<u64>, k: int)
    requires
        0 <= k <= tables.len(),
    ensures
        0 <= row_total(deltas, tables.take(k)) <= row_total(deltas, tables),
    decreases tables.len(),
{
    if k == tables.len() {
        assert(tables.take(k) =~= tables);
        if tables.len() > 0 {
            lemma_row_total_grows(deltas, tables.drop_last(), tables.len() - 1);
            assert(tables.drop_last().take(tables.len() - 1) =~= tables.drop_last());
        }
    } else {
        lemma_row_total_grows(deltas, tables.drop_last(), k);
        assert(tables.drop_last().take(k) =~= tables.take(k));
    }
}

/// The number of dispatches of a kind.
pub open spec fn kind_count(dispatches: Seq<DispatchView>, kind: LiveQueryKind) -> int
    decreases dispatches.len(),
{
    if dispatches.len() == 0 {
        0
    } else if dispatches.last().query.kind == kind {
        kind_count(dispatches.drop_last(), kind) + 1
    } else {
        kind_count(dispatches.drop_last(), kind)
    }
}

fn count_kind(dispatches: &[DeltaDispatch], kind: LiveQueryKind) -> (count: usize)
    ensures
        count == kind_count(dispatches_view(dispatches@), kind),
{
    let ghost views = dispatches_view(dispatches@);
    let mut count: usize = 0;
    let mut i: usize = 0;
    assert(views.take(0) =~= Seq::empty());
    while i < dispatches.len()
        invariant
            i <= dispatches.len(),
            count <= i,
            views == dispatches_view(dispatches@),
            count == kind_count(views.take(i as int), kind),
        decreases dispatches.len() - i,
    {
        assert(views.take(i + 1).drop_last() =~= views.take(i as int));
        assert(views.take(i + 1).last() == dispatches@[i as int]@);
        if dispatches[i].query.kind == kind {
            count += 1;
        }
        i += 1;
    }
    assert(views.take(views.len() as int) =~= views);
    count
}

/// What a flush of added and dropped rows comes to.
pub struct DeltaFlush {
    pub dispatches: Vec<DeltaDispatch>,
    pub left: IdTable<Vec<RowDelta>>,
    pub counts: DeltaFlushCounts,
}

impl LiveView {
    /// The copies of rows that a flush makes: the last query that rows are given away to takes
    /// them as they are.
    pub open spec fn clones(self, tables: Seq<u64>, active: Set<u64>) -> int
        decreases tables.len(),
    {
        if tables.len() == 0 {
            0
        } else {
            let table = tables.last();
            let count = self.followers(table, active).len();
            self.clones(tables.drop_last(), active) + (if count == 0 || self.has_active_snapshot(
                table,
                active,
            ) {
                count as int
            } else {
                count - 1
            })
        }
    }
}

/// Hands the rows of a table to queries. The last one takes the rows that were given away.
fn dispatch_rows(
    dispatches: &mut Vec<DeltaDispatch>,
    queries: &[LiveQuery],
    table: u64,
    rows: Vec<RowDelta>,
)
    requires
        queries.len() > 0,
    ensures
        dispatches_view(final(dispatches)@) == dispatches_view(old(dispatches)@) + dispatched(
            queries@,
            table,
            row_deltas_view(rows@),
        ),
{
    let ghost start = dispatches_view(dispatches@);
    let ghost deltas = row_deltas_view(rows@);
    let ghost all = dispatched(queries@, table, deltas);
    let mut i: usize = 0;
    assert(start + all.take(0) =~= start);
    while i < queries.len() - 1
        invariant
            i <= queries.len() - 1,
            deltas == row_deltas_view(rows@),
            all == dispatched(queries@, table, deltas),
            dispatches_view(dispatches@) == start + all.take(i as int),
        decreases queries.len() - i,
    {
        let ghost before = dispatches_view(dispatches@);
        dispatches.push(
            DeltaDispatch { query: queries[i], table, deltas: clone_deltas(rows.as_slice()) },
        );
        assert(dispatches_view(dispatches@) =~= before.push(all[i as int]));
        assert(before.push(all[i as int]) =~= start + all.take(i + 1));
        i += 1;
    }
    let ghost before = dispatches_view(dispatches@);
    dispatches.push(DeltaDispatch { query: queries[i], table, deltas: rows });
    assert(dispatches_view(dispatches@) =~= before.push(all[i as int]));
    assert(before.push(all[i as int]) =~= start + all);
}

impl LiveRegistry {
    /// Hands added and dropped rows to the queries that follow them, and keeps those that queries
    /// that are run anew need.
    pub fn flush_delta_lane(&self, deltas: IdTable<Vec<RowDelta>>, active: &RowIdSet) -> (flush:
        DeltaFlush)
        requires
            row_total(delta_tables_view(deltas@), deltas.order()) <= usize::MAX,
        ensures
            ({
                let given = delta_tables_view(deltas@);
                let tables = deltas.order();
                &&& dispatches_view(flush.dispatches@) == self@.delta_lane(given, tables, active@)
                &&& delta_tables_view(flush.left@) == self@.left_deltas(given, active@)
                &&& flush.counts.delta_table_count == tables.len()
                &&& flush.counts.delta_row_count == row_total(given, tables)
                &&& flush.counts.delta_query_count == flush.dispatches@.len()
                &&& flush.counts.rows_query_count == kind_count(
                    dispatches_view(flush.dispatches@),
                    LiveQueryKind::Rows,
                )
                &&& flush.counts.graphql_query_count == kind_count(
                    dispatches_view(flush.dispatches@),
                    LiveQueryKind::Graphql,
                )
                &&& flush.counts.clone_count == self@.clones(tables, active@)
            }),
    {
        let ghost given = delta_tables_view(deltas@);
        let ghost order = deltas.order();
        let count = deltas.len();
        let mut tables: Vec<u64> = Vec::new();
        let mut k: usize = 0;
        while k < count
            invariant
                k <= count,
                count == order.len(),
                order == deltas.order(),
                tables@ == order.take(k as int),
            decreases count - k,
        {
            tables.push(*deltas.key_at(k));
            assert(order.take(k + 1) =~= order.take(k as int).push(order[k as int]));
            k += 1;
        }
        assert(order.take(order.len() as int) =~= order);
        let mut left = deltas;
        let mut dispatches: Vec<DeltaDispatch> = Vec::new();
        let mut delta_row_count: usize = 0;
        let mut clone_count: usize = 0;
        let mut i: usize = 0;
        assert(order.take(0) =~= Seq::empty());
        assert(dispatches_view(dispatches@) =~= Seq::empty());
        while i < tables.len()
            invariant
                i <= tables.len(),
                tables@ == order,
                order.no_duplicates(),
                order.to_set() == given.dom(),
                row_total(given, order) <= usize::MAX,
                dispatches_view(dispatches@) == self@.delta_lane(
                    given,
                    order.take(i as int),
                    active@,
                ),
                delta_row_count == row_total(given, order.take(i as int)),
                clone_count == self@.clones(order.take(i as int), active@),
                clone_count <= dispatches@.len(),
                forall|table: u64| #[trigger]
                    delta_tables_view(left@).dom().contains(table) <==> given.dom().contains(table)
                        && !(order.take(i as int).contains(table) && self@.followers(
                        table,
                        active@,
                    ).len() > 0 && !self@.has_active_snapshot(table, active@)),
                forall|table: u64| #[trigger]
                    delta_tables_view(left@).dom().contains(table) ==> delta_tables_view(
                        left@,
                    )[table] == given[table],
            decreases tables.len() - i,
        {
            let table = tables[i];
            let ghost shorter = order.take(i as int);
            let ghost longer = order.take(i + 1);
            let ghost left_before = delta_tables_view(left@);
            let ghost dispatched_before = dispatches_view(dispatches@);
            proof {
                assert(longer.drop_last() =~= shorter);
                assert(longer.last() == table);
                assert(order.to_set().contains(order[i as int]));
                assert(!shorter.contains(table)) by {
                    if shorter.contains(table) {
                        let m = choose|m: int| 0 <= m < shorter.len() && shorter[m] == table;
                        assert(order[m] == order[i as int]);
                    }
                }
                assert forall|other: u64| longer.contains(other) <==> (shorter.contains(other)
                    || other == table) by {
                    if shorter.contains(other) {
                        let m = choose|m: int| 0 <= m < shorter.len() && shorter[m] == other;
                        assert(longer[m] == other);
                    }
                    assert(longer[i as int] == table);
                    if longer.contains(other) {
                        let m = choose|m: int| 0 <= m < longer.len() && longer[m] == other;
                        if m < i {
                            assert(shorter[m] == other);
                        }
                    }
                }
                lemma_row_total_grows(given, order, i + 1);
                assert(left_before.dom().contains(table));
            }
            let followers = match self.delta_queries.get(table) {
                Some(queries) => active_queries(queries.as_slice(), active),
                None => Vec::new(),
            };
            assert(followers@ =~= self@.followers(table, active@));
            let needed = match self.snapshot_queries.get(table) {
                Some(queries) => active_queries(queries.as_slice(), active).len() > 0,
                None => false,
            };
            assert(needed == self@.has_active_snapshot(table, active@));
            let mut rows: Vec<RowDelta> = Vec::new();
            if followers.len() > 0 && !needed {
                if let Some(owned) = left.remove(table) {
                    rows = owned;
                }
                assert(delta_tables_view(left@) =~= left_before.remove(table));
            } else if let Some(stored) = left.get(table) {
                rows = clone_deltas(stored.as_slice());
            }
            assert(row_deltas_view(rows@) == given[table]);
            assert(row_deltas_view(rows@).len() == rows@.len());
            delta_row_count = delta_row_count + rows.len();
            if followers.len() > 0 {
                dispatch_rows(&mut dispatches, followers.as_slice(), table, rows);
                assert(dispatches_view(dispatches@).len() == dispatches@.len());
                let handed_out = dispatches.len();
                assert(dispatched_before.len() + followers@.len() == handed_out);
                if needed {
                    clone_count = clone_count + followers.len();
                } else {
                    clone_count = clone_count + (followers.len() - 1);
                }
            } else {
                assert(dispatched(followers@, table, given[table]) =~= Seq::empty());
                assert(dispatched_before + Seq::<DispatchView>::empty() =~= dispatched_before);
            }
            i += 1;
        }
        proof {
            assert forall|table: u64| order.contains(table) <==> given.dom().contains(table) by {
                assert(order.to_set().contains(table) <==> order.contains(table));
            }
            assert(delta_tables_view(left@) =~= self@.left_deltas(given, active@));
            assert(dispatches_view(dispatches@).len() == dispatches@.len());
        }
        let counts = DeltaFlushCounts {
            delta_table_count: tables.len(),
            delta_query_count: dispatches.len(),
            rows_query_count: count_kind(dispatches.as_slice(), LiveQueryKind::Rows),
            graphql_query_count: count_kind(dispatches.as_slice(), LiveQueryKind::Graphql),
            delta_row_count,
            clone_count,
        };
        DeltaFlush { dispatches, left, counts }
    }
}

/// A query reads a table.
pub open spec fn reads(
    queries: Map<u64, Seq<LiveQuery>>,
    query: LiveQuery,
    table: u64,
) -> bool {
    queries_of(queries, table).contains(query)
}

proof fn lemma_noted(
    lane: Map<u64, Map<u64, Set<u64>>>,
    table: u64,
    ids: Set<u64>,
    queries: Seq<LiveQuery>,
    kind: LiveQueryKind,
    id: u64,
)
    ensures
        ({
            let after = noted(lane, table, ids, queries, kind);
            if queries.contains(LiveQuery { id, kind }) {
                after.dom().contains(id) && after[id] == changes_of(lane, id).insert(table, ids)
            } else {
                after.dom().contains(id) == lane.dom().contains(id) && changes_of(after, id)
                    == changes_of(lane, id)
            }
        }),
    decreases queries.len(),
{
    if queries.len() > 0 {
        let shorter = queries.drop_last();
        let query = LiveQuery { id, kind };
        lemma_noted(lane, table, ids, shorter, kind, id);
        let before = noted(lane, table, ids, shorter, kind);
        if queries.contains(query) {
            let k = choose|k: int| 0 <= k < queries.len() && queries[k] == query;
            if k < shorter.len() {
                assert(shorter[k] == query);
                assert(shorter.contains(query));
            }
            assert(changes_of(lane, id).insert(table, ids).insert(table, ids) =~= changes_of(
                lane,
                id,
            ).insert(table, ids));
        } else {
            assert(!shorter.contains(query)) by {
                if shorter.contains(query) {
                    let k = choose|k: int| 0 <= k < shorter.len() && shorter[k] == query;
                    assert(queries[k] == query);
                }
            }
            assert(queries[queries.len() - 1] != query);
        }
    }
}

/// A query is told of just the changes of the tables that it reads: of all of them, and only if
/// one of them changed.
pub proof fn law_queries_are_told_what_they_read(
    queries: Map<u64, Seq<LiveQuery>>,
    changes: Map<u64, Set<u64>>,
    tables: Seq<u64>,
    query: LiveQuery,
)
    requires
        tables.no_duplicates(),
    ensures
        ({
            let lane = snapshot_lane(queries, changes, tables, query.kind);
            &&& lane.dom().contains(query.id) <==> exists|table: u64|
                tables.contains(table) && #[trigger] reads(queries, query, table)
            &&& forall|table: u64| #[trigger]
                changes_of(lane, query.id).dom().contains(table) <==> tables.contains(table)
                    && reads(queries, query, table)
            &&& forall|table: u64| #[trigger]
                changes_of(lane, query.id).dom().contains(table) ==> changes_of(
                    lane,
                    query.id,
                )[table] == changes[table]
        }),
    decreases tables.len(),
{
    if tables.len() == 0 {
        assert forall|table: u64| !tables.contains(table) by {}
    } else {
        let shorter = tables.drop_last();
        let last = tables.last();
        law_queries_are_told_what_they_read(queries, changes, shorter, query);
        let before = snapshot_lane(queries, changes, shorter, query.kind);
        let lane = snapshot_lane(queries, changes, tables, query.kind);
        lemma_noted(
            before,
            last,
            changes[last],
            queries_of(queries, last),
            query.kind,
            query.id,
        );
        assert(LiveQuery { id: query.id, kind: query.kind } == query);
        assert forall|table: u64| tables.contains(table) <==> (shorter.contains(table) || table
            == last) by {
            if shorter.contains(table) {
                let k = choose|k: int| 0 <= k < shorter.len() && shorter[k] == table;
                assert(tables[k] == table);
            }
            assert(tables[tables.len() - 1] == last);
            if tables.contains(table) {
                let k = choose|k: int| 0 <= k < tables.len() && tables[k] == table;
                if k < shorter.len() {
                    assert(shorter[k] == table);
                }
            }
        }
        if reads(queries, query, last) {
            assert(tables.contains(last) && reads(queries, query, last));
        } else if lane.dom().contains(query.id) {
            let table = choose|table: u64|
                shorter.contains(table) && #[trigger] reads(queries, query, table);
            assert(tables.contains(table) && reads(queries, query, table));
        }
        assert forall|table: u64| #[trigger]
            changes_of(lane, query.id).dom().contains(table) <==> tables.contains(table) && reads(
                queries,
                query,
                table,
            ) by {
            assert(changes_of(before, query.id).dom().contains(table) <==> shorter.contains(table)
                && reads(queries, query, table));
        }
    }
}

/// A query that is registered for tables reads those tables from then on, and no other query reads
/// more or less than before.
pub proof fn law_registered_queries_read_their_tables(
    queries: Map<u64, Seq<LiveQuery>>,
    query: LiveQuery,
    tables: Seq<TableId>,
    other: LiveQuery,
    table: TableId,
)
    ensures
        reads(registered(queries, query, tables), other, table as u64) <==> reads(
            queries,
            other,
            table as u64,
        ) || (other == query && tables.contains(table)),
    decreases tables.len(),
{
    if tables.len() > 0 {
        let front = tables.drop_last();
        law_registered_queries_read_their_tables(queries, query, front, other, table);
        let before = registered(queries, query, front);
        let last = tables.last();
        if front.contains(table) {
            assert(tables[front.index_of(table)] == table);
        }
        if tables.contains(table) && table != last {
            assert(front[tables.index_of(table)] == table);
        }
        assert(tables[tables.len() - 1] == last);
        if table == last {
            let list = queries_of(before, last as u64);
            let all = list.push(query);
            assert(queries_of(registered(queries, query, tables), last as u64) == all);
            assert(all[list.len() as int] == query);
            if list.contains(other) {
                assert(all[list.index_of(other)] == other);
            }
            if all.contains(other) && other != query {
                assert(list[all.index_of(other)] == other);
            }
        }
    }
}

proof fn lemma_active_of(queries: Seq<LiveQuery>, active: Set<u64>, query: LiveQuery)
    ensures
        active_of(queries, active).contains(query) <==> queries.contains(query) && active.contains(
            query.id,
        ),
    decreases queries.len(),
{
    if queries.len() > 0 {
        let front = queries.drop_last();
        let last = queries.last();
        lemma_active_of(front, active, query);
        let before = active_of(front, active);
        if front.contains(query) {
            assert(queries[front.index_of(query)] == query);
        }
        if queries.contains(query) && query != last {
            assert(front[queries.index_of(query)] == query);
        }
        assert(queries[queries.len() - 1] == last);
        if active.contains(last.id) {
            let all = before.push(last);
            assert(all[before.len() as int] == last);
            if before.contains(query) {
                assert(all[before.index_of(query)] == query);
            }
            if all.contains(query) && query != last {
                assert(before[all.index_of(query)] == query);
            }
        }
    }
}

/// Collecting keeps the queries that have subscribers and drops the others.
pub proof fn law_collecting_keeps_queries_with_subscribers(
    queries: Map<u64, Seq<LiveQuery>>,
    active: Set<u64>,
    query: LiveQuery,
    table: u64,
)
    ensures
        reads(collected(queries, active), query, table) <==> reads(queries, query, table)
            && active.contains(query.id),
        collected(queries, active).dom().contains(table) ==> exists|kept: LiveQuery| #[trigger]
            reads(collected(queries, active), kept, table),
{
    lemma_active_of(queries_of(queries, table), active, query);
    if collected(queries, active).dom().contains(table) {
        let list = collected(queries, active)[table];
        assert(list.contains(list[0]));
        assert(reads(collected(queries, active), list[0], table));
    }
}

/// A row that changed waits for the next flush together with those that wait already, and a flush is
/// scheduled. Rows that were added or dropped wait behind those that wait already. Other tables and
/// the registered queries are left alone.
pub proof fn law_changes_wait_for_the_next_flush(
    live: LiveView,
    table: u64,
    ids: Set<u64>,
    deltas: Seq<DeltaView>,
    other: u64,
    id: u64,
)
    ensures
        ({
            let after = live.with_changes(table, ids);
            let later = live.with_deltas(table, deltas);
            &&& after.flush_scheduled
            &&& after.pending_changes.dom().contains(table)
            &&& after.pending_changes[table].contains(id) <==> ids.contains(id) || (
            live.pending_changes.dom().contains(table) && live.pending_changes[table].contains(id))
            &&& other != table ==> (after.pending_changes.dom().contains(other)
                <==> live.pending_changes.dom().contains(other)) && after.pending_changes[other]
                == live.pending_changes[other]
            &&& after.pending_deltas == live.pending_deltas
            &&& later.pending_changes == live.pending_changes
            &&& later.flush_scheduled == live.flush_scheduled
            &&& later.pending_deltas.dom().contains(table)
            &&& live.pending_deltas.dom().contains(table) ==> later.pending_deltas[table]
                == live.pending_deltas[table] + deltas
            &&& !live.pending_deltas.dom().contains(table) ==> later.pending_deltas[table] == deltas
            &&& other != table ==> later.pending_deltas[other] == live.pending_deltas[other]
            &&& after.snapshot_queries == live.snapshot_queries
            &&& after.delta_queries == live.delta_queries
            &&& later.snapshot_queries == live.snapshot_queries
            &&& later.delta_queries == live.delta_queries
            &&& after.flushed().pending_changes.dom().is_empty()
            &&& later.flushed().pending_deltas.dom().is_empty()
            &&& !after.flushed().flush_scheduled
            &&& after.flushed().snapshot_queries == live.snapshot_queries
            &&& after.flushed().delta_queries == live.delta_queries
        }),
{
}

proof fn lemma_dispatched(
    queries: Seq<LiveQuery>,
    table: u64,
    deltas: Seq<DeltaView>,
    dispatch: DispatchView,
)
    ensures
        dispatched(queries, table, deltas).contains(dispatch) <==> queries.contains(dispatch.query)
            && dispatch.table == table && dispatch.deltas == deltas,
{
    let all = dispatched(queries, table, deltas);
    if all.contains(dispatch) {
        let k = all.index_of(dispatch);
        assert(queries[k] == dispatch.query);
    }
    if queries.contains(dispatch.query) && dispatch.table == table && dispatch.deltas == deltas {
        let k = queries.index_of(dispatch.query);
        assert(all[k] == dispatch);
    }
}

/// The added and dropped rows of a table go to just the queries with subscribers that follow the
/// table: each is handed those of that table.
pub proof fn law_followers_are_handed_their_rows(
    live: LiveView,
    deltas: Map<u64, Seq<DeltaView>>,
    tables: Seq<u64>,
    active: Set<u64>,
    dispatch: DispatchView,
)
    ensures
        live.delta_lane(deltas, tables, active).contains(dispatch) <==> tables.contains(
            dispatch.table,
        ) && reads(live.delta_queries, dispatch.query, dispatch.table) && active.contains(
            dispatch.query.id,
        ) && dispatch.deltas == deltas[dispatch.table],
    decreases tables.len(),
{
    if tables.len() > 0 {
        let front = tables.drop_last();
        let last = tables.last();
        law_followers_are_handed_their_rows(live, deltas, front, active, dispatch);
        let before = live.delta_lane(deltas, front, active);
        let added = dispatched(live.followers(last, active), last, deltas[last]);
        let all = before + added;
        lemma_dispatched(live.followers(last, active), last, deltas[last], dispatch);
        lemma_active_of(queries_of(live.delta_queries, last), active, dispatch.query);
        if front.contains(dispatch.table) {
            assert(tables[front.index_of(dispatch.table)] == dispatch.table);
        }
        if tables.contains(dispatch.table) && dispatch.table != last {
            assert(front[tables.index_of(dispatch.table)] == dispatch.table);
        }
        assert(tables[tables.len() - 1] == last);
        if before.contains(dispatch) {
            assert(all[before.index_of(dispatch)] == dispatch);
        }
        if added.contains(dispatch) {
            assert(all[before.len() + added.index_of(dispatch)] == dispatch);
        }
        if all.contains(dispatch) {
            let k = all.index_of(dispatch);
            if k < before.len() {
                assert(before[k] == dispatch);
            } else {
                assert(added[k - before.len()] == dispatch);
            }
        }
    }
}

/// The added and dropped rows of a table are kept for the queries that are run anew where one with
/// subscribers reads the table, or where no query with subscribers follows it.
pub proof fn law_rows_are_kept_for_queries_that_need_them(
    live: LiveView,
    deltas: Map<u64, Seq<DeltaView>>,
    active: Set<u64>,
    table: u64,
    query: LiveQuery,
)
    requires
        deltas.dom().contains(table),
    ensures
        ({
            let left = live.left_deltas(deltas, active);
            &&& left.dom().contains(table) ==> left[table] == deltas[table]
            &&& reads(live.snapshot_queries, query, table) && active.contains(query.id)
                ==> left.dom().contains(table)
            &&& (forall|other: LiveQuery| #[trigger]
                reads(live.delta_queries, other, table) ==> !active.contains(other.id))
                ==> left.dom().contains(table)
            &&& left.dom().contains(table) && reads(live.delta_queries, query, table)
                && active.contains(query.id) ==> exists|other: LiveQuery| #[trigger]
                reads(live.snapshot_queries, other, table) && active.contains(other.id)
        }),
{
    let followers = live.followers(table, active);
    let anew = active_of(queries_of(live.snapshot_queries, table), active);
    lemma_active_of(queries_of(live.snapshot_queries, table), active, query);
    lemma_active_of(queries_of(live.delta_queries, table), active, query);
    if followers.len() > 0 {
        lemma_active_of(queries_of(live.delta_queries, table), active, followers[0]);
        assert(followers.contains(followers[0]));
        assert(reads(live.delta_queries, followers[0], table));
    }
    if anew.len() > 0 {
        lemma_active_of(queries_of(live.snapshot_queries, table), active, anew[0]);
        assert(anew.contains(anew[0]));
        assert(reads(live.snapshot_queries, anew[0], table));
    }
}

/// A query that hands out changes follows the changes of its tables; one that hands out whole
/// results is run anew.
pub proof fn law_outputs_choose_their_engine(output: LiveOutputKind)
    ensures
        engine_for(output) is Delta <==> output is RowsDelta || output is GraphqlDelta,
        engine_for(output) is Snapshot <==> output is RowsSnapshot || output is GraphqlSnapshot,
{
}

} // verus!
