//! Starting live queries from their plans.
use vstd::prelude::*;

use crate::bootstrap::{
    bindings_view, source_filter_coverage, source_table_count, source_tables, BindingView,
    TraceBootstrapSourceBinding,
};
use crate::collections::RowIdSet;
use crate::gql_observable::{
    DeltaObservableView, GraphqlDeltaObservable, GraphqlSubscriptionObservable, SubscriptionView,
};
use crate::gql_payload::{GraphqlSubscribersView, PayloadView};
use crate::live_registry::{
    law_registered_queries_read_their_tables, reads, registered, LiveOutputKind, LivePlanDescriptor, LiveQuery, LiveQueryKind, LiveRegistry,
    LiveView,
};
use crate::partial_refresh::SnapshotPartialRefreshRuntime;
use crate::requery::{name_values, ObservableView, ReQueryObservable, SnapshotQueryProfile};
use crate::root_subset::RootSubsetRefreshRuntime;
use crate::row::{rows_view, Row};
use crate::schema::TableId;
use crate::subscriptions::SubscribersView;
use crate::summary::QueryResultSummary;
use crate::tables::IdTable;

verus! {

/// The names of tables by identifier. A later name takes the place of an earlier one.
pub open spec fn bound_names(bindings: Seq<(TableId, String)>) -> Map<u64, Seq<char>>
    decreases bindings.len(),
{
    if bindings.len() == 0 {
        Map::empty()
    } else {
        bound_names(bindings.drop_last()).insert(
            bindings.last().0 as u64,
            bindings.last().1@,
        )
    }
}

fn bound_table_names(bindings: &[(TableId, String)]) -> (names: IdTable<String>)
    ensures
        name_values(names@) == bound_names(bindings@),
{
    let mut names: IdTable<String> = IdTable::new();
    let mut i: usize = 0;
    assert(bindings@.take(0) =~= Seq::empty());
    assert(name_values(names@) =~= Map::empty());
    while i < bindings.len()
        invariant
            i <= bindings.len(),
            name_values(names@) == bound_names(bindings@.take(i as int)),
        decreases bindings.len() - i,
    {
        assert(bindings@.take(i + 1).drop_last() =~= bindings@.take(i as int));
        assert(bindings@.take(i + 1).last() == bindings@[i as int]);
        let ghost before = name_values(names@);
        let (id, name) = (bindings[i].0, &bindings[i].1);
        names.insert(id as u64, name.clone());
        assert(name_values(names@) =~= before.insert(id as u64, name@));
        i += 1;
    }
    assert(bindings@.take(bindings@.len() as int) =~= bindings@);
    names
}

/// The live queries with another one that is run anew.
pub open spec fn with_snapshot(live: LiveView, query: LiveQuery, tables: Seq<TableId>) -> LiveView {
    LiveView { snapshot_queries: registered(live.snapshot_queries, query, tables), ..live }
}

/// The live queries with another one that follows changes.
pub open spec fn with_delta(live: LiveView, query: LiveQuery, tables: Seq<TableId>) -> LiveView {
    LiveView { delta_queries: registered(live.delta_queries, query, tables), ..live }
}

/// Starts a query for rows that is run anew. `id` is the identifier of the query, and `bindings`
/// are the tables that it reads.
pub fn materialize_rows_snapshot(
    registry: &mut LiveRegistry,
    id: u64,
    descriptor: &LivePlanDescriptor,
    patch_table: Option<String>,
    initial_rows: Vec<Row>,
    initial_summary: QueryResultSummary,
    bindings: &[(TableId, String)],
    window: Option<SnapshotPartialRefreshRuntime>,
    roots: Option<RootSubsetRefreshRuntime>,
) -> (result: ReQueryObservable)
    requires
        descriptor.output == LiveOutputKind::RowsSnapshot,
    ensures
        final(registry)@ == with_snapshot(
            old(registry)@,
            LiveQuery { id, kind: LiveQueryKind::Rows },
            descriptor.dependencies.tables@,
        ),
        result@ == (ObservableView {
            patch_table: match patch_table {
                Some(name) => Some(name@),
                None => None,
            },
            table_names: bound_names(bindings@),
            result: rows_view(initial_rows@),
            summary: initial_summary,
            metadata: match window {
                Some(window) => Some(window.metadata),
                None => None,
            },
            window: match window {
                Some(window) => window.window(),
                None => Seq::empty(),
            },
            roots: match roots {
                Some(roots) => Some(roots@),
                None => None,
            },
            subscribers: SubscribersView::none(),
            profile: SnapshotQueryProfile::untried(),
        }),
{
    registry.register_snapshot(
        LiveQuery { id, kind: LiveQueryKind::Rows },
        &descriptor.dependencies,
    );
    ReQueryObservable::new_with_summary(
        patch_table,
        initial_rows,
        initial_summary,
        bound_table_names(bindings),
        window,
        roots,
    )
}

/// What a query for rows that follows changes starts from.
#[derive(Debug)]
pub struct RowsDeltaStart {
    pub source_table_count: usize,
    pub initial_row_count: usize,
    pub source_filter_coverage: Vec<bool>,
}

/// Starts a query for rows that follows changes: tells how many tables its sources read, and which
/// sources hand out only rows that pass their filter.
pub fn materialize_rows_delta(
    registry: &mut LiveRegistry,
    id: u64,
    descriptor: &LivePlanDescriptor,
    sources: &[TraceBootstrapSourceBinding],
    initial_rows: &[Row],
) -> (start: RowsDeltaStart)
    requires
        descriptor.output == LiveOutputKind::RowsDelta,
    ensures
        final(registry)@ == with_delta(
            old(registry)@,
            LiveQuery { id, kind: LiveQueryKind::Rows },
            descriptor.dependencies.tables@,
        ),
        start.source_table_count == source_tables(bindings_view(sources@)).len(),
        start.initial_row_count == initial_rows@.len(),
        start.source_filter_coverage@ == bindings_view(sources@).map_values(
            |binding: BindingView| binding.covers_source_filter,
        ),
{
    registry.register_delta(
        LiveQuery { id, kind: LiveQueryKind::Rows },
        &descriptor.dependencies,
    );
    RowsDeltaStart {
        source_table_count: source_table_count(sources),
        initial_row_count: initial_rows.len(),
        source_filter_coverage: source_filter_coverage(sources),
    }
}

/// The identifiers of tables.
pub open spec fn wide_ids(tables: Seq<TableId>) -> Set<u64> {
    tables.map_values(|table: TableId| table as u64).to_set()
}

fn wide_id_set(tables: &[TableId]) -> (ids: RowIdSet)
    ensures
        ids@ == wide_ids(tables@),
{
    let ghost wide = tables@.map_values(|table: TableId| table as u64);
    let mut list: Vec<u64> = Vec::new();
    let mut i: usize = 0;
    while i < tables.len()
        invariant
            i <= tables.len(),
            list.len() == i,
            forall|j: int| 0 <= j < i ==> list@[j] == tables@[j] as u64,
        decreases tables.len() - i,
    {
        list.push(tables[i] as u64);
        i += 1;
    }
    assert(list@ =~= wide);
    RowIdSet::from_list(list.as_slice())
}

/// Starts a GraphQL subscription that is run anew.
pub fn materialize_graphql_snapshot(
    registry: &mut LiveRegistry,
    id: u64,
    descriptor: &LivePlanDescriptor,
    initial_rows: Vec<Row>,
    initial_summary: QueryResultSummary,
    roots: Option<RootSubsetRefreshRuntime>,
) -> (result: GraphqlSubscriptionObservable)
    requires
        descriptor.output == LiveOutputKind::GraphqlSnapshot,
    ensures
        final(registry)@ == with_snapshot(
            old(registry)@,
            LiveQuery { id, kind: LiveQueryKind::Graphql },
            descriptor.dependencies.tables@,
        ),
        result@ == (SubscriptionView {
            root_tables: wide_ids(descriptor.dependencies.root_tables@),
            root_rows: rows_view(initial_rows@),
            root_summary: initial_summary,
            roots: match roots {
                Some(roots) => Some(roots@),
                None => None,
            },
            payload: PayloadView { response: None, encoded: false, dirty: true },
            subscribers: GraphqlSubscribersView::none(),
            changed_ids: Set::empty(),
            saw_nested: false,
        }),
{
    registry.register_snapshot(
        LiveQuery { id, kind: LiveQueryKind::Graphql },
        &descriptor.dependencies,
    );
    GraphqlSubscriptionObservable::new(
        wide_id_set(descriptor.dependencies.root_tables.as_slice()),
        initial_rows,
        initial_summary,
        roots,
    )
}

/// Starts a GraphQL subscription that follows changes.
pub fn materialize_graphql_delta(
    registry: &mut LiveRegistry,
    id: u64,
    descriptor: &LivePlanDescriptor,
    has_nested_relations: bool,
) -> (result: GraphqlDeltaObservable)
    requires
        descriptor.output == LiveOutputKind::GraphqlDelta,
    ensures
        final(registry)@ == with_delta(
            old(registry)@,
            LiveQuery { id, kind: LiveQueryKind::Graphql },
            descriptor.dependencies.tables@,
        ),
        result@ == (DeltaObservableView {
            has_nested_relations,
            payload: PayloadView { response: None, encoded: false, dirty: true },
            subscribers: GraphqlSubscribersView::none(),
        }),
{
    registry.register_delta(
        LiveQuery { id, kind: LiveQueryKind::Graphql },
        &descriptor.dependencies,
    );
    GraphqlDeltaObservable::new(has_nested_relations)
}

/// A table has the name of the last binding of its identifier, and none without a binding.
pub proof fn law_tables_have_their_bound_names(
    bindings: Seq<(TableId, String)>,
    at: int,
    table: TableId,
)
    ensures
        0 <= at < bindings.len() && bindings[at].0 == table && (forall|later: int|
            at < later < bindings.len() ==> (#[trigger] bindings[later]).0 != table)
            ==> bound_names(bindings).dom().contains(table as u64) && bound_names(
            bindings,
        )[table as u64] == bindings[at].1@,
        (forall|i: int| 0 <= i < bindings.len() ==> (#[trigger] bindings[i]).0 != table)
            ==> !bound_names(bindings).dom().contains(table as u64),
    decreases bindings.len(),
{
    if bindings.len() > 0 {
        let front = bindings.drop_last();
        let last = bindings.len() - 1;
        assert(forall|i: int| 0 <= i < last ==> front[i] == bindings[i]);
        law_tables_have_their_bound_names(front, at, table);
        assert(bindings[last] == bindings.last());
    }
}

/// A live query is told of the changes of the tables that it depends on, and of no others: one that
/// is run anew is registered as such, one that follows changes as such.
pub proof fn law_started_queries_read_their_tables(
    live: LiveView,
    query: LiveQuery,
    tables: Seq<TableId>,
    other: LiveQuery,
    table: TableId,
)
    ensures
        reads(with_snapshot(live, query, tables).snapshot_queries, other, table as u64) <==> reads(
            live.snapshot_queries,
            other,
            table as u64,
        ) || (other == query && tables.contains(table)),
        with_snapshot(live, query, tables).delta_queries == live.delta_queries,
        reads(with_delta(live, query, tables).delta_queries, other, table as u64) <==> reads(
            live.delta_queries,
            other,
            table as u64,
        ) || (other == query && tables.contains(table)),
        with_delta(live, query, tables).snapshot_queries == live.snapshot_queries,
        with_snapshot(live, query, tables).pending_changes == live.pending_changes,
        with_delta(live, query, tables).pending_deltas == live.pending_deltas,
{
    law_registered_queries_read_their_tables(live.snapshot_queries, query, tables, other, table);
    law_registered_queries_read_their_tables(live.delta_queries, query, tables, other, table);
}

/// The numbers of root tables are those of the tables, and no others.
pub proof fn law_root_tables_are_the_given_ones(tables: Seq<TableId>, id: u64)
    ensures
        wide_ids(tables).contains(id) <==> exists|i: int|
            0 <= i < tables.len() && #[trigger] tables[i] as u64 == id,
{
    let wide = tables.map_values(|table: TableId| table as u64);
    if exists|i: int| 0 <= i < tables.len() && #[trigger] tables[i] as u64 == id {
        let i = choose|i: int| 0 <= i < tables.len() && #[trigger] tables[i] as u64 == id;
        assert(wide[i] == id);
        assert(wide.contains(id));
    }
    if wide_ids(tables).contains(id) {
        let i = wide.index_of(id);
        assert(tables[i] as u64 == id);
    }
}

} // verus!
