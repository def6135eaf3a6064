//! Live GraphQL queries.
//!
//! A query either refreshes its root rows when tables change, or follows the changes of a
//! maintained result. The types here decide what a change asks for; the caller runs queries and
//! renders responses. Each call takes what the last step asked for and says what comes next.
use vstd::prelude::*;

use crate::affected_roots::sets_view;
use crate::collections::{ascending, RowIdSet};
use crate::gql_payload::{
    collect_delta_ids, delta_ids, keeps_positions, output_deltas_preserve_root_positions,
    response_differs, GraphqlInvalidation, GraphqlOutputAdapter, GraphqlResponsePayloadCache,
    GraphqlRootListPatch, GraphqlSubscribers, GraphqlSubscribersView, InvalidationView,
    PayloadView,
};
use crate::gql_response::{GraphqlResponse, ResponseView};
use crate::live_registry::{row_deltas_view, DeltaView, RowDelta};
use crate::refresh_policy::{RootSubsetCostPolicy, RootSubsetPlanVariant, SnapshotRefreshCostModel};
use crate::requery::{PatchOutcome, PatchView};
use crate::root_subset::{
    affected_view, collect_all, groups_of, RootKey, RootKeySet, RootSubsetRefreshRuntime,
    RuntimeView,
};
use crate::row::{rows_view, Row, RowView};
use crate::summary::{query_results_equal, summary_of, QueryResultSummary};
use crate::tables::IdTable;

verus! {

/// How a response is obtained.
#[derive(Clone, Copy, Debug, PartialEq, Eq, Structural)]
pub enum ResponseSource {
    /// The last response is up to date.
    Cached,
    /// A response is rendered and not kept.
    Render,
    /// A response is rendered and kept.
    Materialize,
}

/// How a response is obtained: the last one if it is up to date, or else a new one, which is kept
/// only if it is watched.
pub open spec fn source_of(payload: PayloadView, callbacks: nat) -> ResponseSource {
    if payload.response is Some && !payload.dirty {
        ResponseSource::Cached
    } else if callbacks == 0 {
        ResponseSource::Render
    } else {
        ResponseSource::Materialize
    }
}

/// What comes of a rendered response: what is kept, and whether subscribers are to be told.
pub open spec fn materialized(
    payload: PayloadView,
    response: Option<ResponseView>,
    batched: bool,
    patch: Option<GraphqlRootListPatch>,
) -> (PayloadView, bool) {
    if payload.response is Some && !payload.dirty {
        (payload, false)
    } else {
        match response {
            None => (payload, false),
            Some(response) => if response_differs(batched, patch, payload.response, response) {
                (PayloadView { response: Some(response), encoded: false, dirty: false }, true)
            } else {
                (PayloadView { dirty: false, ..payload }, false)
            },
        }
    }
}

fn materialize(
    payload: &mut GraphqlResponsePayloadCache,
    response: Option<GraphqlResponse>,
    batched: bool,
    patch: Option<&GraphqlRootListPatch>,
) -> (emit: bool)
    ensures
        (final(payload).view(), emit) == materialized(
            old(payload).view(),
            match response {
                Some(response) => Some(response.view()),
                None => None,
            },
            batched,
            match patch {
                Some(patch) => Some(*patch),
                None => None,
            },
        ),
{
    if payload.has_clean_response() {
        return false;
    }
    match response {
        None => false,
        Some(response) => {
            let adapter = GraphqlOutputAdapter::full_payload_for(batched, patch);
            let changed = adapter.response_changed(payload.current_response(), &response);
            payload.finish_materialize(response, changed);
            changed
        },
    }
}

/// What comes next for a query that refreshes its root rows.
pub enum GraphqlAction {
    /// Nothing.
    Finished,
    /// Patch the root rows with the rows that changed.
    Patch { ids: Vec<u64> },
    /// Find the affected root rows.
    FindAffected,
    /// Run a variant of the query on root rows.
    RunRoots { ids: Vec<u64>, keys: RootKeySet, variant: RootSubsetPlanVariant },
    /// Run the query.
    RunQuery,
    /// Invalidate what was built of the response, and render it anew if it is watched.
    Invalidate { root_changed: bool, dirty_root_rows: RowIdSet, render: bool },
}

/// What an action asks for.
#[allow(inconsistent_fields)]
pub enum GraphqlActionView {
    Finished,
    Patch { ids: Set<u64> },
    FindAffected,
    RunRoots { ids: Set<u64>, keys: Set<RootKey>, variant: RootSubsetPlanVariant },
    RunQuery,
    Invalidate { root_changed: bool, dirty_root_rows: Set<u64>, render: bool },
}

impl View for GraphqlAction {
    type V = GraphqlActionView;

    open spec fn view(&self) -> GraphqlActionView {
        match self {
            GraphqlAction::Finished => GraphqlActionView::Finished,
            GraphqlAction::Patch { ids } => GraphqlActionView::Patch { ids: ids@.to_set() },
            GraphqlAction::FindAffected => GraphqlActionView::FindAffected,
            GraphqlAction::RunRoots { ids, keys, variant } => GraphqlActionView::RunRoots {
                ids: ids@.to_set(),
                keys: keys@,
                variant: *variant,
            },
            GraphqlAction::RunQuery => GraphqlActionView::RunQuery,
            GraphqlAction::Invalidate { root_changed, dirty_root_rows, render } =>
            GraphqlActionView::Invalidate {
                root_changed: *root_changed,
                dirty_root_rows: dirty_root_rows@,
                render: *render,
            },
        }
    }
}

/// What is known of a query that refreshes its root rows.
pub struct SubscriptionView {
    pub root_tables: Set<u64>,
    pub root_rows: Seq<RowView>,
    pub root_summary: QueryResultSummary,
    pub roots: Option<RuntimeView>,
    pub payload: PayloadView,
    pub subscribers: GraphqlSubscribersView,
    pub changed_ids: Set<u64>,
    pub saw_nested: bool,
}

/// What is known of the query, and what comes next.
pub type GraphqlTransition = (SubscriptionView, GraphqlActionView);

/// The changed rows of root tables.
pub open spec fn root_changes(
    root_tables: Set<u64>,
    changes: Map<u64, Set<u64>>,
    tables: Seq<u64>,
) -> Set<u64>
    decreases tables.len(),
{
    if tables.len() == 0 {
        Set::empty()
    } else if root_tables.contains(tables.last()) {
        root_changes(root_tables, changes, tables.drop_last()).union(changes[tables.last()])
    } else {
        root_changes(root_tables, changes, tables.drop_last())
    }
}

/// A table that is no root table changed.
pub open spec fn has_nested_change(root_tables: Set<u64>, tables: Seq<u64>) -> bool {
    exists|i: int| 0 <= i < tables.len() && !root_tables.contains(#[trigger] tables[i])
}

impl SubscriptionView {
    /// The root rows are refreshed; the response follows if something of it changed.
    pub open spec fn refreshed(self, root_changed: bool, dirty: Set<u64>) -> GraphqlTransition {
        if !root_changed && !self.saw_nested {
            (self, GraphqlActionView::Finished)
        } else {
            (
                SubscriptionView { payload: PayloadView { dirty: true, ..self.payload }, ..self },
                GraphqlActionView::Invalidate {
                    root_changed,
                    dirty_root_rows: dirty,
                    render: self.subscribers.callbacks.len() > 0,
                },
            )
        }
    }

    /// The affected roots are refreshed, or else the whole query is run.
    pub open spec fn try_roots(self) -> GraphqlTransition {
        if self.roots is Some {
            (self, GraphqlActionView::FindAffected)
        } else {
            (self, GraphqlActionView::RunQuery)
        }
    }

    /// A change of tables. Without subscribers nothing is done. Changes of root tables alone may
    /// patch the root rows; a change of other tables refreshes them where the affected roots can
    /// be told.
    pub open spec fn changed(self, changes: Map<u64, Set<u64>>, tables: Seq<u64>) -> GraphqlTransition {
        let ids = root_changes(self.root_tables, changes, tables);
        let nested = has_nested_change(self.root_tables, tables);
        let noted = SubscriptionView { changed_ids: ids, saw_nested: nested, ..self };
        if !self.subscribers.is_observed() {
            (self, GraphqlActionView::Finished)
        } else if ids != Set::<u64>::empty() && !nested {
            (noted, GraphqlActionView::Patch { ids })
        } else if self.roots is Some {
            (noted, GraphqlActionView::FindAffected)
        } else if ids != Set::<u64>::empty() {
            (noted, GraphqlActionView::RunQuery)
        } else {
            noted.refreshed(false, Set::empty())
        }
    }

    /// The root rows were patched, or not.
    pub open spec fn patched(self, outcome: PatchView) -> GraphqlTransition {
        match outcome {
            PatchView::Changed(rows) => SubscriptionView {
                root_rows: rows,
                root_summary: summary_of(rows),
                ..self
            }.refreshed(true, self.changed_ids),
            PatchView::Unchanged => self.refreshed(false, Set::empty()),
            _ => self.try_roots(),
        }
    }

    /// The affected root rows are known, or cannot be told.
    pub open spec fn roots_affected(
        self,
        affected: Option<Set<u64>>,
        stored: Option<Seq<(u64, Option<RowView>)>>,
        root_changed: bool,
        table_row_count: usize,
    ) -> GraphqlTransition {
        match (self.roots, affected) {
            (Some(roots), Some(ids)) => if ids == Set::<u64>::empty() {
                self.refreshed(false, Set::empty())
            } else {
                match stored {
                    Some(stored) => {
                        let outcome = collect_all(
                            roots.registry,
                            stored,
                            root_changed,
                            roots.store_indices,
                        );
                        let next = SubscriptionView {
                            roots: Some(RuntimeView { registry: outcome.registry, ..roots }),
                            ..self
                        };
                        if !outcome.complete {
                            (next, GraphqlActionView::RunQuery)
                        } else if outcome.affected == Set::<RootKey>::empty() {
                            next.refreshed(false, Set::empty())
                        } else {
                            (
                                next,
                                GraphqlActionView::RunRoots {
                                    ids,
                                    keys: outcome.affected,
                                    variant: RootSubsetCostPolicy::standard_policy().variant_for(
                                        ids.len() as usize,
                                        table_row_count,
                                    ),
                                },
                            )
                        }
                    },
                    None => (self, GraphqlActionView::RunQuery),
                }
            },
            _ => (self, GraphqlActionView::RunQuery),
        }
    }

    /// The query was run on the affected root rows.
    pub open spec fn roots_rows(
        self,
        keys: Set<RootKey>,
        ids: Set<u64>,
        rows: Option<Seq<RowView>>,
    ) -> GraphqlTransition {
        match (self.roots, rows) {
            (Some(roots), Some(rows)) => match groups_of(rows, roots.output_indices) {
                Some(groups) => {
                    let refreshed = roots.refreshed(keys, groups);
                    let summary = summary_of(refreshed.result());
                    SubscriptionView {
                        roots: Some(refreshed),
                        root_rows: refreshed.result(),
                        root_summary: summary,
                        ..self
                    }.refreshed(
                        !(self.root_summary == summary && self.root_rows == refreshed.result()),
                        ids,
                    )
                },
                None => (self, GraphqlActionView::RunQuery),
            },
            _ => (self, GraphqlActionView::RunQuery),
        }
    }

    /// The whole query was run, or failed.
    pub open spec fn query_rows(self, output: Option<(Seq<RowView>, QueryResultSummary)>) -> GraphqlTransition {
        match output {
            None => (self, GraphqlActionView::Finished),
            Some((rows, summary)) => if self.root_summary == summary && self.root_rows == rows {
                self.refreshed(false, Set::empty())
            } else {
                SubscriptionView { root_rows: rows, root_summary: summary, ..self }.refreshed(
                    true,
                    self.changed_ids,
                )
            },
        }
    }
}

/// A live GraphQL query that refreshes its root rows when tables change.
pub struct GraphqlSubscriptionObservable {
    root_tables: RowIdSet,
    root_rows: Vec<Row>,
    root_summary: QueryResultSummary,
    roots: Option<RootSubsetRefreshRuntime>,
    payload: GraphqlResponsePayloadCache,
    subscribers: GraphqlSubscribers,
    changed_ids: RowIdSet,
    saw_nested: bool,
}

impl GraphqlSubscriptionObservable {
    /// What is known of the query.
    pub closed spec fn view(&self) -> SubscriptionView {
        SubscriptionView {
            root_tables: self.root_tables@,
            root_rows: rows_view(self.root_rows@),
            root_summary: self.root_summary,
            roots: match self.roots {
                Some(roots) => Some(roots@),
                None => None,
            },
            payload: self.payload.view(),
            subscribers: self.subscribers@,
            changed_ids: self.changed_ids@,
            saw_nested: self.saw_nested,
        }
    }

    /// Starts with root rows. There is no response yet.
    pub fn new(
        root_tables: RowIdSet,
        initial_rows: Vec<Row>,
        initial_summary: QueryResultSummary,
        roots: Option<RootSubsetRefreshRuntime>,
    ) -> (result: Self)
        ensures
            result@ == (SubscriptionView {
                root_tables: root_tables@,
                root_rows: rows_view(initial_rows@),
                root_summary: initial_summary,
                roots: match roots {
                    Some(roots) => Some(roots@),
                    None => None,
                },
                payload: PayloadView { response: None, encoded: false, dirty: true },
                subscribers: GraphqlSubscribersView::none(),
                changed_ids: Set::empty(),
                saw_nested: false,
            }),
    {
        GraphqlSubscriptionObservable {
            root_tables,
            root_rows: initial_rows,
            root_summary: initial_summary,
            roots,
            payload: GraphqlResponsePayloadCache::new(),
            subscribers: GraphqlSubscribers::new(),
            changed_ids: RowIdSet::new(),
            saw_nested: false,
        }
    }

    /// The root rows.
    pub fn root_rows(&self) -> (rows: &[Row])
        ensures
            rows_view(rows@) == self@.root_rows,
    {
        self.root_rows.as_slice()
    }

    /// Adds a subscriber that only keeps the query alive.
    pub fn attach_keepalive(&mut self) -> (id: usize)
        requires
            old(self)@.subscribers.next_sub_id < usize::MAX,
        ensures
            id == old(self)@.subscribers.next_sub_id,
            final(self)@ == (SubscriptionView {
                subscribers: GraphqlSubscribersView {
                    keepalive_ids: old(self)@.subscribers.keepalive_ids.insert(id as u64),
                    next_sub_id: (id + 1) as usize,
                    ..old(self)@.subscribers
                },
                ..old(self)@
            }),
    {
        self.subscribers.add_keepalive()
    }

    /// Adds a subscriber that is called.
    pub fn subscribe(&mut self) -> (id: usize)
        requires
            old(self)@.subscribers.next_sub_id < usize::MAX,
        ensures
            id == old(self)@.subscribers.next_sub_id,
            final(self)@ == (SubscriptionView {
                subscribers: GraphqlSubscribersView {
                    callbacks: old(self)@.subscribers.callbacks.push(id),
                    next_sub_id: (id + 1) as usize,
                    ..old(self)@.subscribers
                },
                ..old(self)@
            }),
    {
        self.subscribers.add_callback()
    }

    /// Drops a subscriber and tells whether there was one.
    pub fn unsubscribe(&mut self, id: usize) -> (removed: bool)
        ensures
            removed == (old(self)@.subscribers.keepalive_ids.contains(id as u64)
                || old(self)@.subscribers.callbacks.contains(id)),
            final(self)@ == (SubscriptionView {
                subscribers: old(self)@.subscribers.without(id),
                ..old(self)@
            }),
    {
        self.subscribers.remove(id)
    }

    /// The number of subscribers.
    pub fn subscription_count(&self) -> (count: usize)
        requires
            self@.subscribers.keepalive_ids.len() + self@.subscribers.callbacks.len()
                <= usize::MAX,
        ensures
            count == self@.subscribers.keepalive_ids.len() + self@.subscribers.callbacks.len(),
    {
        self.subscribers.total_count()
    }

    /// The number of subscribers that are called.
    pub fn listener_count(&self) -> (count: usize)
        ensures
            count == self@.subscribers.callbacks.len(),
    {
        self.subscribers.callback_count()
    }

    /// Tells how the response is obtained.
    pub fn response_source(&self) -> (source: ResponseSource)
        ensures
            source == source_of(self@.payload, self@.subscribers.callbacks.len()),
    {
        if self.payload.has_clean_response() {
            ResponseSource::Cached
        } else if self.subscribers.callback_count() == 0 {
            ResponseSource::Render
        } else {
            ResponseSource::Materialize
        }
    }

    /// The last response.
    pub fn current_response(&self) -> (response: Option<&GraphqlResponse>)
        ensures
            match response {
                Some(response) => self@.payload.response == Some(response.view()),
                None => self@.payload.response is None,
            },
    {
        self.payload.current_response()
    }

    /// Takes a rendered response, none if rendering failed, and tells whether subscribers are to
    /// be told. `patch` is the last patch of a response that is built in batches.
    pub fn rendered(
        &mut self,
        response: Option<GraphqlResponse>,
        batched: bool,
        patch: Option<&GraphqlRootListPatch>,
    ) -> (emit: bool)
        ensures
            ({
                let (payload, expected) = materialized(
                    old(self)@.payload,
                    match response {
                        Some(response) => Some(response.view()),
                        None => None,
                    },
                    batched,
                    match patch {
                        Some(patch) => Some(*patch),
                        None => None,
                    },
                );
                &&& emit == expected
                &&& final(self)@ == (SubscriptionView { payload, ..old(self)@ })
            }),
    {
        materialize(&mut self.payload, response, batched, patch)
    }

    fn refreshed(&mut self, root_changed: bool, dirty: RowIdSet) -> (action: GraphqlAction)
        ensures
            (final(self)@, action@) == old(self)@.refreshed(root_changed, dirty@),
    {
        if !root_changed && !self.saw_nested {
            return GraphqlAction::Finished;
        }
        self.payload.mark_dirty();
        GraphqlAction::Invalidate {
            root_changed,
            dirty_root_rows: dirty,
            render: self.subscribers.callback_count() > 0,
        }
    }

    fn try_roots(&mut self) -> (action: GraphqlAction)
        ensures
            (final(self)@, action@) == old(self)@.try_roots(),
    {
        if self.roots.is_some() {
            GraphqlAction::FindAffected
        } else {
            GraphqlAction::RunQuery
        }
    }

    /// Answers a change of tables, given by the identifiers of the rows that changed.
    pub fn on_change(&mut self, changes: &IdTable<RowIdSet>) -> (action: GraphqlAction)
        ensures
            (final(self)@, action@) == old(self)@.changed(sets_view(changes@), changes.order()),
            action matches GraphqlAction::Patch { ids } ==> ascending(ids@),
    {
        if !self.subscribers.is_observed() {
            return GraphqlAction::Finished;
        }
        let ghost start = self@;
        let ghost sets = sets_view(changes@);
        let ghost order = changes.order();
        let count = changes.len();
        let mut ids = RowIdSet::new();
        let mut nested = false;
        let mut i: usize = 0;
        assert(order.take(0) =~= Seq::empty());
        while i < count
            invariant
                i <= count,
                count == order.len(),
                self@ == start,
                start == old(self)@,
                sets == sets_view(changes@),
                order == changes.order(),
                ids@ == root_changes(start.root_tables, sets, order.take(i as int)),
                nested == has_nested_change(start.root_tables, order.take(i as int)),
            decreases count - i,
        {
            let ghost shorter = order.take(i as int);
            let ghost longer = order.take(i + 1);
            let ghost nested_before = nested;
            assert(longer.drop_last() =~= shorter);
            assert(longer.last() == order[i as int]);
            if self.root_tables.contains(*changes.key_at(i)) {
                ids.extend_set(changes.value_at(i));
            } else {
                nested = true;
            }
            proof {
                assert(longer[i as int] == order[i as int]);
                if nested_before {
                    let k = choose|k: int|
                        0 <= k < shorter.len() && !start.root_tables.contains(
                            #[trigger] shorter[k],
                        );
                    assert(longer[k] == shorter[k]);
                }
                if has_nested_change(start.root_tables, longer) && !nested_before {
                    let k = choose|k: int|
                        0 <= k < longer.len() && !start.root_tables.contains(
                            #[trigger] longer[k],
                        );
                    if k < i {
                        assert(shorter[k] == longer[k]);
                    }
                }
            }
            i += 1;
        }
        assert(order.take(order.len() as int) =~= order);
        let patch = !ids.is_empty() && !nested;
        let none = ids.is_empty();
        let sorted = ids.sorted();
        self.changed_ids = ids;
        self.saw_nested = nested;
        if patch {
            GraphqlAction::Patch { ids: sorted }
        } else if self.roots.is_some() {
            GraphqlAction::FindAffected
        } else if !none {
            GraphqlAction::RunQuery
        } else {
            self.refreshed(false, RowIdSet::new())
        }
    }

    /// Takes what patching the root rows came to.
    pub fn patched(&mut self, outcome: PatchOutcome) -> (action: GraphqlAction)
        ensures
            (final(self)@, action@) == old(self)@.patched(outcome@),
    {
        match outcome {
            PatchOutcome::Changed(rows) => {
                self.root_summary = QueryResultSummary::from_rows(rows.as_slice());
                self.root_rows = rows;
                let dirty = self.changed_ids.copy();
                self.refreshed(true, dirty)
            },
            PatchOutcome::Unchanged => self.refreshed(false, RowIdSet::new()),
            PatchOutcome::NoTable => self.try_roots(),
            PatchOutcome::Declined => self.try_roots(),
        }
    }

    /// Takes the affected root rows. `stored` are the rows stored under them in the root table,
    /// `root_changed` tells whether the root table itself changed, and `table_row_count` is the
    /// number of its rows.
    pub fn roots_affected(
        &mut self,
        affected: Option<&RowIdSet>,
        stored: Option<&[(u64, Option<Row>)]>,
        root_changed: bool,
        table_row_count: usize,
    ) -> (action: GraphqlAction)
        ensures
            (final(self)@, action@) == old(self)@.roots_affected(
                match affected {
                    Some(ids) => Some(ids@),
                    None => None,
                },
                match stored {
                    Some(stored) => Some(affected_view(stored@)),
                    None => None,
                },
                root_changed,
                table_row_count,
            ),
            action matches GraphqlAction::RunRoots { ids, .. } ==> ascending(ids@),
    {
        match (&mut self.roots, affected) {
            (Some(roots), Some(ids)) => {
                if ids.is_empty() {
                    return self.refreshed(false, RowIdSet::new());
                }
                if let Some(stored) = stored {
                    if let Some(keys) = roots.collect_affected_root_keys(stored, root_changed) {
                        if keys.is_empty() {
                            return self.refreshed(false, RowIdSet::new());
                        }
                        let decision = SnapshotRefreshCostModel::standard().decide_root_subset_refresh(
                            ids.len(),
                            table_row_count,
                        );
                        return GraphqlAction::RunRoots {
                            ids: ids.sorted(),
                            keys,
                            variant: decision.variant,
                        };
                    }
                }
            },
            _ => {},
        }
        GraphqlAction::RunQuery
    }

    /// Takes the rows that the query gives on the affected root rows.
    pub fn roots_rows(&mut self, keys: &RootKeySet, ids: &RowIdSet, rows: Option<&[Row]>) -> (action:
        GraphqlAction)
        ensures
            (final(self)@, action@) == old(self)@.roots_rows(
                keys@,
                ids@,
                match rows {
                    Some(rows) => Some(rows_view(rows@)),
                    None => None,
                },
            ),
    {
        let refreshed = match (&mut self.roots, rows) {
            (Some(roots), Some(rows)) => roots.apply_subset_rows(keys, rows),
            _ => None,
        };
        match refreshed {
            None => GraphqlAction::RunQuery,
            Some(rows) => {
                let summary = QueryResultSummary::from_rows(rows.as_slice());
                let changed = !query_results_equal(
                    &self.root_summary,
                    &summary,
                    self.root_rows.as_slice(),
                    rows.as_slice(),
                );
                self.root_rows = rows;
                self.root_summary = summary;
                self.refreshed(changed, ids.copy())
            },
        }
    }

    /// Takes the rows that the query gives, with their summary; none if it failed.
    pub fn query_rows(&mut self, output: Option<(Vec<Row>, QueryResultSummary)>) -> (action:
        GraphqlAction)
        ensures
            (final(self)@, action@) == old(self)@.query_rows(
                match output {
                    Some((rows, summary)) => Some((rows_view(rows@), summary)),
                    None => None,
                },
            ),
    {
        let (rows, summary) = match output {
            Some(output) => output,
            None => {
                return GraphqlAction::Finished;
            },
        };
        if query_results_equal(
            &self.root_summary,
            &summary,
            self.root_rows.as_slice(),
            rows.as_slice(),
        ) {
            return self.refreshed(false, RowIdSet::new());
        }
        self.root_rows = rows;
        self.root_summary = summary;
        let dirty = self.changed_ids.copy();
        self.refreshed(true, dirty)
    }
}

/// What is known of a query that follows the changes of a maintained result.
pub struct DeltaObservableView {
    pub has_nested_relations: bool,
    pub payload: PayloadView,
    pub subscribers: GraphqlSubscribersView,
}

/// What comes next for a query that follows changes.
#[derive(Clone, Copy, Debug, PartialEq, Eq, Structural)]
pub enum DeltaAction {
    /// Nothing.
    Finished,
    /// Invalidate what was built of the response, and render it anew if it is watched.
    Invalidate { render: bool },
}

/// A live GraphQL query that follows the changes of a maintained result.
pub struct GraphqlDeltaObservable {
    has_nested_relations: bool,
    payload: GraphqlResponsePayloadCache,
    subscribers: GraphqlSubscribers,
}

/// What changes of a result add to an invalidation: the rows that changed, and whether every row
/// stays at its position.
pub open spec fn with_output(invalidation: InvalidationView, output: Seq<DeltaView>) -> InvalidationView {
    if output.len() == 0 {
        InvalidationView { root_changed: false, ..invalidation }
    } else {
        InvalidationView {
            root_changed: true,
            dirty_root_rows: delta_ids(output),
            stable_root_positions: keeps_positions(output),
            ..invalidation
        }
    }
}

/// Adds the changes of a result to an invalidation.
pub fn complete_invalidation(invalidation: &mut GraphqlInvalidation, output_deltas: &[RowDelta])
    ensures
        final(invalidation)@ == with_output(
            old(invalidation)@,
            row_deltas_view(output_deltas@),
        ),
{
    assert(row_deltas_view(output_deltas@).len() == output_deltas@.len());
    invalidation.root_changed = output_deltas.len() > 0;
    if invalidation.root_changed {
        invalidation.dirty_root_rows = collect_delta_ids(output_deltas);
        invalidation.stable_root_positions = output_deltas_preserve_root_positions(output_deltas);
    }
}

impl GraphqlDeltaObservable {
    /// What is known of the query.
    pub closed spec fn view(&self) -> DeltaObservableView {
        DeltaObservableView {
            has_nested_relations: self.has_nested_relations,
            payload: self.payload.view(),
            subscribers: self.subscribers@,
        }
    }

    /// Starts without a response. `has_nested_relations` tells whether the response follows
    /// relations.
    pub fn new(has_nested_relations: bool) -> (result: Self)
        ensures
            result@ == (DeltaObservableView {
                has_nested_relations,
                payload: PayloadView { response: None, encoded: false, dirty: true },
                subscribers: GraphqlSubscribersView::none(),
            }),
    {
        GraphqlDeltaObservable {
            has_nested_relations,
            payload: GraphqlResponsePayloadCache::new(),
            subscribers: GraphqlSubscribers::new(),
        }
    }

    /// Adds a subscriber that only keeps the query alive.
    pub fn attach_keepalive(&mut self) -> (id: usize)
        requires
            old(self)@.subscribers.next_sub_id < usize::MAX,
        ensures
            id == old(self)@.subscribers.next_sub_id,
            final(self)@ == (DeltaObservableView {
                subscribers: GraphqlSubscribersView {
                    keepalive_ids: old(self)@.subscribers.keepalive_ids.insert(id as u64),
                    next_sub_id: (id + 1) as usize,
                    ..old(self)@.subscribers
                },
                ..old(self)@
            }),
    {
        self.subscribers.add_keepalive()
    }

    /// Adds a subscriber that is called.
    pub fn subscribe(&mut self) -> (id: usize)
        requires
            old(self)@.subscribers.next_sub_id < usize::MAX,
        ensures
            id == old(self)@.subscribers.next_sub_id,
            final(self)@ == (DeltaObservableView {
                subscribers: GraphqlSubscribersView {
                    callbacks: old(self)@.subscribers.callbacks.push(id),
                    next_sub_id: (id + 1) as usize,
                    ..old(self)@.subscribers
                },
                ..old(self)@
            }),
    {
        self.subscribers.add_callback()
    }

    /// Drops a subscriber and tells whether there was one.
    pub fn unsubscribe(&mut self, id: usize) -> (removed: bool)
        ensures
            removed == (old(self)@.subscribers.keepalive_ids.contains(id as u64)
                || old(self)@.subscribers.callbacks.contains(id)),
            final(self)@ == (DeltaObservableView {
                subscribers: old(self)@.subscribers.without(id),
                ..old(self)@
            }),
    {
        self.subscribers.remove(id)
    }

    /// The number of subscribers.
    pub fn subscription_count(&self) -> (count: usize)
        requires
            self@.subscribers.keepalive_ids.len() + self@.subscribers.callbacks.len()
                <= usize::MAX,
        ensures
            count == self@.subscribers.keepalive_ids.len() + self@.subscribers.callbacks.len(),
    {
        self.subscribers.total_count()
    }

    /// The number of subscribers that are called.
    pub fn listener_count(&self) -> (count: usize)
        ensures
            count == self@.subscribers.callbacks.len(),
    {
        self.subscribers.callback_count()
    }

    /// Tells whether a change of tables is of interest. Without subscribers it is not, and the
    /// maintained result is left as it is.
    pub fn wants_changes(&self) -> (wanted: bool)
        ensures
            wanted == self@.subscribers.is_observed(),
    {
        self.subscribers.is_observed()
    }

    /// Tells how the response is obtained.
    pub fn response_source(&self) -> (source: ResponseSource)
        ensures
            source == source_of(self@.payload, self@.subscribers.callbacks.len()),
    {
        if self.payload.has_clean_response() {
            ResponseSource::Cached
        } else if self.subscribers.callback_count() == 0 {
            ResponseSource::Render
        } else {
            ResponseSource::Materialize
        }
    }

    /// The last response.
    pub fn current_response(&self) -> (response: Option<&GraphqlResponse>)
        ensures
            match response {
                Some(response) => self@.payload.response == Some(response.view()),
                None => self@.payload.response is None,
            },
    {
        self.payload.current_response()
    }

    /// Takes the changes of the maintained result that a change of a table leads to. Without any,
    /// a response that follows no relations stays as it is.
    pub fn on_table_change(&mut self, output_deltas: &[RowDelta]) -> (action: DeltaAction)
        ensures
            if !old(self)@.subscribers.is_observed() || (output_deltas@.len() == 0 && !old(
                self,
            )@.has_nested_relations) {
                action == DeltaAction::Finished && final(self)@ == old(self)@
            } else {
                &&& action == (DeltaAction::Invalidate {
                    render: old(self)@.subscribers.callbacks.len() > 0,
                })
                &&& final(self)@ == (DeltaObservableView {
                    payload: PayloadView { dirty: true, ..old(self)@.payload },
                    ..old(self)@
                })
            },
    {
        if !self.subscribers.is_observed() {
            return DeltaAction::Finished;
        }
        if output_deltas.len() == 0 && !self.has_nested_relations {
            return DeltaAction::Finished;
        }
        self.payload.mark_dirty();
        DeltaAction::Invalidate { render: self.subscribers.callback_count() > 0 }
    }

    /// Takes a rendered response, none if rendering failed, and tells whether subscribers are to
    /// be told. `patch` is the last patch of a response that is built in batches.
    pub fn rendered(
        &mut self,
        response: Option<GraphqlResponse>,
        batched: bool,
        patch: Option<&GraphqlRootListPatch>,
    ) -> (emit: bool)
        ensures
            ({
                let (payload, expected) = materialized(
                    old(self)@.payload,
                    match response {
                        Some(response) => Some(response.view()),
                        None => None,
                    },
                    batched,
                    match patch {
                        Some(patch) => Some(*patch),
                        None => None,
                    },
                );
                &&& emit == expected
                &&& final(self)@ == (DeltaObservableView { payload, ..old(self)@ })
            }),
    {
        materialize(&mut self.payload, response, batched, patch)
    }
}

/// Subscribers are told of a rendered response only if it is a new one: the response that is kept
/// afterwards is the rendered one. A response that fails to render leaves the last one in place.
pub proof fn law_subscribers_see_new_responses(
    payload: PayloadView,
    response: Option<ResponseView>,
    batched: bool,
    patch: Option<GraphqlRootListPatch>,
)
    ensures
        ({
            let (after, emit) = materialized(payload, response, batched, patch);
            &&& emit ==> response is Some && after.response == response && !after.dirty
            &&& !emit ==> after.response == payload.response
            &&& response is None ==> after == payload
            &&& emit && !batched ==> payload.response != response
        }),
{
}

/// A change that no subscriber watches, and a query that fails, leave the root rows as they are.
pub proof fn law_graphql_nothing_without_subscribers(
    observable: SubscriptionView,
    changes: Map<u64, Set<u64>>,
    tables: Seq<u64>,
)
    ensures
        !observable.subscribers.is_observed() ==> observable.changed(changes, tables) == (
            observable,
            GraphqlActionView::Finished,
        ),
        observable.changed(changes, tables).0.root_rows == observable.root_rows,
        observable.query_rows(None) == (observable, GraphqlActionView::Finished),
{
}

/// The changed root rows are the changed rows of root tables, and no others.
pub proof fn law_root_changes_are_those_of_root_tables(
    root_tables: Set<u64>,
    changes: Map<u64, Set<u64>>,
    tables: Seq<u64>,
    id: u64,
)
    ensures
        root_changes(root_tables, changes, tables).contains(id) <==> exists|i: int|
            0 <= i < tables.len() && root_tables.contains(#[trigger] tables[i])
                && changes[tables[i]].contains(id),
    decreases tables.len(),
{
    if tables.len() > 0 {
        let front = tables.drop_last();
        let last = tables.len() - 1;
        law_root_changes_are_those_of_root_tables(root_tables, changes, front, id);
        assert(forall|i: int| 0 <= i < last ==> front[i] == tables[i]);
        assert(tables[last] == tables.last());
        if root_changes(root_tables, changes, front).contains(id) {
            let i = choose|i: int|
                0 <= i < front.len() && root_tables.contains(#[trigger] front[i])
                    && changes[front[i]].contains(id);
            assert(root_tables.contains(tables[i]));
        }
        if exists|i: int|
            0 <= i < tables.len() && root_tables.contains(#[trigger] tables[i])
                && changes[tables[i]].contains(id) {
            let i = choose|i: int|
                0 <= i < tables.len() && root_tables.contains(#[trigger] tables[i])
                    && changes[tables[i]].contains(id);
            if i < last {
                assert(root_tables.contains(front[i]));
            }
        }
    }
}

/// A watched query patches its root rows where root tables alone changed. Where another table
/// changed, the affected roots are looked for if they are kept; if they are not, the query is run
/// where root rows changed too, and otherwise the response alone is built anew.
pub proof fn law_graphql_refresh_chooses_its_way(
    observable: SubscriptionView,
    changes: Map<u64, Set<u64>>,
    tables: Seq<u64>,
)
    requires
        observable.subscribers.is_observed(),
    ensures
        ({
            let ids = root_changes(observable.root_tables, changes, tables);
            let nested = exists|i: int|
                0 <= i < tables.len() && !observable.root_tables.contains(#[trigger] tables[i]);
            let (next, action) = observable.changed(changes, tables);
            &&& next.root_rows == observable.root_rows
            &&& next.saw_nested <==> nested
            &&& next.changed_ids == ids
            &&& !ids.is_empty() && !nested ==> action == (GraphqlActionView::Patch { ids })
            &&& nested && observable.roots is Some ==> action == GraphqlActionView::FindAffected
            &&& nested && observable.roots is None && !ids.is_empty() ==> action
                == GraphqlActionView::RunQuery
            &&& nested && observable.roots is None && ids.is_empty() ==> (
            action matches GraphqlActionView::Invalidate { root_changed, dirty_root_rows, render }
                && !root_changed && dirty_root_rows.is_empty() && (render
                <==> observable.subscribers.callbacks.len() > 0) && next.payload.dirty)
            &&& !nested && ids.is_empty() && observable.roots is None ==> action
                == GraphqlActionView::Finished
        }),
{
    let ids = root_changes(observable.root_tables, changes, tables);
    if ids.is_empty() {
        assert(ids =~= Set::empty());
    }
}

/// A step of a refresh tells of changed root rows.
pub open spec fn tells_of_roots(before: SubscriptionView, step: GraphqlTransition) -> bool {
    match step.1 {
        GraphqlActionView::Finished => step.0.root_rows == before.root_rows && !before.saw_nested,
        GraphqlActionView::Invalidate { root_changed, render, .. } => (root_changed
            <==> step.0.root_rows != before.root_rows) && step.0.payload.dirty && (render
            <==> before.subscribers.callbacks.len() > 0),
        _ => step.0.root_rows == before.root_rows,
    }
}

/// Whatever way the root rows are refreshed, the response is built anew just if they changed or a
/// table of a relation did, and it is told whether the root rows changed.
pub proof fn law_graphql_steps_tell_of_root_rows(
    observable: SubscriptionView,
    rows: Seq<RowView>,
    keys: Set<RootKey>,
    ids: Set<u64>,
)
    requires
        observable.root_summary == summary_of(observable.root_rows),
    ensures
        tells_of_roots(observable, observable.patched(PatchView::Unchanged)),
        rows != observable.root_rows ==> tells_of_roots(
            observable,
            observable.patched(PatchView::Changed(rows)),
        ),
        tells_of_roots(observable, observable.roots_rows(keys, ids, Some(rows))),
        tells_of_roots(observable, observable.query_rows(Some((rows, summary_of(rows))))),
        observable.patched(PatchView::Changed(rows)).0.root_rows == rows,
        observable.query_rows(Some((rows, summary_of(rows)))).0.root_rows == rows,
        observable.patched(PatchView::Declined).1 is FindAffected <==> observable.roots is Some,
        observable.patched(PatchView::Declined).1 is RunQuery <==> observable.roots is None,
        observable.roots_rows(keys, ids, None).1 is RunQuery,
{
}

/// The rows of the response that are built anew are those that changed: after a patch or a whole
/// query the changed root rows, after a refresh of roots the affected ones.
pub proof fn law_dirty_rows_are_the_changed_ones(
    observable: SubscriptionView,
    rows: Seq<RowView>,
    keys: Set<RootKey>,
    ids: Set<u64>,
)
    requires
        rows != observable.root_rows,
    ensures
        observable.patched(PatchView::Changed(rows)).1 matches GraphqlActionView::Invalidate {
            dirty_root_rows,
            ..
        } && dirty_root_rows == observable.changed_ids,
        observable.query_rows(
            Some((rows, summary_of(rows))),
        ).1 matches GraphqlActionView::Invalidate { dirty_root_rows, .. } && dirty_root_rows
            == observable.changed_ids,
        observable.roots_rows(keys, ids, Some(rows)).1 matches GraphqlActionView::Invalidate {
            dirty_root_rows,
            ..
        } ==> dirty_root_rows == ids,
{
}

/// A response that is up to date is used again. Another one is built anew, and is kept just if
/// somebody is told of it.
pub proof fn law_responses_are_built_when_needed(payload: PayloadView, callbacks: nat)
    ensures
        source_of(payload, callbacks) is Cached <==> payload.response is Some && !payload.dirty,
        source_of(payload, callbacks) is Materialize <==> !(payload.response is Some
            && !payload.dirty) && callbacks > 0,
        source_of(payload, callbacks) is Render <==> !(payload.response is Some && !payload.dirty)
            && callbacks == 0,
{
}

/// Subscribers are told of every response that is out of date and comes out differently, and of
/// nothing else.
pub proof fn law_changed_responses_are_told(
    payload: PayloadView,
    response: ResponseView,
    patch: Option<GraphqlRootListPatch>,
)
    ensures
        materialized(payload, Some(response), false, patch).1 <==> (payload.dirty
            || payload.response is None) && payload.response != Some(response),
        payload.dirty || payload.response is None ==> !materialized(
            payload,
            Some(response),
            false,
            patch,
        ).0.dirty && materialized(payload, Some(response), false, patch).0.response == Some(
            response,
        ),
{
}

/// Changes of a result invalidate its root rows just if there are any: the rows that changed are
/// built anew, and positions are kept where every row was replaced.
pub proof fn law_changed_results_invalidate_their_rows(
    invalidation: InvalidationView,
    output: Seq<DeltaView>,
    at: int,
)
    ensures
        with_output(invalidation, output).root_changed <==> output.len() > 0,
        0 <= at < output.len() ==> with_output(invalidation, output).dirty_root_rows.contains(
            output[at].row.id,
        ),
        output.len() > 0 ==> (with_output(invalidation, output).stable_root_positions
            <==> keeps_positions(output)),
        with_output(invalidation, output).changed_tables == invalidation.changed_tables,
        with_output(invalidation, output).dirty_edge_keys == invalidation.dirty_edge_keys,
        with_output(invalidation, output).dirty_table_rows == invalidation.dirty_table_rows,
{
    if 0 <= at < output.len() {
        let ids = output.map_values(|delta: DeltaView| delta.row.id);
        assert(ids[at] == output[at].row.id);
        assert(ids.contains(output[at].row.id));
    }
}

/// Affected roots are refreshed together: the query is run on the affected root rows, for the keys
/// that they had or have, or as a whole where a key cannot be told. Where none is affected the root
/// rows stay.
pub proof fn law_graphql_roots_are_refreshed_on_affected_rows(
    observable: SubscriptionView,
    ids: Set<u64>,
    stored: Seq<(u64, Option<RowView>)>,
    root_changed: bool,
    table_row_count: usize,
    id: u64,
)
    requires
        observable.roots is Some,
        ids.contains(id),
    ensures
        ({
            let roots = observable.roots->0;
            let outcome = collect_all(roots.registry, stored, root_changed, roots.store_indices);
            let (next, action) = observable.roots_affected(
                Some(ids),
                Some(stored),
                root_changed,
                table_row_count,
            );
            &&& !outcome.complete ==> action == GraphqlActionView::RunQuery
            &&& outcome.complete && outcome.affected.is_empty() ==> (action
                == GraphqlActionView::Finished <==> !observable.saw_nested)
            &&& outcome.complete && !outcome.affected.is_empty() ==> action is RunRoots
            &&& action matches GraphqlActionView::RunRoots { ids: run, keys, variant } ==> {
                &&& outcome.complete
                &&& run == ids
                &&& keys == outcome.affected
                &&& variant is Small <==> RootSubsetCostPolicy::standard_policy().variant_for(
                    ids.len() as usize,
                    table_row_count,
                ) is Small
            }
            &&& next.root_rows == observable.root_rows
            &&& next.roots is Some
            &&& next.roots->0.registry == outcome.registry
        }),
        observable.roots_affected(None, None, root_changed, table_row_count).1
            == GraphqlActionView::RunQuery,
        observable.roots_affected(Some(ids), None, root_changed, table_row_count).1
            == GraphqlActionView::RunQuery,
{
    let roots = observable.roots->0;
    let outcome = collect_all(roots.registry, stored, root_changed, roots.store_indices);
    if outcome.affected.is_empty() {
        assert(outcome.affected =~= Set::empty());
    }
}

} // verus!
