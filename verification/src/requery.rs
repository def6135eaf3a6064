//! Live results that are computed anew when their tables change.
//!
//! A change is answered in the cheapest way that applies: by patching the result, by refreshing
//! the window or the affected roots, or by running the whole query. [`ReQueryObservable`] decides;
//! the caller runs the queries. Each call takes what the last step asked for and says what comes
//! next.
use vstd::prelude::*;

use crate::affected_roots::sets_view;
use crate::collections::{ascending, RowIdSet};
use crate::eval::{Step, StepView};
use crate::facts::{EvalFacts, EvalRequest, FactsView, RequestView};
use crate::partial_refresh::{
    affected_rows, build_partial_refresh_candidate_rows, candidates_of, candidates_view,
    needed_rows, refreshed_window, slice_partial_visible_rows, visible_rows, CandidateView,
    RowsSnapshotPartialRefreshMetadata, SnapshotPartialRefreshRuntime,
};
use crate::refresh_policy::{
    RootSubsetCostPolicy, RootSubsetPlanVariant, SnapshotRefreshCostModel,
};
use crate::root_subset::{
    affected_view, collect_all, groups_of, RootKey, RootKeySet, RootSubsetRefreshRuntime,
    RuntimeView,
};
use crate::row::{rows_view, Row, RowView};
use crate::subscriptions::{Subscribers, SubscribersView};
use crate::summary::{query_results_equal, summary_of, QueryResultSummary};
use crate::tables::{IdTable, RootTable};
use crate::text::same_text;

verus! {

/// How a result was refreshed.
#[derive(Clone, Copy, Debug, PartialEq, Eq, Structural)]
pub enum SnapshotRefreshMode {
    FullRequery,
    CandidateWindowPartialRefresh,
    RootSubsetRefresh,
}

/// What was tried to refresh a result.
#[derive(Clone, Copy, Debug, PartialEq, Eq, Structural)]
pub struct SnapshotQueryProfile {
    pub refresh_mode: SnapshotRefreshMode,
    pub reactive_patch_attempted: bool,
    pub reactive_patch_hit: bool,
    pub partial_refresh_attempted: bool,
    pub partial_refresh_hit: bool,
    pub root_subset_attempted: bool,
    pub root_subset_hit: bool,
}

impl SnapshotQueryProfile {
    /// Nothing was tried.
    pub open spec fn untried() -> SnapshotQueryProfile {
        SnapshotQueryProfile {
            refresh_mode: SnapshotRefreshMode::FullRequery,
            reactive_patch_attempted: false,
            reactive_patch_hit: false,
            partial_refresh_attempted: false,
            partial_refresh_hit: false,
            root_subset_attempted: false,
            root_subset_hit: false,
        }
    }

    /// Nothing was tried.
    pub fn new() -> (result: Self)
        ensures
            result == SnapshotQueryProfile::untried(),
    {
        SnapshotQueryProfile {
            refresh_mode: SnapshotRefreshMode::FullRequery,
            reactive_patch_attempted: false,
            reactive_patch_hit: false,
            partial_refresh_attempted: false,
            partial_refresh_hit: false,
            root_subset_attempted: false,
            root_subset_hit: false,
        }
    }
}

/// How the refreshes of a flush went.
#[derive(Clone, Copy, Debug, PartialEq, Eq, Structural)]
pub struct SnapshotFlushCounts {
    pub rows_query_count: usize,
    pub reactive_patch_attempt_count: usize,
    pub reactive_patch_hit_count: usize,
    pub partial_refresh_attempt_count: usize,
    pub partial_refresh_hit_count: usize,
    pub root_subset_attempt_count: usize,
    pub root_subset_hit_count: usize,
    pub full_requery_count: usize,
}

/// A count after an event that may have happened.
pub open spec fn counted(count: usize, happened: bool) -> int {
    if happened {
        count + 1
    } else {
        count as int
    }
}

fn count_if(count: usize, happened: bool) -> (result: usize)
    requires
        counted(count, happened) <= usize::MAX,
    ensures
        result == counted(count, happened),
{
    if happened {
        count + 1
    } else {
        count
    }
}

impl SnapshotFlushCounts {
    /// The largest of the counts stays below the largest number.
    pub open spec fn has_room(self) -> bool {
        &&& self.rows_query_count < usize::MAX
        &&& self.reactive_patch_attempt_count <= self.rows_query_count
        &&& self.reactive_patch_hit_count <= self.rows_query_count
        &&& self.partial_refresh_attempt_count <= self.rows_query_count
        &&& self.partial_refresh_hit_count <= self.rows_query_count
        &&& self.root_subset_attempt_count <= self.rows_query_count
        &&& self.root_subset_hit_count <= self.rows_query_count
        &&& self.full_requery_count <= self.rows_query_count
    }

    /// Adds the refresh of one result. `full_requery` tells whether time was spent on the whole
    /// query.
    pub fn record_rows_query(&mut self, sample: &SnapshotQueryProfile, full_requery: bool)
        requires
            old(self).has_room(),
        ensures
            final(self).rows_query_count == old(self).rows_query_count + 1,
            final(self).reactive_patch_attempt_count == counted(
                old(self).reactive_patch_attempt_count,
                sample.reactive_patch_attempted,
            ),
            final(self).reactive_patch_hit_count == counted(
                old(self).reactive_patch_hit_count,
                sample.reactive_patch_hit,
            ),
            final(self).partial_refresh_attempt_count == counted(
                old(self).partial_refresh_attempt_count,
                sample.partial_refresh_attempted,
            ),
            final(self).partial_refresh_hit_count == counted(
                old(self).partial_refresh_hit_count,
                sample.partial_refresh_hit,
            ),
            final(self).root_subset_attempt_count == counted(
                old(self).root_subset_attempt_count,
                sample.root_subset_attempted,
            ),
            final(self).root_subset_hit_count == counted(
                old(self).root_subset_hit_count,
                sample.root_subset_hit,
            ),
            final(self).full_requery_count == counted(
                old(self).full_requery_count,
                full_requery,
            ),
    {
        let before = *self;
        *self = SnapshotFlushCounts {
            rows_query_count: before.rows_query_count + 1,
            reactive_patch_attempt_count: count_if(
                before.reactive_patch_attempt_count,
                sample.reactive_patch_attempted,
            ),
            reactive_patch_hit_count: count_if(
                before.reactive_patch_hit_count,
                sample.reactive_patch_hit,
            ),
            partial_refresh_attempt_count: count_if(
                before.partial_refresh_attempt_count,
                sample.partial_refresh_attempted,
            ),
            partial_refresh_hit_count: count_if(
                before.partial_refresh_hit_count,
                sample.partial_refresh_hit,
            ),
            root_subset_attempt_count: count_if(
                before.root_subset_attempt_count,
                sample.root_subset_attempted,
            ),
            root_subset_hit_count: count_if(before.root_subset_hit_count, sample.root_subset_hit),
            full_requery_count: count_if(before.full_requery_count, full_requery),
        };
    }
}

/// A refresh that starts from the affected root rows.
#[derive(Clone, Copy, Debug, PartialEq, Eq, Structural)]
pub enum RefreshPath {
    Window,
    Roots,
}

/// What comes next in a refresh.
pub enum RefreshAction {
    /// Nothing; subscribers are to be told if the result changed.
    Finished { changed: bool },
    /// Patch the result with the rows that changed.
    Patch { ids: Vec<u64> },
    /// Find the affected root rows.
    FindAffected { path: RefreshPath },
    /// Run the query on root rows for the window.
    RunWindow { ids: Vec<u64> },
    /// Run a variant of the query on root rows.
    RunRoots { ids: Vec<u64>, keys: RootKeySet, variant: RootSubsetPlanVariant },
    /// Run the query.
    RunQuery,
    /// Compute a fact, and repeat the step.
    Compute { request: EvalRequest },
}

/// What an action asks for.
#[allow(inconsistent_fields)]
pub enum ActionView {
    Finished { changed: bool },
    Patch { ids: Set<u64> },
    FindAffected { path: RefreshPath },
    RunWindow { ids: Set<u64> },
    RunRoots { ids: Set<u64>, keys: Set<RootKey>, variant: RootSubsetPlanVariant },
    RunQuery,
    Compute { request: RequestView },
}

impl View for RefreshAction {
    type V = ActionView;

    open spec fn view(&self) -> ActionView {
        match self {
            RefreshAction::Finished { changed } => ActionView::Finished { changed: *changed },
            RefreshAction::Patch { ids } => ActionView::Patch { ids: ids@.to_set() },
            RefreshAction::FindAffected { path } => ActionView::FindAffected { path: *path },
            RefreshAction::RunWindow { ids } => ActionView::RunWindow { ids: ids@.to_set() },
            RefreshAction::RunRoots { ids, keys, variant } => ActionView::RunRoots {
                ids: ids@.to_set(),
                keys: keys@,
                variant: *variant,
            },
            RefreshAction::RunQuery => ActionView::RunQuery,
            RefreshAction::Compute { request } => ActionView::Compute { request: request@ },
        }
    }
}

impl RefreshAction {
    /// The identifiers of the action are in ascending order.
    pub open spec fn is_ordered(self) -> bool {
        match self {
            RefreshAction::Patch { ids } => ascending(ids@),
            RefreshAction::RunWindow { ids } => ascending(ids@),
            RefreshAction::RunRoots { ids, .. } => ascending(ids@),
            _ => true,
        }
    }
}

/// What patching a result came to.
pub enum PatchOutcome {
    /// The rows that changed cannot be read.
    NoTable,
    /// The result cannot be patched.
    Declined,
    /// The result stays as it is.
    Unchanged,
    /// The patched result.
    Changed(Vec<Row>),
}

/// What patching a result came to.
pub enum PatchView {
    NoTable,
    Declined,
    Unchanged,
    Changed(Seq<RowView>),
}

impl View for PatchOutcome {
    type V = PatchView;

    open spec fn view(&self) -> PatchView {
        match self {
            PatchOutcome::NoTable => PatchView::NoTable,
            PatchOutcome::Declined => PatchView::Declined,
            PatchOutcome::Unchanged => PatchView::Unchanged,
            PatchOutcome::Changed(rows) => PatchView::Changed(rows_view(rows@)),
        }
    }
}

/// What is known of a live result.
pub struct ObservableView {
    pub patch_table: Option<Seq<char>>,
    pub table_names: Map<u64, Seq<char>>,
    pub result: Seq<RowView>,
    pub summary: QueryResultSummary,
    pub metadata: Option<RowsSnapshotPartialRefreshMetadata>,
    pub window: Seq<CandidateView>,
    pub roots: Option<RuntimeView>,
    pub subscribers: SubscribersView,
    pub profile: SnapshotQueryProfile,
}

/// What is known of a live result, and what comes next.
pub type Transition = (ObservableView, ActionView);

impl ObservableView {
    /// Rows differ from the result.
    pub open spec fn differs(self, rows: Seq<RowView>, summary: QueryResultSummary) -> bool {
        !(self.summary == summary && self.result == rows)
    }

    /// The whole query is run.
    pub open spec fn try_query(self) -> Transition {
        (
            ObservableView {
                profile: SnapshotQueryProfile {
                    refresh_mode: SnapshotRefreshMode::FullRequery,
                    ..self.profile
                },
                ..self
            },
            ActionView::RunQuery,
        )
    }

    /// The affected roots are refreshed, or else the whole query is run.
    pub open spec fn try_roots(self) -> Transition {
        if self.roots is Some {
            (
                ObservableView {
                    profile: SnapshotQueryProfile { root_subset_attempted: true, ..self.profile },
                    ..self
                },
                ActionView::FindAffected { path: RefreshPath::Roots },
            )
        } else {
            self.try_query()
        }
    }

    /// The window is refreshed, or else the affected roots or the whole result.
    pub open spec fn try_window(self) -> Transition {
        if self.metadata is Some {
            (
                ObservableView {
                    profile: SnapshotQueryProfile {
                        partial_refresh_attempted: true,
                        ..self.profile
                    },
                    ..self
                },
                ActionView::FindAffected { path: RefreshPath::Window },
            )
        } else {
            self.try_roots()
        }
    }

    /// The changed rows with which the result can be patched: those of the one table that
    /// changed, if it is the table that the result is patched from.
    pub open spec fn patch_ids(self, changes: Map<u64, Set<u64>>, order: Seq<u64>) -> Option<Set<u64>> {
        if self.patch_table is Some && order.len() == 1 && self.table_names.dom().contains(order[0])
            && self.table_names[order[0]] == self.patch_table->0 {
            Some(changes[order[0]])
        } else {
            None
        }
    }

    /// A change of tables. Without subscribers nothing is done.
    pub open spec fn changed(self, changes: Map<u64, Set<u64>>, order: Seq<u64>) -> Transition {
        let fresh = ObservableView { profile: SnapshotQueryProfile::untried(), ..self };
        if self.subscribers.ids.len() == 0 {
            (fresh, ActionView::Finished { changed: false })
        } else {
            match self.patch_ids(changes, order) {
                Some(ids) => (fresh, ActionView::Patch { ids }),
                None => fresh.try_window(),
            }
        }
    }

    /// The result was patched, or not.
    pub open spec fn patched(self, outcome: PatchView) -> Transition {
        let attempted = ObservableView {
            profile: SnapshotQueryProfile { reactive_patch_attempted: true, ..self.profile },
            ..self
        };
        match outcome {
            PatchView::NoTable => self.try_window(),
            PatchView::Declined => attempted.try_window(),
            PatchView::Unchanged => (attempted, ActionView::Finished { changed: false }),
            PatchView::Changed(rows) => (
                ObservableView {
                    result: rows,
                    summary: summary_of(rows),
                    profile: SnapshotQueryProfile { reactive_patch_hit: true, ..attempted.profile },
                    ..self
                },
                ActionView::Finished { changed: true },
            ),
        }
    }

    /// The affected root rows of the window are known, or cannot be told. Too many rows of the
    /// window that come from them are left to the next way.
    pub open spec fn window_affected(self, affected: Option<Set<u64>>) -> Transition {
        match (self.metadata, affected) {
            (Some(metadata), Some(ids)) => if ids == Set::<u64>::empty() {
                (self, ActionView::Finished { changed: false })
            } else if affected_rows(self.window, ids) > metadata.overscan {
                self.try_roots()
            } else {
                (self, ActionView::RunWindow { ids })
            },
            _ => self.try_roots(),
        }
    }

    /// The query was run on the affected root rows of the window.
    pub open spec fn window_rows(
        self,
        affected: Set<u64>,
        rows: Option<Seq<RowView>>,
        ids: Map<RootKey, u64>,
        facts: FactsView,
    ) -> Transition {
        match (self.metadata, rows) {
            (Some(metadata), Some(rows)) => match candidates_of(
                rows,
                metadata.root_pk_output_indices@,
                ids,
            ) {
                Some(recomputed) => match refreshed_window(
                    metadata,
                    self.window,
                    affected,
                    recomputed,
                    facts,
                ) {
                    StepView::Need(request) => (self, ActionView::Compute { request }),
                    StepView::Done(window) => if window.len() < needed_rows(metadata)
                        && self.window.len() >= needed_rows(metadata) {
                        self.try_roots()
                    } else {
                        let visible = visible_rows(metadata, window);
                        let summary = summary_of(visible);
                        (
                            ObservableView {
                                window,
                                result: visible,
                                summary,
                                profile: SnapshotQueryProfile {
                                    partial_refresh_hit: true,
                                    refresh_mode:
                                        SnapshotRefreshMode::CandidateWindowPartialRefresh,
                                    ..self.profile
                                },
                                ..self
                            },
                            ActionView::Finished { changed: self.differs(visible, summary) },
                        )
                    },
                },
                None => self.try_roots(),
            },
            _ => self.try_roots(),
        }
    }

    /// The affected root rows are known, or cannot be told. `stored` are the rows stored under
    /// them, if the root table is there.
    pub open spec fn roots_affected(
        self,
        affected: Option<Set<u64>>,
        stored: Option<Seq<(u64, Option<RowView>)>>,
        root_changed: bool,
        table_row_count: usize,
    ) -> Transition {
        match (self.roots, affected) {
            (Some(roots), Some(ids)) => if ids == Set::<u64>::empty() {
                (self, ActionView::Finished { changed: false })
            } else {
                match stored {
                    Some(stored) => {
                        let outcome = collect_all(
                            roots.registry,
                            stored,
                            root_changed,
                            roots.store_indices,
                        );
                        let next = ObservableView {
                            roots: Some(RuntimeView { registry: outcome.registry, ..roots }),
                            ..self
                        };
                        if !outcome.complete {
                            next.try_query()
                        } else if outcome.affected == Set::<RootKey>::empty() {
                            (next, ActionView::Finished { changed: false })
                        } else {
                            (
                                next,
                                ActionView::RunRoots {
                                    ids,
                                    keys: outcome.affected,
                                    variant: RootSubsetCostPolicy::standard_policy().variant_for(
                                        ids.len() as usize,
                                        table_row_count,
                                    ),
                                },
                            )
                        }
                    },
                    None => self.try_query(),
                }
            },
            _ => self.try_query(),
        }
    }

    /// The query was run on the affected root rows.
    pub open spec fn roots_rows(self, keys: Set<RootKey>, rows: Option<Seq<RowView>>) -> Transition {
        match (self.roots, rows) {
            (Some(roots), Some(rows)) => match groups_of(rows, roots.output_indices) {
                Some(groups) => {
                    let refreshed = roots.refreshed(keys, groups);
                    let summary = summary_of(refreshed.result());
                    (
                        ObservableView {
                            roots: Some(refreshed),
                            result: refreshed.result(),
                            summary,
                            profile: SnapshotQueryProfile {
                                root_subset_hit: true,
                                refresh_mode: SnapshotRefreshMode::RootSubsetRefresh,
                                ..self.profile
                            },
                            ..self
                        },
                        ActionView::Finished {
                            changed: self.differs(refreshed.result(), summary),
                        },
                    )
                },
                None => self.try_query(),
            },
            _ => self.try_query(),
        }
    }

    /// The whole query was run, or failed.
    pub open spec fn query_rows(
        self,
        output: Option<(Seq<RowView>, QueryResultSummary)>,
        ids: Map<RootKey, u64>,
    ) -> Transition {
        match output {
            None => (self, ActionView::Finished { changed: false }),
            Some((rows, summary)) => match self.metadata {
                Some(metadata) => match candidates_of(
                    rows,
                    metadata.root_pk_output_indices@,
                    ids,
                ) {
                    Some(window) => {
                        let visible = visible_rows(metadata, window);
                        let visible_summary = summary_of(visible);
                        (
                            ObservableView {
                                window,
                                result: visible,
                                summary: visible_summary,
                                ..self
                            },
                            ActionView::Finished {
                                changed: self.differs(visible, visible_summary),
                            },
                        )
                    },
                    None => (self, ActionView::Finished { changed: false }),
                },
                None => if self.differs(rows, summary) {
                    (
                        ObservableView { result: rows, summary, ..self },
                        ActionView::Finished { changed: true },
                    )
                } else {
                    (self, ActionView::Finished { changed: false })
                },
            },
        }
    }
}

/// A live result that is computed anew when its tables change.
pub struct ReQueryObservable {
    patch_table: Option<String>,
    table_names: IdTable<String>,
    result: Vec<Row>,
    summary: QueryResultSummary,
    window: Option<SnapshotPartialRefreshRuntime>,
    roots: Option<RootSubsetRefreshRuntime>,
    subscribers: Subscribers,
    profile: SnapshotQueryProfile,
}

/// The names of a table of names.
pub open spec fn name_values(names: Map<u64, String>) -> Map<u64, Seq<char>> {
    names.map_values(|name: String| name@)
}

impl ReQueryObservable {
    /// What is known of the result.
    pub closed spec fn view(&self) -> ObservableView {
        ObservableView {
            patch_table: match self.patch_table {
                Some(name) => Some(name@),
                None => None,
            },
            table_names: name_values(self.table_names@),
            result: rows_view(self.result@),
            summary: self.summary,
            metadata: match self.window {
                Some(window) => Some(window.metadata),
                None => None,
            },
            window: match self.window {
                Some(window) => window.window(),
                None => Seq::empty(),
            },
            roots: match self.roots {
                Some(roots) => Some(roots@),
                None => None,
            },
            subscribers: self.subscribers@,
            profile: self.profile,
        }
    }

    /// Starts with a result. `patch_table` is the table that the result can be patched from, and
    /// `table_names` are the tables that the query reads.
    pub fn new(
        patch_table: Option<String>,
        initial_result: Vec<Row>,
        table_names: IdTable<String>,
    ) -> (result: Self)
        ensures
            result@ == (ObservableView {
                patch_table: match patch_table {
                    Some(name) => Some(name@),
                    None => None,
                },
                table_names: name_values(table_names@),
                result: rows_view(initial_result@),
                summary: summary_of(rows_view(initial_result@)),
                metadata: None,
                window: Seq::empty(),
                roots: None,
                subscribers: SubscribersView::none(),
                profile: SnapshotQueryProfile::untried(),
            }),
    {
        let summary = QueryResultSummary::from_rows(initial_result.as_slice());
        ReQueryObservable::new_with_summary(
            patch_table,
            initial_result,
            summary,
            table_names,
            None,
            None,
        )
    }

    /// Starts with a result, its summary and the ways in which it can be refreshed.
    pub fn new_with_summary(
        patch_table: Option<String>,
        initial_result: Vec<Row>,
        summary: QueryResultSummary,
        table_names: IdTable<String>,
        window: Option<SnapshotPartialRefreshRuntime>,
        roots: Option<RootSubsetRefreshRuntime>,
    ) -> (result: Self)
        ensures
            result@ == (ObservableView {
                patch_table: match patch_table {
                    Some(name) => Some(name@),
                    None => None,
                },
                table_names: name_values(table_names@),
                result: rows_view(initial_result@),
                summary,
                metadata: match window {
                    Some(window) => Some(window.metadata),
                    None => None,
                },
                window: match window {
                    Some(window) => window.window(),
                    None => Seq::empty(),
                },
                roots: match roots {
                    Some(roots) => Some(roots@),
                    None => None,
                },
                subscribers: SubscribersView::none(),
                profile: SnapshotQueryProfile::untried(),
            }),
    {
        ReQueryObservable {
            patch_table,
            table_names,
            result: initial_result,
            summary,
            window,
            roots,
            subscribers: Subscribers::new(),
            profile: SnapshotQueryProfile::new(),
        }
    }

    /// The rows of the result.
    pub fn result(&self) -> (rows: &[Row])
        ensures
            rows_view(rows@) == self@.result,
    {
        self.result.as_slice()
    }

    /// The number of rows.
    pub fn len(&self) -> (count: usize)
        ensures
            count == self@.result.len(),
    {
        self.result.len()
    }

    /// Tells whether there are no rows.
    pub fn is_empty(&self) -> (empty: bool)
        ensures
            empty == (self@.result.len() == 0),
    {
        self.result.len() == 0
    }

    /// Adds a subscriber and gives its identifier.
    pub fn subscribe(&mut self) -> (id: usize)
        requires
            old(self)@.subscribers.next_id < usize::MAX,
        ensures
            id == old(self)@.subscribers.next_id,
            final(self)@ == (ObservableView {
                subscribers: old(self)@.subscribers.with(),
                ..old(self)@
            }),
    {
        self.subscribers.subscribe()
    }

    /// Drops a subscriber and tells whether there was one.
    pub fn unsubscribe(&mut self, id: usize) -> (removed: bool)
        ensures
            removed == old(self)@.subscribers.ids.contains(id),
            final(self)@ == (ObservableView {
                subscribers: old(self)@.subscribers.without(id),
                ..old(self)@
            }),
    {
        self.subscribers.unsubscribe(id)
    }

    /// The number of subscribers.
    pub fn subscription_count(&self) -> (count: usize)
        ensures
            count == self@.subscribers.ids.len(),
    {
        self.subscribers.len()
    }

    /// The subscribers that are to be called with the result after an action, in the order in which
    /// they subscribed: all of them if the refresh is finished and the result changed.
    pub fn subscribers_to_call(&self, action: &RefreshAction) -> (ids: &[usize])
        ensures
            ids@ == self@.called(action@),
    {
        match action {
            RefreshAction::Finished { changed: true } => self.subscribers.ids(),
            _ => {
                let none: &[usize] = &[];
                assert(none@ =~= Seq::<usize>::empty());
                none
            },
        }
    }

    /// The window, if the result has one.
    pub fn partial_refresh(&self) -> (window: Option<&SnapshotPartialRefreshRuntime>)
        ensures
            match window {
                Some(window) => self@.metadata == Some(window.metadata) && window.window()
                    == self@.window,
                None => self@.metadata is None,
            },
    {
        self.window.as_ref()
    }

    /// What was tried in the last refresh.
    pub fn profile(&self) -> (profile: SnapshotQueryProfile)
        ensures
            profile == self@.profile,
    {
        self.profile
    }

    /// The changed rows with which the result can be patched.
    pub fn patch_table_changed_ids<'a>(&self, changes: &'a IdTable<RowIdSet>) -> (ids: Option<
        &'a RowIdSet,
    >)
        ensures
            match self@.patch_ids(sets_view(changes@), changes.order()) {
                Some(expected) => ids is Some && ids->0@ == expected,
                None => ids is None,
            },
    {
        let patch_table = match &self.patch_table {
            Some(name) => name,
            None => {
                return None;
            },
        };
        if changes.len() != 1 {
            return None;
        }
        match self.table_names.get(*changes.key_at(0)) {
            Some(name) => if same_text(name.as_str(), patch_table.as_str()) {
                Some(changes.value_at(0))
            } else {
                None
            },
            None => None,
        }
    }

    fn try_query(&mut self) -> (action: RefreshAction)
        ensures
            (final(self)@, action@) == old(self)@.try_query(),
            action.is_ordered(),
    {
        self.profile.refresh_mode = SnapshotRefreshMode::FullRequery;
        RefreshAction::RunQuery
    }

    fn try_roots(&mut self) -> (action: RefreshAction)
        ensures
            (final(self)@, action@) == old(self)@.try_roots(),
            action.is_ordered(),
    {
        if self.roots.is_some() {
            self.profile.root_subset_attempted = true;
            RefreshAction::FindAffected { path: RefreshPath::Roots }
        } else {
            self.try_query()
        }
    }

    fn try_window(&mut self) -> (action: RefreshAction)
        ensures
            (final(self)@, action@) == old(self)@.try_window(),
            action.is_ordered(),
    {
        if self.window.is_some() {
            self.profile.partial_refresh_attempted = true;
            RefreshAction::FindAffected { path: RefreshPath::Window }
        } else {
            self.try_roots()
        }
    }

    /// Answers a change of tables, given by the identifiers of the rows that changed.
    pub fn on_change(&mut self, changes: &IdTable<RowIdSet>) -> (action: RefreshAction)
        ensures
            (final(self)@, action@) == old(self)@.changed(sets_view(changes@), changes.order()),
            action.is_ordered(),
    {
        self.profile = SnapshotQueryProfile::new();
        if self.subscribers.is_empty() {
            return RefreshAction::Finished { changed: false };
        }
        match self.patch_table_changed_ids(changes) {
            Some(ids) => RefreshAction::Patch { ids: ids.sorted() },
            None => self.try_window(),
        }
    }

    /// Takes what patching the result came to.
    pub fn patched(&mut self, outcome: PatchOutcome) -> (action: RefreshAction)
        ensures
            (final(self)@, action@) == old(self)@.patched(outcome@),
            action.is_ordered(),
    {
        match outcome {
            PatchOutcome::NoTable => self.try_window(),
            PatchOutcome::Declined => {
                self.profile.reactive_patch_attempted = true;
                self.try_window()
            },
            PatchOutcome::Unchanged => {
                self.profile.reactive_patch_attempted = true;
                RefreshAction::Finished { changed: false }
            },
            PatchOutcome::Changed(rows) => {
                self.profile.reactive_patch_attempted = true;
                self.profile.reactive_patch_hit = true;
                self.summary = QueryResultSummary::from_rows(rows.as_slice());
                self.result = rows;
                RefreshAction::Finished { changed: true }
            },
        }
    }

    /// Takes the affected root rows of the window.
    pub fn window_affected(&mut self, affected: Option<&RowIdSet>) -> (action: RefreshAction)
        ensures
            (final(self)@, action@) == old(self)@.window_affected(
                match affected {
                    Some(ids) => Some(ids@),
                    None => None,
                },
            ),
            action.is_ordered(),
    {
        match (&self.window, affected) {
            (Some(window), Some(ids)) => {
                if ids.is_empty() {
                    return RefreshAction::Finished { changed: false };
                }
                if window.affected_candidate_rows(ids) <= window.metadata.overscan {
                    return RefreshAction::RunWindow { ids: ids.sorted() };
                }
            },
            _ => {},
        }
        self.try_roots()
    }

    /// Takes the rows that the query gives on the affected root rows of the window. `ids` holds
    /// the identifiers of root rows by their key values.
    pub fn window_rows(
        &mut self,
        affected: &RowIdSet,
        rows: Option<&[Row]>,
        ids: &RootTable<u64>,
        facts: &EvalFacts,
    ) -> (action: RefreshAction)
        ensures
            (final(self)@, action@) == old(self)@.window_rows(
                affected@,
                match rows {
                    Some(rows) => Some(rows_view(rows@)),
                    None => None,
                },
                ids@,
                facts@,
            ),
            action.is_ordered(),
    {
        let merged = match (&self.window, rows) {
            (Some(window), Some(rows)) => match build_partial_refresh_candidate_rows(
                window.metadata.root_pk_output_indices.as_slice(),
                ids,
                rows,
            ) {
                Some(recomputed) => match window.merge(affected, recomputed.as_slice(), facts) {
                    Step::Need(request) => {
                        return RefreshAction::Compute { request };
                    },
                    Step::Done(merged) => {
                        assert(candidates_view(merged@).len() == merged@.len());
                        if window.is_depleted(merged.len()) {
                            None
                        } else {
                            Some(merged)
                        }
                    },
                },
                None => None,
            },
            _ => None,
        };
        match merged {
            None => self.try_roots(),
            Some(merged) => {
                let ghost start = self@;
                let mut changed = false;
                if let Some(window) = &mut self.window {
                    let visible = slice_partial_visible_rows(merged.as_slice(), &window.metadata);
                    let summary = QueryResultSummary::from_rows(visible.as_slice());
                    changed = !query_results_equal(
                        &self.summary,
                        &summary,
                        self.result.as_slice(),
                        visible.as_slice(),
                    );
                    window.candidate_rows = merged;
                    self.result = visible;
                    self.summary = summary;
                }
                self.profile.partial_refresh_hit = true;
                self.profile.refresh_mode = SnapshotRefreshMode::CandidateWindowPartialRefresh;
                RefreshAction::Finished { changed }
            },
        }
    }

    /// Takes the affected root rows. `stored` are the rows stored under them in the root table,
    /// `root_changed` tells whether the root table itself changed, and `table_row_count` is the
    /// number of its rows.
    pub fn roots_affected(
        &mut self,
        affected: Option<&RowIdSet>,
        stored: Option<&[(u64, Option<Row>)]>,
        root_changed: bool,
        table_row_count: usize,
    ) -> (action: RefreshAction)
        ensures
            (final(self)@, action@) == old(self)@.roots_affected(
                match affected {
                    Some(ids) => Some(ids@),
                    None => None,
                },
                match stored {
                    Some(stored) => Some(affected_view(stored@)),
                    None => None,
                },
                root_changed,
                table_row_count,
            ),
            action.is_ordered(),
    {
        match (&mut self.roots, affected) {
            (Some(roots), Some(ids)) => {
                if ids.is_empty() {
                    return RefreshAction::Finished { changed: false };
                }
                if let Some(stored) = stored {
                    if let Some(keys) = roots.collect_affected_root_keys(stored, root_changed) {
                        if keys.is_empty() {
                            return RefreshAction::Finished { changed: false };
                        }
                        let decision = SnapshotRefreshCostModel::standard().decide_root_subset_refresh(
                            ids.len(),
                            table_row_count,
                        );
                        return RefreshAction::RunRoots {
                            ids: ids.sorted(),
                            keys,
                            variant: decision.variant,
                        };
                    }
                }
            },
            _ => {},
        }
        self.try_query()
    }

    /// Takes the rows that the query gives on the affected root rows.
    pub fn roots_rows(&mut self, keys: &RootKeySet, rows: Option<&[Row]>) -> (action: RefreshAction)
        ensures
            (final(self)@, action@) == old(self)@.roots_rows(
                keys@,
                match rows {
                    Some(rows) => Some(rows_view(rows@)),
                    None => None,
                },
            ),
            action.is_ordered(),
    {
        let refreshed = match (&mut self.roots, rows) {
            (Some(roots), Some(rows)) => roots.apply_subset_rows(keys, rows),
            _ => None,
        };
        match refreshed {
            None => self.try_query(),
            Some(rows) => {
                let summary = QueryResultSummary::from_rows(rows.as_slice());
                let changed = !query_results_equal(
                    &self.summary,
                    &summary,
                    self.result.as_slice(),
                    rows.as_slice(),
                );
                self.result = rows;
                self.summary = summary;
                self.profile.root_subset_hit = true;
                self.profile.refresh_mode = SnapshotRefreshMode::RootSubsetRefresh;
                RefreshAction::Finished { changed }
            },
        }
    }

    /// Takes the rows that the query gives, with their summary; none if it failed. `ids` holds the
    /// identifiers of root rows by their key values.
    pub fn query_rows(
        &mut self,
        output: Option<(Vec<Row>, QueryResultSummary)>,
        ids: &RootTable<u64>,
    ) -> (action: RefreshAction)
        ensures
            (final(self)@, action@) == old(self)@.query_rows(
                match output {
                    Some((rows, summary)) => Some((rows_view(rows@), summary)),
                    None => None,
                },
                ids@,
            ),
            action.is_ordered(),
    {
        let (rows, summary) = match output {
            Some(output) => output,
            None => {
                return RefreshAction::Finished { changed: false };
            },
        };
        if let Some(window) = &mut self.window {
            let candidates = match build_partial_refresh_candidate_rows(
                window.metadata.root_pk_output_indices.as_slice(),
                ids,
                rows.as_slice(),
            ) {
                Some(candidates) => candidates,
                None => {
                    return RefreshAction::Finished { changed: false };
                },
            };
            let visible = slice_partial_visible_rows(candidates.as_slice(), &window.metadata);
            let visible_summary = QueryResultSummary::from_rows(visible.as_slice());
            let changed = !query_results_equal(
                &self.summary,
                &visible_summary,
                self.result.as_slice(),
                visible.as_slice(),
            );
            window.candidate_rows = candidates;
            self.result = visible;
            self.summary = visible_summary;
            return RefreshAction::Finished { changed };
        }
        if query_results_equal(&self.summary, &summary, self.result.as_slice(), rows.as_slice()) {
            return RefreshAction::Finished { changed: false };
        }
        self.result = rows;
        self.summary = summary;
        RefreshAction::Finished { changed: true }
    }
}

impl ObservableView {
    /// The summary is that of the result.
    pub open spec fn consistent(self) -> bool {
        self.summary == summary_of(self.result)
    }
}

/// A refresh that began at `before` tells the truth: it reports a change just where the rows
/// differ.
pub open spec fn honest(before: ObservableView, transition: Transition) -> bool {
    &&& transition.0.consistent()
    &&& transition.0.subscribers == before.subscribers
    &&& transition.1 matches ActionView::Finished { changed } ==> changed == (transition.0.result
        != before.result)
    &&& !(transition.1 is Finished) ==> transition.0.result == before.result
}

/// The answer to an action.
#[allow(inconsistent_fields)]
pub enum RefreshEvent {
    Patched { outcome: PatchView },
    WindowAffected { affected: Option<Set<u64>> },
    WindowRows {
        affected: Set<u64>,
        rows: Option<Seq<RowView>>,
        ids: Map<RootKey, u64>,
        facts: FactsView,
    },
    RootsAffected {
        affected: Option<Set<u64>>,
        stored: Option<Seq<(u64, Option<RowView>)>>,
        root_changed: bool,
        table_row_count: usize,
    },
    RootsRows { keys: Set<RootKey>, rows: Option<Seq<RowView>> },
    QueryRows { rows: Option<Seq<RowView>>, ids: Map<RootKey, u64> },
}

impl RefreshEvent {
    /// A patch that reports a change gives other rows.
    pub open spec fn patches_differ(self, result: Seq<RowView>) -> bool {
        self matches RefreshEvent::Patched { outcome: PatchView::Changed(rows) } ==> rows != result
    }
}

impl ObservableView {
    /// What an answer leads to.
    pub open spec fn after(self, event: RefreshEvent) -> Transition {
        match event {
            RefreshEvent::Patched { outcome } => self.patched(outcome),
            RefreshEvent::WindowAffected { affected } => self.window_affected(affected),
            RefreshEvent::WindowRows { affected, rows, ids, facts } => self.window_rows(
                affected,
                rows,
                ids,
                facts,
            ),
            RefreshEvent::RootsAffected { affected, stored, root_changed, table_row_count } => {
                self.roots_affected(affected, stored, root_changed, table_row_count)
            },
            RefreshEvent::RootsRows { keys, rows } => self.roots_rows(keys, rows),
            RefreshEvent::QueryRows { rows, ids } => self.query_rows(
                match rows {
                    Some(rows) => Some((rows, summary_of(rows))),
                    None => None,
                },
                ids,
            ),
        }
    }

    /// A refresh after a change of tables, with the answers that were given so far. Answers to a
    /// finished refresh change nothing.
    pub open spec fn refreshed(
        self,
        changes: Map<u64, Set<u64>>,
        order: Seq<u64>,
        events: Seq<RefreshEvent>,
    ) -> Transition
        decreases events.len(),
    {
        if events.len() == 0 {
            self.changed(changes, order)
        } else {
            let before = self.refreshed(changes, order, events.drop_last());
            if before.1 is Finished {
                before
            } else {
                before.0.after(events.last())
            }
        }
    }

    /// The subscribers that are called after an action, in order.
    pub open spec fn called(self, action: ActionView) -> Seq<usize> {
        if action == (ActionView::Finished { changed: true }) {
            self.subscribers.ids
        } else {
            Seq::empty()
        }
    }
}

proof fn lemma_patch_honest(
    observable: ObservableView,
    outcome: PatchView,
)
    requires
        observable.consistent(),
        outcome matches PatchView::Changed(rows) ==> rows != observable.result,
    ensures
        honest(observable, observable.patched(outcome)),
{
}

proof fn lemma_window_affected_honest(
    observable: ObservableView,
    affected: Option<Set<u64>>,
)
    requires
        observable.consistent(),
    ensures
        honest(observable, observable.window_affected(affected)),
{
}

proof fn lemma_window_rows_honest(
    observable: ObservableView,
    affected: Set<u64>,
    rows: Option<Seq<RowView>>,
    ids: Map<RootKey, u64>,
    facts: FactsView,
)
    requires
        observable.consistent(),
    ensures
        honest(observable, observable.window_rows(affected, rows, ids, facts)),
{
}

proof fn lemma_roots_affected_honest(
    observable: ObservableView,
    affected: Option<Set<u64>>,
    stored: Option<Seq<(u64, Option<RowView>)>>,
    root_changed: bool,
    table_row_count: usize,
)
    requires
        observable.consistent(),
    ensures
        honest(
            observable,
            observable.roots_affected(affected, stored, root_changed, table_row_count),
        ),
{
}

proof fn lemma_roots_rows_honest(
    observable: ObservableView,
    keys: Set<RootKey>,
    rows: Option<Seq<RowView>>,
)
    requires
        observable.consistent(),
    ensures
        honest(observable, observable.roots_rows(keys, rows)),
{
}

proof fn lemma_query_rows_honest(
    observable: ObservableView,
    rows: Option<Seq<RowView>>,
    ids: Map<RootKey, u64>,
)
    requires
        observable.consistent(),
    ensures
        honest(
            observable,
            observable.query_rows(
                match rows {
                    Some(rows) => Some((rows, summary_of(rows))),
                    None => None,
                },
                ids,
            ),
        ),
{
}

/// Each step of a refresh tells the truth: a change is reported just if the rows of the result
/// changed, in whatever way the result is refreshed, and nothing changes before a refresh is
/// finished.
pub proof fn law_steps_report_changes(observable: ObservableView, event: RefreshEvent)
    requires
        observable.consistent(),
        event.patches_differ(observable.result),
    ensures
        honest(observable, observable.after(event)),
{
    match event {
        RefreshEvent::Patched { outcome } => {
            lemma_patch_honest(observable, outcome);
        },
        RefreshEvent::WindowAffected { affected } => {
            lemma_window_affected_honest(observable, affected);
        },
        RefreshEvent::WindowRows { affected, rows, ids, facts } => {
            lemma_window_rows_honest(observable, affected, rows, ids, facts);
        },
        RefreshEvent::RootsAffected { affected, stored, root_changed, table_row_count } => {
            lemma_roots_affected_honest(
                observable,
                affected,
                stored,
                root_changed,
                table_row_count,
            );
        },
        RefreshEvent::RootsRows { keys, rows } => {
            lemma_roots_rows_honest(observable, keys, rows);
        },
        RefreshEvent::QueryRows { rows, ids } => {
            lemma_query_rows_honest(observable, rows, ids);
        },
    }
}

/// Whatever answers a refresh is given, its subscribers are called once each, in the order in which
/// they subscribed, if it is finished and the rows of the result differ from those before the
/// change, and are not called otherwise. The result stays as it is until the refresh is finished.
pub proof fn law_refresh_reports_changes(
    observable: ObservableView,
    changes: Map<u64, Set<u64>>,
    order: Seq<u64>,
    events: Seq<RefreshEvent>,
)
    requires
        observable.consistent(),
        observable.subscribers.well_formed(),
        forall|i: int|
            0 <= i < events.len() ==> (#[trigger] events[i]).patches_differ(observable.result),
    ensures
        ({
            let (after, action) = observable.refreshed(changes, order, events);
            &&& honest(observable, (after, action))
            &&& after.called(action) == (if after.result != observable.result {
                observable.subscribers.ids
            } else {
                Seq::empty()
            })
            &&& after.called(action).no_duplicates()
        }),
    decreases events.len(),
{
    if events.len() > 0 {
        let shorter = events.drop_last();
        assert forall|i: int| 0 <= i < shorter.len() implies (#[trigger] shorter[i]).patches_differ(
            observable.result,
        ) by {
            assert(shorter[i] == events[i]);
        }
        law_refresh_reports_changes(observable, changes, order, shorter);
        let before = observable.refreshed(changes, order, shorter);
        if !(before.1 is Finished) {
            assert(events[events.len() - 1] == events.last());
            law_steps_report_changes(before.0, events.last());
        }
    }
}

/// A change without subscribers runs nothing, whatever answers are given, and leaves the result as it
/// is. So does a query that fails.
pub proof fn law_nothing_without_subscribers(
    observable: ObservableView,
    changes: Map<u64, Set<u64>>,
    order: Seq<u64>,
    events: Seq<RefreshEvent>,
    ids: Map<RootKey, u64>,
)
    ensures
        observable.subscribers.ids.len() == 0 ==> observable.refreshed(changes, order, events)
            == observable.changed(changes, order) && observable.changed(changes, order).1
            == (ActionView::Finished { changed: false }),
        observable.changed(changes, order).0.result == observable.result,
        observable.query_rows(None, ids) == (observable, ActionView::Finished { changed: false }),
    decreases events.len(),
{
    if events.len() > 0 {
        law_nothing_without_subscribers(observable, changes, order, events.drop_last(), ids);
    }
}

/// A result is patched just if one table changed alone and it is the table that the result is
/// patched from, and then with the rows of that table that changed. Otherwise the window is
/// refreshed if there is one, else the affected roots if they are kept, else the whole query is run.
pub proof fn law_refresh_tries_the_cheapest_way_first(
    observable: ObservableView,
    changes: Map<u64, Set<u64>>,
    order: Seq<u64>,
    table: u64,
)
    requires
        observable.subscribers.ids.len() > 0,
    ensures
        ({
            let (next, action) = observable.changed(changes, order);
            let name = observable.table_names[table];
            &&& order == seq![table] && observable.table_names.dom().contains(table)
                && observable.patch_table == Some(name) ==> action == (ActionView::Patch {
                ids: changes[table],
            })
            &&& action matches ActionView::Patch { ids } ==> order.len() == 1
                && observable.table_names.dom().contains(order[0]) && observable.patch_table
                == Some(observable.table_names[order[0]]) && ids == changes[order[0]]
            &&& !(action is Patch) ==> {
                &&& observable.metadata is Some ==> action == (ActionView::FindAffected {
                    path: RefreshPath::Window,
                })
                &&& observable.metadata is None && observable.roots is Some ==> action == (
                ActionView::FindAffected { path: RefreshPath::Roots })
                &&& observable.metadata is None && observable.roots is None ==> action
                    == ActionView::RunQuery
            }
        }),
{
}

/// Where one way of refreshing is of no use the next one is tried: after a patch the window, after
/// the window the affected roots, after them the whole query. The result stays as it is meanwhile.
pub proof fn law_refresh_falls_back_to_the_next_way(
    observable: ObservableView,
    ids: Set<u64>,
    root_changed: bool,
    table_row_count: usize,
    keys: Set<RootKey>,
    facts: FactsView,
    numbers: Map<RootKey, u64>,
)
    ensures
        ({
            let declined = observable.patched(PatchView::Declined);
            let unread = observable.patched(PatchView::NoTable);
            let unknown = observable.window_affected(None);
            let failed = observable.window_rows(ids, None, numbers, facts);
            let untold = observable.roots_affected(None, None, root_changed, table_row_count);
            let empty = observable.roots_rows(keys, None);
            &&& declined.1 is FindAffected <==> observable.metadata is Some
                || observable.roots is Some
            &&& declined.1 == unread.1
            &&& observable.metadata is Some ==> declined.1 == (ActionView::FindAffected {
                path: RefreshPath::Window,
            })
            &&& unknown.1 == failed.1
            &&& observable.roots is Some ==> unknown.1 == (ActionView::FindAffected {
                path: RefreshPath::Roots,
            })
            &&& observable.roots is None ==> unknown.1 == ActionView::RunQuery
            &&& untold.1 == ActionView::RunQuery
            &&& empty.1 == ActionView::RunQuery
            &&& declined.0.result == observable.result
            &&& unread.0.result == observable.result
            &&& unknown.0.result == observable.result
            &&& failed.0.result == observable.result
            &&& untold.0.result == observable.result
            &&& empty.0.result == observable.result
        }),
{
}

/// A change that affects no root row ends the refresh without a change of the result. The window is
/// refreshed on just the affected root rows, unless more of its rows come from them than it has to
/// spare.
pub proof fn law_windows_are_refreshed_on_affected_rows(
    observable: ObservableView,
    ids: Set<u64>,
    id: u64,
)
    requires
        observable.metadata is Some,
    ensures
        ({
            let (next, action) = observable.window_affected(Some(ids));
            &&& ids.is_empty() ==> action == (ActionView::Finished { changed: false })
            &&& ids.contains(id) && affected_rows(observable.window, ids)
                <= observable.metadata->0.overscan ==> action == (ActionView::RunWindow { ids })
            &&& action matches ActionView::RunWindow { ids: run } ==> run == ids && affected_rows(
                observable.window,
                ids,
            ) <= observable.metadata->0.overscan
            &&& next.window == observable.window
            &&& next.result == observable.result
        }),
{
    if ids.is_empty() {
        assert(ids =~= Set::empty());
    }
}

/// Affected roots are refreshed together: the query is run on the affected root rows, for the keys
/// that they had or have. The plan for few rows is taken just if the cost model says so.
pub proof fn law_roots_are_refreshed_on_affected_rows(
    observable: ObservableView,
    ids: Set<u64>,
    stored: Seq<(u64, Option<RowView>)>,
    root_changed: bool,
    table_row_count: usize,
    id: u64,
)
    requires
        observable.roots is Some,
        ids.contains(id),
    ensures
        ({
            let roots = observable.roots->0;
            let outcome = collect_all(roots.registry, stored, root_changed, roots.store_indices);
            let (next, action) = observable.roots_affected(
                Some(ids),
                Some(stored),
                root_changed,
                table_row_count,
            );
            &&& !outcome.complete ==> action == ActionView::RunQuery
            &&& outcome.complete && outcome.affected.is_empty() ==> action == (
            ActionView::Finished { changed: false })
            &&& action matches ActionView::RunRoots { ids: run, keys, variant } ==> {
                &&& outcome.complete
                &&& run == ids
                &&& keys == outcome.affected
                &&& variant is Small <==> RootSubsetCostPolicy::standard_policy().variant_for(
                    ids.len() as usize,
                    table_row_count,
                ) is Small
            }
            &&& outcome.complete && !outcome.affected.is_empty() ==> action is RunRoots
            &&& next.roots is Some
            &&& next.roots->0.registry == outcome.registry
            &&& next.roots->0.rows == roots.rows
            &&& next.result == observable.result
        }),
{
    let roots = observable.roots->0;
    let outcome = collect_all(roots.registry, stored, root_changed, roots.store_indices);
    if outcome.affected.is_empty() {
        assert(outcome.affected =~= Set::empty());
    }
}

/// The profile of a refresh tells how it went: a way that was tried is marked as tried when it is
/// taken up, and as a hit just where it gave the result.
pub proof fn law_profiles_tell_what_was_tried(
    observable: ObservableView,
    changes: Map<u64, Set<u64>>,
    order: Seq<u64>,
    rows: Seq<RowView>,
    keys: Set<RootKey>,
)
    ensures
        ({
            let (changed, action) = observable.changed(changes, order);
            &&& !changed.profile.reactive_patch_attempted
            &&& !changed.profile.reactive_patch_hit
            &&& !changed.profile.partial_refresh_hit
            &&& !changed.profile.root_subset_hit
            &&& changed.profile.partial_refresh_attempted <==> action
                == (ActionView::FindAffected { path: RefreshPath::Window })
            &&& changed.profile.root_subset_attempted <==> action == (ActionView::FindAffected {
                path: RefreshPath::Roots,
            })
        }),
        observable.patched(PatchView::Changed(rows)).0.profile.reactive_patch_hit,
        observable.patched(PatchView::Changed(rows)).0.profile.reactive_patch_attempted,
        observable.patched(PatchView::Unchanged).0.profile.reactive_patch_attempted,
        observable.patched(PatchView::Declined).0.profile.reactive_patch_attempted,
        observable.patched(PatchView::NoTable).0.profile.reactive_patch_attempted
            == observable.profile.reactive_patch_attempted,
        observable.patched(PatchView::Unchanged).0.profile.reactive_patch_hit
            == observable.profile.reactive_patch_hit,
        observable.roots_rows(keys, Some(rows)).1 is Finished ==> observable.roots_rows(
            keys,
            Some(rows),
        ).0.profile.root_subset_hit && observable.roots_rows(
            keys,
            Some(rows),
        ).0.profile.refresh_mode is RootSubsetRefresh,
        observable.try_query().0.profile.refresh_mode is FullRequery,
{
}

} // verus!
