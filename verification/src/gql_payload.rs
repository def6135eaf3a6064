//! What live GraphQL queries hand to their subscribers, and what a change invalidates.
use vstd::prelude::*;

use crate::affected_roots::sets_view;
use crate::collections::RowIdSet;
use crate::gql_response::{GraphqlResponse, ResponseView};
use crate::live_registry::{delta_tables_view, row_deltas_view, DeltaView, RowDelta};
use crate::requery::name_values;
use crate::row::RowView;
use crate::schema::TableId;
use crate::subscriptions::{ids_without, law_leaving_keeps_other_subscribers};
use crate::tables::{IdTable, NameTable};
use crate::text::names_view;
use crate::value::ValueView;
use crate::value_set::ValueSet;

verus! {

/// The subscribers of a live GraphQL query. Those that only keep it alive are not called.
pub struct GraphqlSubscribers {
    callbacks: Vec<usize>,
    keepalive_ids: RowIdSet,
    next_sub_id: usize,
}

/// The subscribers of a live GraphQL query.
#[verifier::ext_equal]
pub struct GraphqlSubscribersView {
    pub callbacks: Seq<usize>,
    pub keepalive_ids: Set<u64>,
    pub next_sub_id: usize,
}

impl GraphqlSubscribersView {
    /// No subscribers.
    pub open spec fn none() -> GraphqlSubscribersView {
        GraphqlSubscribersView {
            callbacks: Seq::empty(),
            keepalive_ids: Set::empty(),
            next_sub_id: 0,
        }
    }

    /// There is a subscriber.
    pub open spec fn is_observed(self) -> bool {
        self.callbacks.len() > 0 || self.keepalive_ids != Set::<u64>::empty()
    }

    /// The subscribers without one.
    pub open spec fn without(self, id: usize) -> GraphqlSubscribersView {
        if self.keepalive_ids.contains(id as u64) {
            GraphqlSubscribersView { keepalive_ids: self.keepalive_ids.remove(id as u64), ..self }
        } else {
            GraphqlSubscribersView { callbacks: ids_without(self.callbacks, id), ..self }
        }
    }
}

impl View for GraphqlSubscribers {
    type V = GraphqlSubscribersView;

    closed spec fn view(&self) -> GraphqlSubscribersView {
        GraphqlSubscribersView {
            callbacks: self.callbacks@,
            keepalive_ids: self.keepalive_ids@,
            next_sub_id: self.next_sub_id,
        }
    }
}

impl GraphqlSubscribers {
    /// No subscribers.
    pub fn new() -> (result: Self)
        ensures
            result@ == GraphqlSubscribersView::none(),
    {
        let result = GraphqlSubscribers {
            callbacks: Vec::new(),
            keepalive_ids: RowIdSet::new(),
            next_sub_id: 0,
        };
        assert(result@ =~= GraphqlSubscribersView::none());
        result
    }

    /// Adds a subscriber that only keeps the query alive.
    pub fn add_keepalive(&mut self) -> (id: usize)
        requires
            old(self)@.next_sub_id < usize::MAX,
        ensures
            id == old(self)@.next_sub_id,
            final(self)@ == (GraphqlSubscribersView {
                keepalive_ids: old(self)@.keepalive_ids.insert(id as u64),
                next_sub_id: (id + 1) as usize,
                ..old(self)@
            }),
    {
        let id = self.next_sub_id;
        self.next_sub_id += 1;
        let _ = self.keepalive_ids.insert(id as u64);
        id
    }

    /// Adds a subscriber that is called.
    pub fn add_callback(&mut self) -> (id: usize)
        requires
            old(self)@.next_sub_id < usize::MAX,
        ensures
            id == old(self)@.next_sub_id,
            final(self)@ == (GraphqlSubscribersView {
                callbacks: old(self)@.callbacks.push(id),
                next_sub_id: (id + 1) as usize,
                ..old(self)@
            }),
    {
        let id = self.next_sub_id;
        self.next_sub_id += 1;
        self.callbacks.push(id);
        id
    }

    /// Drops a subscriber and tells whether there was one.
    pub fn remove(&mut self, id: usize) -> (removed: bool)
        ensures
            final(self)@ == old(self)@.without(id),
            removed == (old(self)@.keepalive_ids.contains(id as u64)
                || old(self)@.callbacks.contains(id)),
    {
        let ghost start = self@;
        if self.keepalive_ids.remove(id as u64) {
            assert(self@ =~= start.without(id));
            return true;
        }
        assert(self.keepalive_ids@ =~= start.keepalive_ids);
        let ghost before = self.callbacks@;
        let mut kept: Vec<usize> = Vec::new();
        let mut removed = false;
        let mut i: usize = 0;
        assert(before.take(0) =~= Seq::empty());
        while i < self.callbacks.len()
            invariant
                i <= self.callbacks.len(),
                before == self.callbacks@,
                kept@ == ids_without(before.take(i as int), id),
                removed == before.take(i as int).contains(id),
                self@ == start,
            decreases self.callbacks.len() - i,
        {
            let ghost shorter = before.take(i as int);
            let ghost longer = before.take(i + 1);
            proof {
                assert(longer.drop_last() =~= shorter);
                assert(longer.last() == before[i as int]);
                if shorter.contains(id) {
                    let k = choose|k: int| 0 <= k < shorter.len() && shorter[k] == id;
                    assert(longer[k] == id);
                }
                assert(longer[i as int] == before[i as int]);
                if longer.contains(id) {
                    let k = choose|k: int| 0 <= k < longer.len() && longer[k] == id;
                    if k < i {
                        assert(shorter[k] == id);
                    }
                }
            }
            if self.callbacks[i] != id {
                kept.push(self.callbacks[i]);
            } else {
                removed = true;
            }
            i += 1;
        }
        assert(before.take(before.len() as int) =~= before);
        self.callbacks = kept;
        removed
    }

    /// The number of subscribers.
    pub fn total_count(&self) -> (count: usize)
        requires
            self@.keepalive_ids.len() + self@.callbacks.len() <= usize::MAX,
        ensures
            count == self@.keepalive_ids.len() + self@.callbacks.len(),
    {
        self.keepalive_ids.len() + self.callbacks.len()
    }

    /// Tells whether there is a subscriber.
    pub fn is_observed(&self) -> (observed: bool)
        ensures
            observed == self@.is_observed(),
    {
        self.callbacks.len() > 0 || !self.keepalive_ids.is_empty()
    }

    /// The number of subscribers that are called.
    pub fn callback_count(&self) -> (count: usize)
        ensures
            count == self@.callbacks.len(),
    {
        self.callbacks.len()
    }
}

/// How the items of the root list of a response changed.
#[derive(Debug)]
pub enum GraphqlRootListPatch {
    StablePositions(Vec<usize>),
    Splice {
        removed_positions: Vec<usize>,
        inserted_positions: Vec<usize>,
        updated_positions: Vec<usize>,
    },
}

impl GraphqlRootListPatch {
    /// Some position changed.
    pub open spec fn says_changed(&self) -> bool {
        match self {
            GraphqlRootListPatch::StablePositions(positions) => positions@.len() > 0,
            GraphqlRootListPatch::Splice {
                removed_positions,
                inserted_positions,
                updated_positions,
            } => removed_positions@.len() > 0 || inserted_positions@.len() > 0
                || updated_positions@.len() > 0,
        }
    }
}

/// What is known of a change of the root list.
#[derive(Clone, Copy, Debug)]
pub enum GraphqlPayloadChange<'a> {
    Unknown,
    RootList(GraphqlRootListDelta<'a>),
}

/// How the items of a root list changed.
#[derive(Clone, Copy, Debug)]
pub enum GraphqlRootListDelta<'a> {
    StablePositions(&'a [usize]),
    Splice {
        removed_positions: &'a [usize],
        inserted_positions: &'a [usize],
        updated_positions: &'a [usize],
    },
}

impl<'a> GraphqlRootListDelta<'a> {
    /// The changes of a patch.
    pub open spec fn describes(self, patch: GraphqlRootListPatch) -> bool {
        match (self, patch) {
            (
                GraphqlRootListDelta::StablePositions(positions),
                GraphqlRootListPatch::StablePositions(expected),
            ) => positions@ == expected@,
            (
                GraphqlRootListDelta::Splice {
                    removed_positions,
                    inserted_positions,
                    updated_positions,
                },
                GraphqlRootListPatch::Splice {
                    removed_positions: removed,
                    inserted_positions: inserted,
                    updated_positions: updated,
                },
            ) => removed_positions@ == removed@ && inserted_positions@ == inserted@
                && updated_positions@ == updated@,
            _ => false,
        }
    }

    /// Some position changed.
    pub open spec fn says_changed(self) -> bool {
        match self {
            GraphqlRootListDelta::StablePositions(positions) => positions@.len() > 0,
            GraphqlRootListDelta::Splice {
                removed_positions,
                inserted_positions,
                updated_positions,
            } => removed_positions@.len() > 0 || inserted_positions@.len() > 0
                || updated_positions@.len() > 0,
        }
    }

    /// Tells whether some position changed.
    pub fn is_non_empty(self) -> (changed: bool)
        ensures
            changed == self.says_changed(),
    {
        match self {
            GraphqlRootListDelta::StablePositions(positions) => positions.len() > 0,
            GraphqlRootListDelta::Splice {
                removed_positions,
                inserted_positions,
                updated_positions,
            } => removed_positions.len() > 0 || inserted_positions.len() > 0
                || updated_positions.len() > 0,
        }
    }
}

impl<'a> GraphqlPayloadChange<'a> {
    /// What a patch says.
    pub fn from_root_list_patch(patch: Option<&'a GraphqlRootListPatch>) -> (result: Self)
        ensures
            match patch {
                Some(patch) => result matches GraphqlPayloadChange::RootList(delta)
                    && delta.describes(*patch) && delta.says_changed() == patch.says_changed(),
                None => result is Unknown,
            },
    {
        match patch {
            Some(GraphqlRootListPatch::StablePositions(positions)) => GraphqlPayloadChange::RootList(
                GraphqlRootListDelta::StablePositions(positions.as_slice()),
            ),
            Some(
                GraphqlRootListPatch::Splice {
                    removed_positions,
                    inserted_positions,
                    updated_positions,
                },
            ) => GraphqlPayloadChange::RootList(
                GraphqlRootListDelta::Splice {
                    removed_positions: removed_positions.as_slice(),
                    inserted_positions: inserted_positions.as_slice(),
                    updated_positions: updated_positions.as_slice(),
                },
            ),
            None => GraphqlPayloadChange::Unknown,
        }
    }

    /// The patch, if the change is known.
    pub fn as_root_list_patch(self, patch: Option<&'a GraphqlRootListPatch>) -> (result: Option<
        &'a GraphqlRootListPatch,
    >)
        ensures
            result == (if self is RootList {
                patch
            } else {
                None
            }),
    {
        match self {
            GraphqlPayloadChange::RootList(_) => patch,
            GraphqlPayloadChange::Unknown => None,
        }
    }

    /// Tells whether the response changed, if that is known.
    pub fn changed_hint(self) -> (hint: Option<bool>)
        ensures
            hint == (match self {
                GraphqlPayloadChange::Unknown => None,
                GraphqlPayloadChange::RootList(delta) => Some(delta.says_changed()),
            }),
    {
        match self {
            GraphqlPayloadChange::Unknown => None,
            GraphqlPayloadChange::RootList(delta) => Some(delta.is_non_empty()),
        }
    }
}

/// Whether a response changed: as its patch says where the response is built in batches, or else
/// if it is the first one or differs from the current one.
pub open spec fn response_differs(
    batched: bool,
    patch: Option<GraphqlRootListPatch>,
    current: Option<ResponseView>,
    next: ResponseView,
) -> bool {
    match patch {
        Some(patch) if batched => patch.says_changed(),
        _ => current != Some(next),
    }
}

/// What a response is compared by.
#[derive(Clone, Copy)]
pub struct GraphqlOutputAdapter<'a> {
    pub batched: bool,
    pub patch: Option<&'a GraphqlRootListPatch>,
}

impl<'a> GraphqlOutputAdapter<'a> {
    /// The adapter of a response, with the last patch of its batches.
    pub fn full_payload_for(batched: bool, patch: Option<&'a GraphqlRootListPatch>) -> (result: Self)
        ensures
            result.batched == batched,
            result.patch == patch,
    {
        GraphqlOutputAdapter { batched, patch }
    }

    /// Tells whether a response changed.
    pub fn response_changed(
        self,
        current: Option<&GraphqlResponse>,
        next: &GraphqlResponse,
    ) -> (changed: bool)
        ensures
            changed == response_differs(
                self.batched,
                match self.patch {
                    Some(patch) => Some(*patch),
                    None => None,
                },
                match current {
                    Some(current) => Some(current.view()),
                    None => None,
                },
                next.view(),
            ),
    {
        if self.batched {
            if let Some(changed) = GraphqlPayloadChange::from_root_list_patch(
                self.patch,
            ).changed_hint() {
                return changed;
            }
        }
        match current {
            Some(current) => !current.data.same(&next.data),
            None => true,
        }
    }
}

/// What is kept of a response.
pub struct PayloadView {
    pub response: Option<ResponseView>,
    pub encoded: bool,
    pub dirty: bool,
}

/// What is kept of a response. The encoded form is kept by the caller.
pub struct GraphqlResponsePayloadCache {
    pub response: Option<GraphqlResponse>,
    pub encoded: bool,
    pub dirty: bool,
}

impl GraphqlResponsePayloadCache {
    /// What is kept.
    pub open spec fn view(&self) -> PayloadView {
        PayloadView {
            response: match self.response {
                Some(response) => Some(response.view()),
                None => None,
            },
            encoded: self.encoded,
            dirty: self.dirty,
        }
    }

    /// Nothing is kept, and a response is wanted.
    pub fn new() -> (result: Self)
        ensures
            result.view() == (PayloadView { response: None, encoded: false, dirty: true }),
    {
        GraphqlResponsePayloadCache { response: None, encoded: false, dirty: true }
    }

    /// The response is out of date.
    pub fn mark_dirty(&mut self)
        ensures
            final(self).view() == (PayloadView { dirty: true, ..old(self).view() }),
    {
        self.dirty = true;
    }

    /// Tells whether there is a response that is up to date.
    pub fn has_clean_response(&self) -> (clean: bool)
        ensures
            clean == (self.view().response is Some && !self.view().dirty),
    {
        self.response.is_some() && !self.dirty
    }

    /// The last response.
    pub fn current_response(&self) -> (response: Option<&GraphqlResponse>)
        ensures
            match response {
                Some(response) => self.view().response == Some(response.view()),
                None => self.view().response is None,
            },
    {
        match &self.response {
            Some(response) => Some(response),
            None => None,
        }
    }

    /// Takes a new response. One that did not change leaves the last one, and its encoded form,
    /// in place.
    pub fn finish_materialize(&mut self, response: GraphqlResponse, changed: bool)
        ensures
            final(self).view() == (if changed {
                PayloadView { response: Some(response.view()), encoded: false, dirty: false }
            } else {
                PayloadView { dirty: false, ..old(self).view() }
            }),
    {
        if changed {
            self.response = Some(response);
            self.encoded = false;
        }
        self.dirty = false;
    }
}

/// The kinds of relations between tables.
#[derive(Clone, Copy, Debug, PartialEq, Eq, Structural)]
pub enum RelationEdgeKind {
    Forward,
    Reverse,
}

/// A relation that a response follows.
#[derive(Clone, Copy, Debug)]
pub struct RelationEdgePlan {
    pub kind: RelationEdgeKind,
    pub parent_column_index: usize,
    pub child_column_index: usize,
}

/// The column that a relation is keyed by in the rows of its table.
pub open spec fn key_column(edge: RelationEdgePlan) -> usize {
    match edge.kind {
        RelationEdgeKind::Forward => edge.parent_column_index,
        RelationEdgeKind::Reverse => edge.child_column_index,
    }
}

/// The column that a relation is keyed by in the rows of its table.
pub fn batch_edge_delta_key_column_index(edge: &RelationEdgePlan) -> (index: usize)
    ensures
        index == key_column(*edge),
{
    match edge.kind {
        RelationEdgeKind::Forward => edge.parent_column_index,
        RelationEdgeKind::Reverse => edge.child_column_index,
    }
}

/// The relations that a response follows, with those that each table takes part in.
pub struct GraphqlBatchPlan {
    pub edges: Vec<RelationEdgePlan>,
    pub edges_by_table: NameTable<Vec<usize>>,
}

impl GraphqlBatchPlan {
    /// The relations of a table.
    pub open spec fn table_edges(&self, table: Seq<char>) -> Seq<usize> {
        if self.edges_by_table@.dom().contains(table) {
            self.edges_by_table@[table]@
        } else {
            Seq::empty()
        }
    }

    /// The relations of the tables are relations of the plan.
    pub open spec fn well_formed(&self) -> bool {
        forall|table: Seq<char>, i: int|
            0 <= i < self.table_edges(table).len() ==> (#[trigger] self.table_edges(table)[i])
                < self.edges@.len()
    }

    /// The relations of a table.
    pub fn edges_for_table(&self, table_name: &str) -> (edges: &[usize])
        ensures
            edges@ == self.table_edges(table_name@),
    {
        match self.edges_by_table.get(table_name) {
            Some(edges) => edges.as_slice(),
            None => &[],
        }
    }

    /// Tells whether the response follows relations.
    pub fn has_relations(&self) -> (result: bool)
        ensures
            result == (self.edges@.len() > 0),
    {
        self.edges.len() > 0
    }
}

/// The values of a column in changed rows, without null.
pub open spec fn changed_keys(deltas: Seq<DeltaView>, column: usize) -> Set<ValueView> {
    Set::new(
        |value: ValueView|
            value != ValueView::Null && exists|i: int|
                0 <= i < deltas.len() && column < (#[trigger] deltas[i]).row.values.len()
                    && deltas[i].row.values[column as int] == value,
    )
}

/// The keys of a relation that changed.
pub open spec fn edge_keys_of(keys: Map<u64, Set<ValueView>>, edge: u64) -> Set<ValueView> {
    if keys.dom().contains(edge) {
        keys[edge]
    } else {
        Set::empty()
    }
}

/// The keys of relations that changed, with those of changed rows of a table.
pub open spec fn with_edge_keys(
    keys: Map<u64, Set<ValueView>>,
    edges: Seq<RelationEdgePlan>,
    edge_ids: Seq<usize>,
    deltas: Seq<DeltaView>,
) -> Map<u64, Set<ValueView>>
    decreases edge_ids.len(),
{
    if edge_ids.len() == 0 {
        keys
    } else {
        let before = with_edge_keys(keys, edges, edge_ids.drop_last(), deltas);
        let edge = edge_ids.last();
        let added = changed_keys(deltas, key_column(edges[edge as int]));
        if added == Set::<ValueView>::empty() {
            before
        } else {
            before.insert(edge as u64, edge_keys_of(before, edge as u64).union(added))
        }
    }
}

/// Sets of values by relation.
pub open spec fn value_sets_view(sets: Map<u64, ValueSet>) -> Map<u64, Set<ValueView>> {
    sets.map_values(|set: ValueSet| set@)
}

/// Sets of identifiers by table name.
pub open spec fn named_sets_view(sets: Map<Seq<char>, RowIdSet>) -> Map<Seq<char>, Set<u64>> {
    sets.map_values(|set: RowIdSet| set@)
}

fn collect_changed_keys(deltas: &[RowDelta], column: usize) -> (keys: ValueSet)
    ensures
        keys@ == changed_keys(row_deltas_view(deltas@), column),
{
    let ghost views = row_deltas_view(deltas@);
    let mut keys = ValueSet::new();
    let mut i: usize = 0;
    assert(keys@ =~= changed_keys(views.take(0), column));
    while i < deltas.len()
        invariant
            i <= deltas.len(),
            views == row_deltas_view(deltas@),
            keys@ == changed_keys(views.take(i as int), column),
        decreases deltas.len() - i,
    {
        let ghost shorter = views.take(i as int);
        let ghost longer = views.take(i + 1);
        let ghost before = keys@;
        let ghost row = deltas@[i as int].row@;
        assert(longer[i as int].row == row);
        if let Some(value) = deltas[i].row.get(column) {
            if !value.is_null() {
                keys.insert(value);
            }
        }
        proof {
            assert forall|value: ValueView| keys@.contains(value) <==> changed_keys(
                longer,
                column,
            ).contains(value) by {
                if before.contains(value) {
                    let k = choose|k: int|
                        0 <= k < shorter.len() && column < (#[trigger] shorter[k]).row.values.len()
                            && shorter[k].row.values[column as int] == value;
                    assert(longer[k] == shorter[k]);
                }
                if changed_keys(longer, column).contains(value) {
                    let k = choose|k: int|
                        0 <= k < longer.len() && column < (#[trigger] longer[k]).row.values.len()
                            && longer[k].row.values[column as int] == value;
                    if k < i {
                        assert(shorter[k] == longer[k]);
                        assert(before.contains(value));
                    }
                }
            }
            assert(keys@ =~= changed_keys(longer, column));
        }
        i += 1;
    }
    assert(views.take(views.len() as int) =~= views);
    keys
}

/// Adds the keys of the relations of a table that changed rows have.
pub fn collect_dirty_edge_keys_for_table_deltas(
    plan: &GraphqlBatchPlan,
    table_name: &str,
    deltas: &[RowDelta],
    dirty_edge_keys: &mut IdTable<ValueSet>,
)
    requires
        plan.well_formed(),
    ensures
        value_sets_view(final(dirty_edge_keys)@) == with_edge_keys(
            value_sets_view(old(dirty_edge_keys)@),
            plan.edges@,
            plan.table_edges(table_name@),
            row_deltas_view(deltas@),
        ),
{
    let ghost start = value_sets_view(dirty_edge_keys@);
    let ghost views = row_deltas_view(deltas@);
    let edge_ids = plan.edges_for_table(table_name);
    let mut i: usize = 0;
    assert(edge_ids@.take(0) =~= Seq::empty());
    while i < edge_ids.len()
        invariant
            i <= edge_ids.len(),
            plan.well_formed(),
            edge_ids@ == plan.table_edges(table_name@),
            views == row_deltas_view(deltas@),
            value_sets_view(dirty_edge_keys@) == with_edge_keys(
                start,
                plan.edges@,
                edge_ids@.take(i as int),
                views,
            ),
        decreases edge_ids.len() - i,
    {
        let ghost before = value_sets_view(dirty_edge_keys@);
        assert(edge_ids@.take(i + 1).drop_last() =~= edge_ids@.take(i as int));
        assert(edge_ids@.take(i + 1).last() == edge_ids@[i as int]);
        let edge_id = edge_ids[i];
        assert(plan.table_edges(table_name@)[i as int] < plan.edges@.len());
        let added = collect_changed_keys(
            deltas,
            batch_edge_delta_key_column_index(&plan.edges[edge_id]),
        );
        if !added.is_empty() {
            let key = edge_id as u64;
            let mut set = match dirty_edge_keys.replace(key, ValueSet::new()) {
                Some(set) => set,
                None => ValueSet::new(),
            };
            assert(set@ =~= edge_keys_of(before, key));
            set.extend_set(&added);
            let ghost all = set@;
            dirty_edge_keys.insert(key, set);
            assert(value_sets_view(dirty_edge_keys@) =~= before.insert(key, all));
        }
        i += 1;
    }
    assert(edge_ids@.take(edge_ids@.len() as int) =~= edge_ids@);
}

/// What of a response is to be built anew.
pub struct GraphqlInvalidation {
    pub root_changed: bool,
    pub dirty_root_rows: RowIdSet,
    pub stable_root_positions: bool,
    pub changed_tables: Vec<String>,
    pub dirty_edge_keys: IdTable<ValueSet>,
    pub dirty_table_rows: NameTable<RowIdSet>,
}

/// What of a response is to be built anew.
#[verifier::ext_equal]
pub struct InvalidationView {
    pub root_changed: bool,
    pub dirty_root_rows: Set<u64>,
    pub stable_root_positions: bool,
    pub changed_tables: Seq<Seq<char>>,
    pub dirty_edge_keys: Map<u64, Set<ValueView>>,
    pub dirty_table_rows: Map<Seq<char>, Set<u64>>,
}

impl View for GraphqlInvalidation {
    type V = InvalidationView;

    open spec fn view(&self) -> InvalidationView {
        InvalidationView {
            root_changed: self.root_changed,
            dirty_root_rows: self.dirty_root_rows@,
            stable_root_positions: self.stable_root_positions,
            changed_tables: names_view(self.changed_tables@),
            dirty_edge_keys: value_sets_view(self.dirty_edge_keys@),
            dirty_table_rows: named_sets_view(self.dirty_table_rows@),
        }
    }
}

/// The rows of a table that were added or dropped, as far as they are known.
pub open spec fn known_deltas(deltas: Map<u64, Seq<DeltaView>>, table: u64) -> Seq<DeltaView> {
    if deltas.dom().contains(table) {
        deltas[table]
    } else {
        Seq::empty()
    }
}

/// What changes of tables invalidate. A table whose changed rows are known has its relations
/// invalidated by key, another one is invalidated as a whole. A table without a name invalidates
/// everything.
pub open spec fn snapshot_invalidation(
    plan: GraphqlBatchPlan,
    names: Map<u64, Seq<char>>,
    changes: Map<u64, Set<u64>>,
    tables: Seq<u64>,
    deltas: Map<u64, Seq<DeltaView>>,
    root_changed: bool,
    dirty_root_rows: Set<u64>,
) -> Option<InvalidationView>
    decreases tables.len(),
{
    if tables.len() == 0 {
        Some(
            InvalidationView {
                root_changed,
                dirty_root_rows,
                stable_root_positions: false,
                changed_tables: Seq::empty(),
                dirty_edge_keys: Map::empty(),
                dirty_table_rows: Map::empty(),
            },
        )
    } else {
        let table = tables.last();
        match snapshot_invalidation(
            plan,
            names,
            changes,
            tables.drop_last(),
            deltas,
            root_changed,
            dirty_root_rows,
        ) {
            Some(before) => if names.dom().contains(table) {
                let rows = known_deltas(deltas, table);
                Some(
                    InvalidationView {
                        changed_tables: if rows.len() > 0 {
                            before.changed_tables
                        } else {
                            before.changed_tables.push(names[table])
                        },
                        dirty_edge_keys: with_edge_keys(
                            before.dirty_edge_keys,
                            plan.edges@,
                            if rows.len() > 0 {
                                plan.table_edges(names[table])
                            } else {
                                Seq::empty()
                            },
                            rows,
                        ),
                        dirty_table_rows: before.dirty_table_rows.insert(
                            names[table],
                            changes[table],
                        ),
                        ..before
                    },
                )
            } else {
                None
            },
            None => None,
        }
    }
}

proof fn lemma_invalidation_stops(
    plan: GraphqlBatchPlan,
    names: Map<u64, Seq<char>>,
    changes: Map<u64, Set<u64>>,
    tables: Seq<u64>,
    deltas: Map<u64, Seq<DeltaView>>,
    root_changed: bool,
    dirty_root_rows: Set<u64>,
    k: int,
)
    requires
        0 <= k <= tables.len(),
        snapshot_invalidation(
            plan,
            names,
            changes,
            tables.take(k),
            deltas,
            root_changed,
            dirty_root_rows,
        ) is None,
    ensures
        snapshot_invalidation(
            plan,
            names,
            changes,
            tables,
            deltas,
            root_changed,
            dirty_root_rows,
        ) is None,
    decreases tables.len(),
{
    if k == tables.len() {
        assert(tables.take(k) =~= tables);
    } else {
        assert(tables.drop_last().take(k) =~= tables.take(k));
        lemma_invalidation_stops(
            plan,
            names,
            changes,
            tables.drop_last(),
            deltas,
            root_changed,
            dirty_root_rows,
            k,
        );
    }
}

/// Tells what changes of tables invalidate; none if everything is to be built anew.
pub fn build_snapshot_batch_invalidation(
    plan: &GraphqlBatchPlan,
    table_names: &IdTable<String>,
    changes: &IdTable<RowIdSet>,
    deltas: &IdTable<Vec<RowDelta>>,
    root_changed: bool,
    dirty_root_rows: &RowIdSet,
) -> (result: Option<GraphqlInvalidation>)
    requires
        plan.well_formed(),
    ensures
        match snapshot_invalidation(
            *plan,
            name_values(table_names@),
            sets_view(changes@),
            changes.order(),
            delta_tables_view(deltas@),
            root_changed,
            dirty_root_rows@,
        ) {
            Some(expected) => result is Some && result->0@ == expected,
            None => result is None,
        },
{
    let ghost names = name_values(table_names@);
    let ghost sets = sets_view(changes@);
    let ghost order = changes.order();
    let ghost rows_by_table = delta_tables_view(deltas@);
    let count = changes.len();
    let mut changed_tables: Vec<String> = Vec::new();
    let mut dirty_edge_keys: IdTable<ValueSet> = IdTable::new();
    let mut dirty_table_rows: NameTable<RowIdSet> = NameTable::new();
    let mut i: usize = 0;
    proof {
        assert(order.take(0) =~= Seq::empty());
        assert(names_view(changed_tables@) =~= Seq::empty());
        assert(value_sets_view(dirty_edge_keys@) =~= Map::empty());
        assert(named_sets_view(dirty_table_rows@) =~= Map::empty());
    }
    while i < count
        invariant
            i <= count,
            count == order.len(),
            plan.well_formed(),
            names == name_values(table_names@),
            sets == sets_view(changes@),
            order == changes.order(),
            rows_by_table == delta_tables_view(deltas@),
            snapshot_invalidation(
                *plan,
                names,
                sets,
                order.take(i as int),
                rows_by_table,
                root_changed,
                dirty_root_rows@,
            ) == Some(
                (InvalidationView {
                    root_changed,
                    dirty_root_rows: dirty_root_rows@,
                    stable_root_positions: false,
                    changed_tables: names_view(changed_tables@),
                    dirty_edge_keys: value_sets_view(dirty_edge_keys@),
                    dirty_table_rows: named_sets_view(dirty_table_rows@),
                }),
            ),
        decreases count - i,
    {
        let ghost tables_before = names_view(changed_tables@);
        let ghost keys_before = value_sets_view(dirty_edge_keys@);
        let ghost rows_before = named_sets_view(dirty_table_rows@);
        assert(order.take(i + 1).drop_last() =~= order.take(i as int));
        assert(order.take(i + 1).last() == order[i as int]);
        let table = *changes.key_at(i);
        let name = match table_names.get(table) {
            Some(name) => name,
            None => {
                proof {
                    lemma_invalidation_stops(
                        *plan,
                        names,
                        sets,
                        order,
                        rows_by_table,
                        root_changed,
                        dirty_root_rows@,
                        i + 1,
                    );
                }
                return None;
            },
        };
        let ghost rows = known_deltas(rows_by_table, table);
        let mut known = false;
        if let Some(changed) = deltas.get(table) {
            assert(row_deltas_view(changed@).len() == changed@.len());
            if changed.len() > 0 {
                known = true;
                collect_dirty_edge_keys_for_table_deltas(
                    plan,
                    name.as_str(),
                    changed.as_slice(),
                    &mut dirty_edge_keys,
                );
            }
        }
        assert(known == (rows.len() > 0));
        if !known {
            changed_tables.push(name.clone());
            assert(names_view(changed_tables@) =~= tables_before.push(name@));
        }
        let ids = changes.value_at(i).copy();
        let ghost added = ids@;
        dirty_table_rows.insert(name.clone(), ids);
        proof {
            assert(named_sets_view(dirty_table_rows@) =~= rows_before.insert(name@, added));
            assert(added == sets[table]);
        }
        i += 1;
    }
    assert(order.take(order.len() as int) =~= order);
    Some(
        GraphqlInvalidation {
            root_changed,
            dirty_root_rows: dirty_root_rows.copy(),
            stable_root_positions: false,
            changed_tables,
            dirty_edge_keys,
            dirty_table_rows,
        },
    )
}

/// The identifiers of changed rows.
pub open spec fn delta_ids(deltas: Seq<DeltaView>) -> Set<u64> {
    deltas.map_values(|delta: DeltaView| delta.row.id).to_set()
}

/// Collects the identifiers of changed rows.
pub fn collect_delta_ids(deltas: &[RowDelta]) -> (ids: RowIdSet)
    ensures
        ids@ == delta_ids(row_deltas_view(deltas@)),
{
    let mut list: Vec<u64> = Vec::new();
    let mut i: usize = 0;
    while i < deltas.len()
        invariant
            i <= deltas.len(),
            list.len() == i,
            forall|j: int| 0 <= j < i ==> list@[j] == deltas@[j].row@.id,
        decreases deltas.len() - i,
    {
        list.push(deltas[i].row.id());
        i += 1;
    }
    assert(list@ =~= row_deltas_view(deltas@).map_values(|delta: DeltaView| delta.row.id));
    RowIdSet::from_list(list.as_slice())
}

/// What changed rows of a table invalidate.
pub open spec fn delta_invalidation(
    plan: GraphqlBatchPlan,
    names: Map<u64, Seq<char>>,
    table: u64,
    deltas: Seq<DeltaView>,
    root_changed: bool,
) -> Option<InvalidationView> {
    if names.dom().contains(table) {
        Some(
            InvalidationView {
                root_changed,
                dirty_root_rows: Set::empty(),
                stable_root_positions: false,
                changed_tables: seq![names[table]],
                dirty_edge_keys: with_edge_keys(
                    Map::empty(),
                    plan.edges@,
                    plan.table_edges(names[table]),
                    deltas,
                ),
                dirty_table_rows: Map::empty().insert(names[table], delta_ids(deltas)),
            },
        )
    } else {
        None
    }
}

/// Tells what changed rows of a table invalidate; none if everything is to be built anew.
pub fn build_delta_batch_invalidation(
    plan: &GraphqlBatchPlan,
    table_names: &IdTable<String>,
    table_id: TableId,
    deltas: &[RowDelta],
    root_changed: bool,
) -> (result: Option<GraphqlInvalidation>)
    requires
        plan.well_formed(),
    ensures
        match delta_invalidation(
            *plan,
            name_values(table_names@),
            table_id as u64,
            row_deltas_view(deltas@),
            root_changed,
        ) {
            Some(expected) => result is Some && result->0@ == expected,
            None => result is None,
        },
{
    let name = match table_names.get(table_id as u64) {
        Some(name) => name,
        None => {
            return None;
        },
    };
    let mut changed_tables: Vec<String> = Vec::new();
    changed_tables.push(name.clone());
    let mut dirty_table_rows: NameTable<RowIdSet> = NameTable::new();
    let ids = collect_delta_ids(deltas);
    let ghost added = ids@;
    dirty_table_rows.insert(name.clone(), ids);
    let mut dirty_edge_keys: IdTable<ValueSet> = IdTable::new();
    assert(value_sets_view(dirty_edge_keys@) =~= Map::empty());
    collect_dirty_edge_keys_for_table_deltas(plan, name.as_str(), deltas, &mut dirty_edge_keys);
    proof {
        assert(names_view(changed_tables@) =~= seq![name@]);
        assert(named_sets_view(dirty_table_rows@) =~= Map::empty().insert(name@, added));
    }
    Some(
        GraphqlInvalidation {
            root_changed,
            dirty_root_rows: RowIdSet::new(),
            stable_root_positions: false,
            changed_tables,
            dirty_edge_keys,
            dirty_table_rows,
        },
    )
}

/// The identifiers of the rows that were added.
pub open spec fn inserted_ids(deltas: Seq<DeltaView>) -> Set<u64> {
    Set::new(
        |id: u64|
            exists|i: int|
                0 <= i < deltas.len() && (#[trigger] deltas[i]).diff > 0 && deltas[i].row.id == id,
    )
}

/// The identifiers of the rows that were dropped.
pub open spec fn deleted_ids(deltas: Seq<DeltaView>) -> Set<u64> {
    Set::new(
        |id: u64|
            exists|i: int|
                0 <= i < deltas.len() && (#[trigger] deltas[i]).diff <= 0 && deltas[i].row.id == id,
    )
}

/// Every row that was dropped was added again, once, and the other way round.
pub open spec fn keeps_positions(deltas: Seq<DeltaView>) -> bool {
    deltas.len() == 0 || (inserted_ids(deltas) == deleted_ids(deltas) && inserted_ids(deltas)
        != Set::<u64>::empty() && deltas.len() == 2 * inserted_ids(deltas).len())
}

fn same_ids(left: &RowIdSet, right: &RowIdSet) -> (same: bool)
    ensures
        same == (left@ == right@),
{
    let a = left.sorted();
    let b = right.sorted();
    if a.len() != b.len() {
        return false;
    }
    let mut i: usize = 0;
    while i < a.len()
        invariant
            i <= a.len(),
            a.len() == b.len(),
            a@.to_set() == left@,
            b@.to_set() == right@,
            crate::collections::ascending(a@),
            crate::collections::ascending(b@),
            forall|j: int| 0 <= j < i ==> a@[j] == b@[j],
        decreases a.len() - i,
    {
        if a[i] != b[i] {
            proof {
                if left@ == right@ {
                    crate::collections::lemma_ascending_unique(a@, b@);
                }
            }
            return false;
        }
        i += 1;
    }
    assert(a@ =~= b@);
    true
}

/// Tells whether changed rows of a result leave every row at its position.
pub fn output_deltas_preserve_root_positions(output_deltas: &[RowDelta]) -> (preserved: bool)
    ensures
        preserved == keeps_positions(row_deltas_view(output_deltas@)),
{
    let ghost views = row_deltas_view(output_deltas@);
    assert(views.len() == output_deltas@.len());
    if output_deltas.len() == 0 {
        return true;
    }
    let mut inserted = RowIdSet::new();
    let mut deleted = RowIdSet::new();
    let mut i: usize = 0;
    assert(inserted@ =~= inserted_ids(views.take(0)));
    assert(deleted@ =~= deleted_ids(views.take(0)));
    while i < output_deltas.len()
        invariant
            i <= output_deltas.len(),
            views == row_deltas_view(output_deltas@),
            inserted@ == inserted_ids(views.take(i as int)),
            deleted@ == deleted_ids(views.take(i as int)),
        decreases output_deltas.len() - i,
    {
        let ghost shorter = views.take(i as int);
        let ghost longer = views.take(i + 1);
        let ghost inserted_before = inserted@;
        let ghost deleted_before = deleted@;
        assert(longer[i as int] == output_deltas@[i as int]@);
        let id = output_deltas[i].row.id();
        if output_deltas[i].diff > 0 {
            let _ = inserted.insert(id);
        } else {
            let _ = deleted.insert(id);
        }
        proof {
            assert forall|x: u64| inserted@.contains(x) <==> inserted_ids(longer).contains(x) by {
                if inserted_before.contains(x) {
                    let k = choose|k: int|
                        0 <= k < shorter.len() && (#[trigger] shorter[k]).diff > 0
                            && shorter[k].row.id == x;
                    assert(longer[k] == shorter[k]);
                }
                if inserted_ids(longer).contains(x) {
                    let k = choose|k: int|
                        0 <= k < longer.len() && (#[trigger] longer[k]).diff > 0
                            && longer[k].row.id == x;
                    if k < i {
                        assert(shorter[k] == longer[k]);
                        assert(inserted_before.contains(x));
                    }
                }
            }
            assert forall|x: u64| deleted@.contains(x) <==> deleted_ids(longer).contains(x) by {
                if deleted_before.contains(x) {
                    let k = choose|k: int|
                        0 <= k < shorter.len() && (#[trigger] shorter[k]).diff <= 0
                            && shorter[k].row.id == x;
                    assert(longer[k] == shorter[k]);
                }
                if deleted_ids(longer).contains(x) {
                    let k = choose|k: int|
                        0 <= k < longer.len() && (#[trigger] longer[k]).diff <= 0
                            && longer[k].row.id == x;
                    if k < i {
                        assert(shorter[k] == longer[k]);
                        assert(deleted_before.contains(x));
                    }
                }
            }
            assert(inserted@ =~= inserted_ids(longer));
            assert(deleted@ =~= deleted_ids(longer));
        }
        i += 1;
    }
    assert(views.take(views.len() as int) =~= views);
    let count = inserted.len();
    let pairs = output_deltas.len() / 2;
    !inserted.is_empty() && same_ids(&inserted, &deleted) && output_deltas.len() % 2 == 0 && count
        == pairs
}

/// A field of a selection.
#[derive(Debug)]
pub enum SelectedField {
    Plain,
    ForwardRelation,
    ReverseRelation,
}

/// Tells whether a field follows a relation.
pub fn field_has_relations(field: &SelectedField) -> (result: bool)
    ensures
        result == !(field is Plain),
{
    match field {
        SelectedField::Plain => false,
        SelectedField::ForwardRelation => true,
        SelectedField::ReverseRelation => true,
    }
}

/// Tells whether a root field, given by the fields that it selects, follows a relation. A root
/// field without a selection follows none.
pub fn root_field_has_relations(selection: Option<&[SelectedField]>) -> (result: bool)
    ensures
        result == (selection is Some && exists|i: int|
            0 <= i < selection->0@.len() && !(#[trigger] selection->0@[i] is Plain)),
{
    let fields = match selection {
        Some(fields) => fields,
        None => {
            return false;
        },
    };
    let mut i: usize = 0;
    while i < fields.len()
        invariant
            i <= fields.len(),
            selection == Some(fields),
            forall|j: int| 0 <= j < i ==> #[trigger] fields@[j] is Plain,
        decreases fields.len() - i,
    {
        if field_has_relations(&fields[i]) {
            assert(!(selection->0@[i as int] is Plain));
            return true;
        }
        i += 1;
    }
    false
}

/// A relation joins a child row and a parent row: they hold the same value, not null, in the columns
/// of the relation.
pub open spec fn joins(edge: RelationEdgePlan, child: RowView, parent: RowView) -> bool {
    &&& edge.child_column_index < child.values.len()
    &&& edge.parent_column_index < parent.values.len()
    &&& child.values[edge.child_column_index as int]
        == parent.values[edge.parent_column_index as int]
    &&& child.values[edge.child_column_index as int] != ValueView::Null
}

/// The row that a relation leads to: from a child to its parent, or from a parent to its children.
pub open spec fn followed_row(edge: RelationEdgePlan, child: RowView, parent: RowView) -> RowView {
    match edge.kind {
        RelationEdgeKind::Forward => parent,
        RelationEdgeKind::Reverse => child,
    }
}

/// Some of the changed rows is the given one.
pub open spec fn row_changed(deltas: Seq<DeltaView>, row: RowView) -> bool {
    exists|i: int| 0 <= i < deltas.len() && (#[trigger] deltas[i]).row == row
}

proof fn lemma_edge_keys(
    keys: Map<u64, Set<ValueView>>,
    edges: Seq<RelationEdgePlan>,
    edge_ids: Seq<usize>,
    deltas: Seq<DeltaView>,
    edge: usize,
    value: ValueView,
)
    ensures
        edge_keys_of(with_edge_keys(keys, edges, edge_ids, deltas), edge as u64).contains(value)
            <==> edge_keys_of(keys, edge as u64).contains(value) || (edge_ids.contains(edge)
            && changed_keys(deltas, key_column(edges[edge as int])).contains(value)),
    decreases edge_ids.len(),
{
    if edge_ids.len() > 0 {
        let front = edge_ids.drop_last();
        lemma_edge_keys(keys, edges, front, deltas, edge, value);
        if front.contains(edge) {
            assert(edge_ids[front.index_of(edge)] == edge);
        }
        if edge_ids.contains(edge) && edge != edge_ids.last() {
            assert(front[edge_ids.index_of(edge)] == edge);
        }
        if edge == edge_ids.last() {
            assert(edge_ids[edge_ids.len() - 1] == edge);
        }
    }
}

/// A child row and a parent row that a relation joins have their common value among the changed
/// keys of the relation if the row that the relation leads to changed. Keys that changed before
/// stay.
pub proof fn law_joined_rows_share_a_changed_key(
    keys: Map<u64, Set<ValueView>>,
    edges: Seq<RelationEdgePlan>,
    edge_ids: Seq<usize>,
    deltas: Seq<DeltaView>,
    edge: usize,
    child: RowView,
    parent: RowView,
)
    requires
        edge_ids.contains(edge),
        edge < edges.len(),
        joins(edges[edge as int], child, parent),
        row_changed(deltas, followed_row(edges[edge as int], child, parent)),
    ensures
        edge_keys_of(with_edge_keys(keys, edges, edge_ids, deltas), edge as u64).contains(
            child.values[edges[edge as int].child_column_index as int],
        ),
        edge_keys_of(with_edge_keys(keys, edges, edge_ids, deltas), edge as u64).contains(
            parent.values[edges[edge as int].parent_column_index as int],
        ),
        edge_keys_of(keys, edge as u64).subset_of(
            edge_keys_of(with_edge_keys(keys, edges, edge_ids, deltas), edge as u64),
        ),
{
    let plan = edges[edge as int];
    let value = child.values[plan.child_column_index as int];
    let row = followed_row(plan, child, parent);
    let i = choose|i: int| 0 <= i < deltas.len() && (#[trigger] deltas[i]).row == row;
    assert(deltas[i].row.values[key_column(plan) as int] == value);
    lemma_edge_keys(keys, edges, edge_ids, deltas, edge, value);
    assert forall|old: ValueView| #[trigger] edge_keys_of(keys, edge as u64).contains(old) implies edge_keys_of(
        with_edge_keys(keys, edges, edge_ids, deltas),
        edge as u64,
    ).contains(old) by {
        lemma_edge_keys(keys, edges, edge_ids, deltas, edge, old);
    }
}

/// A key that was not among the changed keys of a relation becomes one only by a changed row: for
/// each row that it joins to that one it is their common value. Null is never one of them, and a
/// relation that is not named keeps its keys.
pub proof fn law_changed_keys_come_from_changed_rows(
    keys: Map<u64, Set<ValueView>>,
    edges: Seq<RelationEdgePlan>,
    edge_ids: Seq<usize>,
    deltas: Seq<DeltaView>,
    edge: usize,
    value: ValueView,
) -> (row: RowView)
    requires
        edge < edges.len(),
        edge_keys_of(with_edge_keys(keys, edges, edge_ids, deltas), edge as u64).contains(value),
        !edge_keys_of(keys, edge as u64).contains(value),
    ensures
        edge_ids.contains(edge),
        value != ValueView::Null,
        row_changed(deltas, row),
        edges[edge as int].kind is Forward ==> (forall|child: RowView| #[trigger]
            joins(edges[edge as int], child, row)
                <==> edges[edge as int].child_column_index < child.values.len()
                && child.values[edges[edge as int].child_column_index as int] == value),
        edges[edge as int].kind is Reverse ==> (forall|parent: RowView| #[trigger]
            joins(edges[edge as int], row, parent)
                <==> edges[edge as int].parent_column_index < parent.values.len()
                && parent.values[edges[edge as int].parent_column_index as int] == value),
{
    lemma_edge_keys(keys, edges, edge_ids, deltas, edge, value);
    let column = key_column(edges[edge as int]);
    let i = choose|i: int|
        0 <= i < deltas.len() && column < (#[trigger] deltas[i]).row.values.len()
            && deltas[i].row.values[column as int] == value;
    deltas[i].row
}

/// Changed rows of a table invalidate what joined them: of every pair of rows that a relation of the
/// table joins and of which the followed row changed, the common value is among the invalidated
/// keys. The table is named as changed, with the identifiers of its changed rows. Without a name of
/// the table everything is built anew.
pub proof fn law_changed_rows_invalidate_joined_rows(
    plan: GraphqlBatchPlan,
    names: Map<u64, Seq<char>>,
    table: u64,
    deltas: Seq<DeltaView>,
    root_changed: bool,
    edge: usize,
    child: RowView,
    parent: RowView,
)
    ensures
        delta_invalidation(plan, names, table, deltas, root_changed) is Some
            <==> names.dom().contains(table),
        delta_invalidation(plan, names, table, deltas, root_changed) matches Some(invalid) ==> {
            &&& invalid.root_changed == root_changed
            &&& invalid.changed_tables.contains(names[table])
            &&& invalid.dirty_table_rows.dom().contains(names[table])
            &&& row_changed(deltas, child) ==> invalid.dirty_table_rows[names[table]].contains(
                child.id,
            )
            &&& plan.table_edges(names[table]).contains(edge) && edge < plan.edges@.len() && joins(
                plan.edges@[edge as int],
                child,
                parent,
            ) && row_changed(deltas, followed_row(plan.edges@[edge as int], child, parent))
                ==> edge_keys_of(invalid.dirty_edge_keys, edge as u64).contains(
                child.values[plan.edges@[edge as int].child_column_index as int],
            )
        },
{
    if names.dom().contains(table) {
        let invalid = delta_invalidation(plan, names, table, deltas, root_changed)->0;
        assert(invalid.changed_tables[0] == names[table]);
        if row_changed(deltas, child) {
            let i = choose|i: int| 0 <= i < deltas.len() && (#[trigger] deltas[i]).row == child;
            let ids = deltas.map_values(|delta: DeltaView| delta.row.id);
            assert(ids[i] == child.id);
            assert(ids.contains(child.id));
        }
        if plan.table_edges(names[table]).contains(edge) && edge < plan.edges@.len() && joins(
            plan.edges@[edge as int],
            child,
            parent,
        ) && row_changed(deltas, followed_row(plan.edges@[edge as int], child, parent)) {
            law_joined_rows_share_a_changed_key(
                Map::empty(),
                plan.edges@,
                plan.table_edges(names[table]),
                deltas,
                edge,
                child,
                parent,
            );
        }
    }
}

/// Changes of tables invalidate what joined the changed rows. A table whose changed rows are known
/// has the common value of every joined pair, of which the followed row changed, among the
/// invalidated keys; a table whose changed rows are not known is named as changed. Everything is
/// built anew only if a changed table has no name.
pub proof fn law_changed_tables_invalidate_joined_rows(
    plan: GraphqlBatchPlan,
    names: Map<u64, Seq<char>>,
    changes: Map<u64, Set<u64>>,
    tables: Seq<u64>,
    deltas: Map<u64, Seq<DeltaView>>,
    root_changed: bool,
    dirty_root_rows: Set<u64>,
    at: int,
    edge: usize,
    child: RowView,
    parent: RowView,
)
    requires
        0 <= at < tables.len(),
    ensures
        !names.dom().contains(tables[at]) ==> snapshot_invalidation(
            plan,
            names,
            changes,
            tables,
            deltas,
            root_changed,
            dirty_root_rows,
        ) is None,
        (forall|i: int| 0 <= i < tables.len() ==> names.dom().contains(#[trigger] tables[i]))
            ==> snapshot_invalidation(
            plan,
            names,
            changes,
            tables,
            deltas,
            root_changed,
            dirty_root_rows,
        ) is Some,
        snapshot_invalidation(
            plan,
            names,
            changes,
            tables,
            deltas,
            root_changed,
            dirty_root_rows,
        ) matches Some(invalid) ==> {
            &&& invalid.root_changed == root_changed
            &&& invalid.dirty_root_rows == dirty_root_rows
            &&& known_deltas(deltas, tables[at]).len() == 0 ==> invalid.changed_tables.contains(
                names[tables[at]],
            )
            &&& invalid.dirty_table_rows.dom().contains(names[tables[at]])
            &&& (forall|i: int|
                at < i < tables.len() ==> names[#[trigger] tables[i]] != names[tables[at]])
                ==> invalid.dirty_table_rows[names[tables[at]]] == changes[tables[at]]
            &&& known_deltas(deltas, tables[at]).len() > 0 && plan.table_edges(
                names[tables[at]],
            ).contains(edge) && edge < plan.edges@.len() && joins(
                plan.edges@[edge as int],
                child,
                parent,
            ) && row_changed(
                known_deltas(deltas, tables[at]),
                followed_row(plan.edges@[edge as int], child, parent),
            ) ==> edge_keys_of(invalid.dirty_edge_keys, edge as u64).contains(
                child.values[plan.edges@[edge as int].child_column_index as int],
            )
        },
    decreases tables.len(),
{
    let front = tables.drop_last();
    let last = tables.len() - 1;
    let before = snapshot_invalidation(
        plan,
        names,
        changes,
        front,
        deltas,
        root_changed,
        dirty_root_rows,
    );
    if front.len() > 0 {
        let earlier: int = if at < last { at } else { 0 };
        assert(forall|i: int| 0 <= i < last ==> front[i] == tables[i]);
        law_changed_tables_invalidate_joined_rows(
            plan,
            names,
            changes,
            front,
            deltas,
            root_changed,
            dirty_root_rows,
            earlier,
            edge,
            child,
            parent,
        );
    }
    if before is Some && names.dom().contains(tables[last]) {
        let invalid = snapshot_invalidation(
            plan,
            names,
            changes,
            tables,
            deltas,
            root_changed,
            dirty_root_rows,
        )->0;
        let rows = known_deltas(deltas, tables[last]);
        let edge_ids = if rows.len() > 0 {
            plan.table_edges(names[tables[last]])
        } else {
            Seq::empty()
        };
        if at < last {
            if before->0.changed_tables.contains(names[tables[at]]) {
                let k = before->0.changed_tables.index_of(names[tables[at]]);
                assert(invalid.changed_tables[k] == names[tables[at]]);
            }
            let value = child.values[plan.edges@[edge as int].child_column_index as int];
            lemma_edge_keys(
                before->0.dirty_edge_keys,
                plan.edges@,
                edge_ids,
                rows,
                edge,
                value,
            );
        } else {
            if rows.len() == 0 {
                assert(invalid.changed_tables.last() == names[tables[at]]);
            }
            if rows.len() > 0 && edge_ids.contains(edge) && edge < plan.edges@.len() && joins(
                plan.edges@[edge as int],
                child,
                parent,
            ) && row_changed(rows, followed_row(plan.edges@[edge as int], child, parent)) {
                law_joined_rows_share_a_changed_key(
                    before->0.dirty_edge_keys,
                    plan.edges@,
                    edge_ids,
                    rows,
                    edge,
                    child,
                    parent,
                );
            }
        }
    }
}

/// The identifiers of the changed rows that were added, or of those that were dropped, in order.
spec fn ids_with(deltas: Seq<DeltaView>, added: bool) -> Seq<u64>
    decreases deltas.len(),
{
    if deltas.len() == 0 {
        Seq::empty()
    } else {
        let before = ids_with(deltas.drop_last(), added);
        if (deltas.last().diff > 0) == added {
            before.push(deltas.last().row.id)
        } else {
            before
        }
    }
}

proof fn lemma_ids_with(deltas: Seq<DeltaView>, added: bool, i: int, j: int)
    ensures
        ids_with(deltas, true).len() + ids_with(deltas, false).len() == deltas.len(),
        0 <= i < deltas.len() && (deltas[i].diff > 0) == added ==> ids_with(
            deltas,
            added,
        ).contains(deltas[i].row.id),
        0 <= i < j < deltas.len() && (deltas[i].diff > 0) == added && (deltas[j].diff > 0) == added
            && deltas[i].row.id == deltas[j].row.id ==> !ids_with(deltas, added).no_duplicates(),
        forall|id: u64| #[trigger]
            ids_with(deltas, added).contains(id) ==> (if added {
                inserted_ids(deltas).contains(id)
            } else {
                deleted_ids(deltas).contains(id)
            }),
    decreases deltas.len(),
{
    if deltas.len() > 0 {
        let front = deltas.drop_last();
        let last = deltas.len() - 1;
        lemma_ids_with(front, added, i, j);
        assert(forall|k: int| 0 <= k < last ==> front[k] == deltas[k]);
        assert(deltas[last] == deltas.last());
        let before = ids_with(front, added);
        let all = ids_with(deltas, added);
        if (deltas.last().diff > 0) == added {
            assert(all[before.len() as int] == deltas.last().row.id);
            if 0 <= i < last && (deltas[i].diff > 0) == added {
                let k = before.index_of(deltas[i].row.id);
                assert(all[k] == deltas[i].row.id);
                if j == last && deltas[i].row.id == deltas[j].row.id {
                    assert(all[k] == all[before.len() as int]);
                    assert(!all.no_duplicates());
                }
            }
            if all.no_duplicates() {
                assert(before.no_duplicates()) by {
                    assert forall|a: int, b: int|
                        0 <= a < before.len() && 0 <= b < before.len() && a != b implies before[a]
                        != before[b] by {
                        assert(all[a] == before[a] && all[b] == before[b]);
                    }
                }
            }
        }
        assert forall|id: u64| #[trigger] all.contains(id) implies (if added {
            inserted_ids(deltas).contains(id)
        } else {
            deleted_ids(deltas).contains(id)
        }) by {
            if before.contains(id) {
                if added {
                    let k = choose|k: int|
                        0 <= k < front.len() && (#[trigger] front[k]).diff > 0 && front[k].row.id
                            == id;
                    assert(deltas[k].diff > 0);
                } else {
                    let k = choose|k: int|
                        0 <= k < front.len() && (#[trigger] front[k]).diff <= 0 && front[k].row.id
                            == id;
                    assert(deltas[k].diff <= 0);
                }
            } else {
                let k = all.index_of(id);
                if k < before.len() {
                    assert(before[k] == id);
                }
                assert(deltas[last].row.id == id);
            }
        }
    }
}

/// Where changed rows leave every row at its position, each row that was dropped was added again and
/// each that was added was dropped, and no row was added or dropped twice.
pub proof fn law_kept_positions_replace_rows(deltas: Seq<DeltaView>, i: int, j: int)
    requires
        keeps_positions(deltas),
        0 <= i < deltas.len(),
    ensures
        deltas[i].diff > 0 ==> exists|k: int|
            0 <= k < deltas.len() && (#[trigger] deltas[k]).diff <= 0 && deltas[k].row.id
                == deltas[i].row.id,
        deltas[i].diff <= 0 ==> exists|k: int|
            0 <= k < deltas.len() && (#[trigger] deltas[k]).diff > 0 && deltas[k].row.id
                == deltas[i].row.id,
        i < j < deltas.len() && (deltas[i].diff > 0 <==> deltas[j].diff > 0) ==> deltas[i].row.id
            != deltas[j].row.id,
{
    let id = deltas[i].row.id;
    if deltas[i].diff > 0 {
        assert(inserted_ids(deltas).contains(id));
        assert(deleted_ids(deltas).contains(id));
    } else {
        assert(deleted_ids(deltas).contains(id));
        assert(inserted_ids(deltas).contains(id));
    }
    if i < j < deltas.len() && (deltas[i].diff > 0 <==> deltas[j].diff > 0) {
        let added = deltas[i].diff > 0;
        lemma_ids_with(deltas, added, i, j);
        lemma_ids_cover(deltas, true);
        lemma_ids_cover(deltas, false);
        ids_with(deltas, true).lemma_cardinality_of_set();
        ids_with(deltas, false).lemma_cardinality_of_set();
        ids_with(deltas, added).lemma_no_dup_set_cardinality();
    }
}

proof fn lemma_ids_cover(deltas: Seq<DeltaView>, added: bool)
    ensures
        ids_with(deltas, added).to_set() == (if added {
            inserted_ids(deltas)
        } else {
            deleted_ids(deltas)
        }),
{
    let ids = ids_with(deltas, added);
    let expected = if added {
        inserted_ids(deltas)
    } else {
        deleted_ids(deltas)
    };
    assert forall|id: u64| ids.to_set().contains(id) <==> expected.contains(id) by {
        lemma_ids_with(deltas, added, 0, 0);
        if expected.contains(id) {
            let k = if added {
                choose|k: int|
                    0 <= k < deltas.len() && (#[trigger] deltas[k]).diff > 0 && deltas[k].row.id
                        == id
            } else {
                choose|k: int|
                    0 <= k < deltas.len() && (#[trigger] deltas[k]).diff <= 0 && deltas[k].row.id
                        == id
            };
            lemma_ids_with(deltas, added, k, k);
        }
    }
    assert(ids.to_set() =~= expected);
}

/// Rows that are dropped and added again, one by one, stay at their positions.
pub proof fn law_replaced_rows_keep_positions(old: Seq<RowView>, deltas: Seq<DeltaView>)
    requires
        deltas.len() == 2 * old.len(),
        forall|i: int, j: int| 0 <= i < j < old.len() ==> old[i].id != old[j].id,
        forall|i: int|
            0 <= i < old.len() ==> deltas[2 * i].row.id == (#[trigger] old[i]).id && deltas[2
                * i].diff <= 0 && deltas[2 * i + 1].row.id == old[i].id && deltas[2 * i + 1].diff > 0,
    ensures
        keeps_positions(deltas),
{
    let ids = old.map_values(|row: RowView| row.id);
    assert(ids.no_duplicates());
    ids.unique_seq_to_set();
    assert forall|id: u64| ids.to_set().contains(id) <==> inserted_ids(deltas).contains(id) by {
        if ids.contains(id) {
            let i = ids.index_of(id);
            assert(old[i].id == id);
            assert(deltas[2 * i + 1].row.id == id);
        }
        if inserted_ids(deltas).contains(id) {
            let k = choose|k: int|
                0 <= k < deltas.len() && (#[trigger] deltas[k]).diff > 0 && deltas[k].row.id == id;
            assert(old[k / 2].id == id);
            assert(ids[k / 2] == id);
        }
    }
    assert forall|id: u64| ids.to_set().contains(id) <==> deleted_ids(deltas).contains(id) by {
        if ids.contains(id) {
            let i = ids.index_of(id);
            assert(old[i].id == id);
            assert(deltas[2 * i].row.id == id);
        }
        if deleted_ids(deltas).contains(id) {
            let k = choose|k: int|
                0 <= k < deltas.len() && (#[trigger] deltas[k]).diff <= 0 && deltas[k].row.id == id;
            assert(old[k / 2].id == id);
            assert(ids[k / 2] == id);
        }
    }
    assert(inserted_ids(deltas) =~= ids.to_set());
    assert(deleted_ids(deltas) =~= ids.to_set());
    if old.len() > 0 {
        assert(ids.contains(ids[0]));
        assert(ids.to_set().contains(ids[0]));
    }
}

/// A response is handed on if there was none or it differs. Where it is built in batches, its patch
/// tells: it is handed on if some position was removed, inserted or updated.
pub proof fn law_responses_are_handed_on_when_they_differ(
    batched: bool,
    patch: Option<GraphqlRootListPatch>,
    current: Option<ResponseView>,
    next: ResponseView,
)
    ensures
        !batched || patch is None ==> (response_differs(batched, patch, current, next)
            <==> current is None || current->0 != next),
        batched ==> (patch matches Some(GraphqlRootListPatch::StablePositions(positions)) ==> (
        response_differs(batched, patch, current, next) <==> positions@.len() > 0)),
        batched ==> (patch matches Some(
            GraphqlRootListPatch::Splice {
                removed_positions,
                inserted_positions,
                updated_positions,
            },
        ) ==> (response_differs(batched, patch, current, next) <==> removed_positions@.len()
            + inserted_positions@.len() + updated_positions@.len() > 0)),
{
}

/// A subscriber that leaves, whether it is called or only keeps the query alive, leaves the others. A
/// query is watched as long as one of either kind is left.
pub proof fn law_leaving_keeps_other_graphql_subscribers(
    subscribers: GraphqlSubscribersView,
    id: usize,
    other: usize,
)
    ensures
        ({
            let after = subscribers.without(id);
            &&& other != id ==> (after.callbacks.contains(other)
                <==> subscribers.callbacks.contains(other))
            &&& other != id ==> (after.keepalive_ids.contains(other as u64)
                <==> subscribers.keepalive_ids.contains(other as u64))
            &&& !after.keepalive_ids.contains(id as u64)
            &&& !subscribers.keepalive_ids.contains(id as u64) ==> !after.callbacks.contains(id)
            &&& after.next_sub_id == subscribers.next_sub_id
            &&& subscribers.callbacks.contains(other) || subscribers.keepalive_ids.contains(
                other as u64,
            ) ==> subscribers.is_observed()
            &&& subscribers.callbacks.len() == 0 && subscribers.keepalive_ids.is_empty()
                ==> !subscribers.is_observed()
        }),
{
    law_leaving_keeps_other_subscribers(subscribers.callbacks, id, other);
    law_leaving_keeps_other_subscribers(subscribers.callbacks, id, id);
    if subscribers.keepalive_ids.is_empty() {
        assert(subscribers.keepalive_ids =~= Set::empty());
    }
}

} // verus!
