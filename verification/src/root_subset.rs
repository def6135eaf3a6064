//! Refresh of the root rows that a change affects.
//!
//! A result whose rows come in groups, one group for each root row, is refreshed by running the
//! query on the affected root rows alone. The new groups take the place of the old ones.
use vstd::prelude::*;

use crate::row::{rows_view, Row, RowView};
use crate::tables::{IdTable, RootTable};
use crate::value::{clone_values, values_view, Value, ValueView};

verus! {

/// The values that identify a root row.
pub type RootKey = Seq<ValueView>;

/// The values of the key columns of a row, if the row has all of them.
pub open spec fn root_key(row: RowView, indices: Seq<usize>) -> Option<RootKey> {
    if forall|i: int| 0 <= i < indices.len() ==> #[trigger] indices[i] < row.values.len() {
        Some(Seq::new(indices.len(), |i: int| row.values[indices[i] as int]))
    } else {
        None
    }
}

/// Reads the values of the key columns of a row.
pub fn root_key_of_row(row: &Row, indices: &[usize]) -> (key: Option<Vec<Value>>)
    ensures
        match root_key(row@, indices@) {
            Some(expected) => key is Some && values_view(key->0@) == expected,
            None => key is None,
        },
{
    let mut key: Vec<Value> = Vec::new();
    let mut i: usize = 0;
    while i < indices.len()
        invariant
            i <= indices.len(),
            key.len() == i,
            forall|j: int| 0 <= j < i ==> #[trigger] indices@[j] < row@.values.len(),
            forall|j: int|
                0 <= j < i ==> (#[trigger] key@[j])@ == row@.values[indices@[j] as int],
        decreases indices.len() - i,
    {
        match row.get(indices[i]) {
            Some(value) => {
                key.push(value.clone());
            },
            None => {
                assert(indices@[i as int] >= row@.values.len());
                return None;
            },
        }
        i += 1;
    }
    assert(values_view(key@) =~= root_key(row@, indices@)->0);
    Some(key)
}

/// Rows by key, with the keys in the order in which they first come.
pub struct GroupsView {
    pub order: Seq<RootKey>,
    pub rows: Map<RootKey, Seq<RowView>>,
}

impl GroupsView {
    /// The groups with one more row.
    pub open spec fn with(self, key: RootKey, row: RowView) -> GroupsView {
        if self.rows.dom().contains(key) {
            GroupsView { order: self.order, rows: self.rows.insert(key, self.rows[key].push(row)) }
        } else {
            GroupsView { order: self.order.push(key), rows: self.rows.insert(key, seq![row]) }
        }
    }
}

/// The groups of a list of rows, if each row has a key.
pub open spec fn groups_of(rows: Seq<RowView>, indices: Seq<usize>) -> Option<GroupsView>
    decreases rows.len(),
{
    if rows.len() == 0 {
        Some(GroupsView { order: Seq::empty(), rows: Map::empty() })
    } else {
        match (groups_of(rows.drop_last(), indices), root_key(rows.last(), indices)) {
            (Some(groups), Some(key)) => Some(groups.with(key, rows.last())),
            _ => None,
        }
    }
}

/// The rows of each group stand next to each other: a row whose key came before has the key of
/// the row in front of it.
pub open spec fn contiguous(rows: Seq<RowView>, indices: Seq<usize>) -> bool
    decreases rows.len(),
{
    rows.len() == 0 || (contiguous(rows.drop_last(), indices) && (match groups_of(
        rows.drop_last(),
        indices,
    ) {
        Some(groups) => match root_key(rows.last(), indices) {
            Some(key) => groups.rows.dom().contains(key) ==> root_key(
                rows[rows.len() - 2],
                indices,
            ) == Some(key),
            None => true,
        },
        None => true,
    }))
}

/// Rows in groups.
pub struct RowGroups {
    pub rows: RootTable<Vec<Row>>,
}

/// What the groups of a table hold.
pub open spec fn group_rows_view(rows: Map<RootKey, Vec<Row>>) -> Map<RootKey, Seq<RowView>> {
    rows.map_values(|group: Vec<Row>| rows_view(group@))
}

impl RowGroups {
    /// What the groups hold.
    pub open spec fn view(&self) -> GroupsView {
        GroupsView { order: self.rows.order(), rows: group_rows_view(self.rows@) }
    }

    /// No groups.
    pub fn new() -> (result: Self)
        ensures
            result@ == (GroupsView { order: Seq::empty(), rows: Map::empty() }),
    {
        let result = RowGroups { rows: RootTable::new() };
        assert(result@.rows =~= Map::empty());
        result
    }

    /// Adds a row to the group of a key.
    pub fn push(&mut self, key: Vec<Value>, row: Row)
        ensures
            final(self)@ == old(self)@.with(values_view(key@), row@),
    {
        let ghost before = self@;
        let ghost target = values_view(key@);
        let mut group: Vec<Row> = match self.rows.replace(key.as_slice(), Vec::new()) {
            Some(group) => group,
            None => Vec::new(),
        };
        let ghost rows_before = rows_view(group@);
        group.push(row);
        assert(rows_view(group@) =~= rows_before.push(row@));
        self.rows.insert(key, group);
        proof {
            if before.rows.dom().contains(target) {
                assert(rows_before == before.rows[target]);
            } else {
                assert(rows_before =~= Seq::empty());
                assert(rows_view(group@) =~= seq![row@]);
            }
            assert(self@.rows =~= before.with(target, row@).rows);
        }
    }
}

/// Copies a list of rows.
pub fn clone_rows(rows: &[Row]) -> (result: Vec<Row>)
    ensures
        rows_view(result@) == rows_view(rows@),
{
    let mut result: Vec<Row> = Vec::new();
    let mut i: usize = 0;
    while i < rows.len()
        invariant
            i <= rows.len(),
            result.len() == i,
            forall|j: int| 0 <= j < i ==> (#[trigger] result@[j])@ == rows@[j]@,
        decreases rows.len() - i,
    {
        result.push(rows[i].clone());
        i += 1;
    }
    assert(rows_view(result@) =~= rows_view(rows@));
    result
}

/// The groups of a prefix of a list decide whether the list has groups.
proof fn lemma_groups_prefix(rows: Seq<RowView>, indices: Seq<usize>, k: int)
    requires
        0 <= k <= rows.len(),
        groups_of(rows.take(k), indices) is None,
    ensures
        groups_of(rows, indices) is None,
    decreases rows.len(),
{
    if k == rows.len() {
        assert(rows.take(k) =~= rows);
    } else {
        assert(rows.drop_last().take(k) =~= rows.take(k));
        lemma_groups_prefix(rows.drop_last(), indices, k);
    }
}

/// Groups a list of rows by key.
pub fn group_rows(rows: &[Row], indices: &[usize]) -> (result: Option<RowGroups>)
    ensures
        match groups_of(rows_view(rows@), indices@) {
            Some(groups) => result is Some && result->0@ == groups,
            None => result is None,
        },
{
    let ghost views = rows_view(rows@);
    let mut groups = RowGroups::new();
    let mut i: usize = 0;
    assert(views.take(0) =~= Seq::empty());
    while i < rows.len()
        invariant
            i <= rows.len(),
            views == rows_view(rows@),
            groups_of(views.take(i as int), indices@) == Some(groups@),
        decreases rows.len() - i,
    {
        assert(views.take(i + 1).drop_last() =~= views.take(i as int));
        assert(views.take(i + 1).last() == rows@[i as int]@);
        match root_key_of_row(&rows[i], indices) {
            Some(key) => {
                groups.push(key, rows[i].clone());
            },
            None => {
                proof {
                    lemma_groups_prefix(views, indices@, i + 1);
                }
                return None;
            },
        }
        i += 1;
    }
    assert(views.take(views.len() as int) =~= views);
    Some(groups)
}

/// A set of root keys.
pub struct RootKeySet {
    pub keys: RootTable<()>,
}

impl RootKeySet {
    /// The keys of the set.
    pub open spec fn view(&self) -> Set<RootKey> {
        self.keys@.dom()
    }

    /// A set without keys.
    pub fn new() -> (result: Self)
        ensures
            result@ == Set::<RootKey>::empty(),
    {
        let result = RootKeySet { keys: RootTable::new() };
        assert(result@ =~= Set::<RootKey>::empty());
        result
    }

    /// Adds a key.
    pub fn insert(&mut self, key: Vec<Value>)
        ensures
            final(self)@ == old(self)@.insert(values_view(key@)),
    {
        self.keys.insert(key, ());
        assert(self@ =~= old(self)@.insert(values_view(key@)));
    }

    /// Tells whether a key is in the set.
    pub fn contains(&self, key: &[Value]) -> (found: bool)
        ensures
            found == self@.contains(values_view(key@)),
    {
        self.keys.contains_key(key)
    }

    /// Tells whether the set has no keys.
    pub fn is_empty(&self) -> (empty: bool)
        ensures
            empty == (self@ == Set::<RootKey>::empty()),
    {
        let count = self.keys.len();
        proof {
            if count == 0 {
                assert(self@ =~= Set::<RootKey>::empty());
            } else {
                assert(self.keys.order().to_set().contains(self.keys.order()[0]));
            }
        }
        count == 0
    }
}

/// The root rows that the runtime has seen: the key of each row, and a number for each key in the
/// order in which the keys came.
pub struct RegistryView {
    pub row_keys: Map<u64, RootKey>,
    pub ordinals: Map<RootKey, usize>,
    pub next: nat,
}

impl RegistryView {
    /// A registry without root rows.
    pub open spec fn empty() -> RegistryView {
        RegistryView { row_keys: Map::empty(), ordinals: Map::empty(), next: 0 }
    }

    /// The registry with a root row.
    pub open spec fn with(self, row_id: u64, key: RootKey) -> RegistryView {
        RegistryView {
            row_keys: self.row_keys.insert(row_id, key),
            ordinals: if self.ordinals.dom().contains(key) {
                self.ordinals
            } else {
                self.ordinals.insert(key, self.next as usize)
            },
            next: if self.ordinals.dom().contains(key) {
                self.next
            } else {
                self.next + 1
            },
        }
    }

    /// The registry without a root row. Its key keeps its number.
    pub open spec fn without(self, row_id: u64) -> RegistryView {
        RegistryView { row_keys: self.row_keys.remove(row_id), ..self }
    }

    /// The number of a key; keys that were never seen come last.
    pub open spec fn ordinal(self, key: RootKey) -> usize {
        if self.ordinals.dom().contains(key) {
            self.ordinals[key]
        } else {
            usize::MAX
        }
    }
}

/// The registry of the rows of a table. Rows without all key columns do not count.
pub open spec fn registry_of(rows: Seq<RowView>, indices: Seq<usize>) -> RegistryView
    decreases rows.len(),
{
    if rows.len() == 0 {
        RegistryView::empty()
    } else {
        let before = registry_of(rows.drop_last(), indices);
        match root_key(rows.last(), indices) {
            Some(key) => before.with(rows.last().id, key),
            None => before,
        }
    }
}

/// The root rows that the runtime has seen.
struct RootRegistry {
    row_keys: IdTable<Vec<Value>>,
    ordinals: RootTable<usize>,
}

/// What a table of keys holds.
pub open spec fn keys_view(keys: Map<u64, Vec<Value>>) -> Map<u64, RootKey> {
    keys.map_values(|key: Vec<Value>| values_view(key@))
}

impl RootRegistry {
    spec fn view(&self) -> RegistryView {
        RegistryView {
            row_keys: keys_view(self.row_keys@),
            ordinals: self.ordinals@,
            next: self.ordinals.order().len(),
        }
    }

    fn new() -> (result: Self)
        ensures
            result@ == RegistryView::empty(),
    {
        let result = RootRegistry { row_keys: IdTable::new(), ordinals: RootTable::new() };
        assert(result@.row_keys =~= Map::empty());
        result
    }

    fn register(&mut self, row_id: u64, key: Vec<Value>)
        ensures
            final(self)@ == old(self)@.with(row_id, values_view(key@)),
    {
        let ghost before = self@;
        let ghost target = values_view(key@);
        if !self.ordinals.contains_key(key.as_slice()) {
            let next = self.ordinals.len();
            self.ordinals.insert(clone_values(key.as_slice()), next);
        }
        self.row_keys.insert(row_id, key);
        assert(self@.row_keys =~= before.with(row_id, target).row_keys);
    }

    fn unregister(&mut self, row_id: u64)
        ensures
            final(self)@ == old(self)@.without(row_id),
    {
        let ghost before = self@;
        let _ = self.row_keys.remove(row_id);
        assert(self@.row_keys =~= before.without(row_id).row_keys);
    }

    fn ordinal(&self, key: &[Value]) -> (ordinal: usize)
        ensures
            ordinal == self@.ordinal(values_view(key@)),
    {
        match self.ordinals.get(key) {
            Some(ordinal) => *ordinal,
            None => usize::MAX,
        }
    }
}

/// What a collection of affected keys has come to.
pub struct CollectView {
    pub registry: RegistryView,
    pub affected: Set<RootKey>,
    pub complete: bool,
}

/// Takes one affected root row into account: its old key, and its new key if the old one is
/// unknown or to be refreshed. A row without all key columns ends the collection.
pub open spec fn collect_step(
    state: CollectView,
    row_id: u64,
    row: Option<RowView>,
    refresh_existing: bool,
    indices: Seq<usize>,
) -> CollectView {
    let known = state.registry.row_keys.dom().contains(row_id);
    let affected = if known {
        state.affected.insert(state.registry.row_keys[row_id])
    } else {
        state.affected
    };
    if !state.complete {
        state
    } else if known && !refresh_existing {
        CollectView { affected, ..state }
    } else {
        match row {
            Some(row) => match root_key(row, indices) {
                Some(key) => CollectView {
                    registry: state.registry.with(row_id, key),
                    affected: affected.insert(key),
                    complete: true,
                },
                None => CollectView { complete: false, affected, ..state },
            },
            None => CollectView { registry: state.registry.without(row_id), affected, complete: true },
        }
    }
}

/// Affected root rows: their identifiers, with the rows that are stored under them now.
pub open spec fn affected_view(affected: Seq<(u64, Option<Row>)>) -> Seq<(u64, Option<RowView>)> {
    affected.map_values(
        |entry: (u64, Option<Row>)|
            (
                entry.0,
                match entry.1 {
                    Some(row) => Some(row@),
                    None => None,
                },
            ),
    )
}

/// What collecting the keys of affected root rows comes to.
pub open spec fn collect_all(
    registry: RegistryView,
    affected: Seq<(u64, Option<RowView>)>,
    refresh_existing: bool,
    indices: Seq<usize>,
) -> CollectView
    decreases affected.len(),
{
    if affected.len() == 0 {
        CollectView { registry, affected: Set::empty(), complete: true }
    } else {
        let (row_id, row) = affected.last();
        collect_step(
            collect_all(registry, affected.drop_last(), refresh_existing, indices),
            row_id,
            row,
            refresh_existing,
            indices,
        )
    }
}

proof fn lemma_collect_prefix(
    registry: RegistryView,
    affected: Seq<(u64, Option<RowView>)>,
    refresh_existing: bool,
    indices: Seq<usize>,
    k: int,
)
    requires
        0 <= k <= affected.len(),
        !collect_all(registry, affected.take(k), refresh_existing, indices).complete,
    ensures
        collect_all(registry, affected, refresh_existing, indices) == collect_all(
            registry,
            affected.take(k),
            refresh_existing,
            indices,
        ),
    decreases affected.len(),
{
    if k == affected.len() {
        assert(affected.take(k) =~= affected);
    } else {
        assert(affected.drop_last().take(k) =~= affected.take(k));
        lemma_collect_prefix(registry, affected.drop_last(), refresh_existing, indices, k);
    }
}

/// The visible keys after a refresh of the affected ones: those that are not affected, and those
/// that still have rows. `groups` are the new groups that no visible key has taken yet.
pub open spec fn kept_keys(visible: Seq<RootKey>, affected: Set<RootKey>, groups: Set<RootKey>) -> Seq<
    RootKey,
>
    decreases visible.len(),
{
    if visible.len() == 0 {
        Seq::empty()
    } else if !affected.contains(visible[0]) {
        seq![visible[0]] + kept_keys(visible.skip(1), affected, groups)
    } else if groups.contains(visible[0]) {
        seq![visible[0]] + kept_keys(visible.skip(1), affected, groups.remove(visible[0]))
    } else {
        kept_keys(visible.skip(1), affected, groups)
    }
}

/// The keys of new groups in ascending order of their numbers; keys of equal number keep their
/// order.
pub open spec fn by_ordinal(keys: Seq<RootKey>, registry: RegistryView) -> Seq<RootKey>
    decreases keys.len(),
{
    if keys.len() == 0 {
        Seq::empty()
    } else {
        let sorted = by_ordinal(keys.drop_last(), registry);
        let at = insert_position(sorted, registry.ordinal(keys.last()), registry);
        sorted.insert(at, keys.last())
    }
}

/// Where a key of the given number goes: in front of the first one of a larger number.
pub open spec fn insert_position(sorted: Seq<RootKey>, ordinal: usize, registry: RegistryView) -> int
    decreases sorted.len(),
{
    if sorted.len() == 0 {
        0
    } else if registry.ordinal(sorted[0]) > ordinal {
        0
    } else {
        1 + insert_position(sorted.skip(1), ordinal, registry)
    }
}

/// Two lists of keys merged by their numbers; of keys of equal number those of the first list
/// come first.
pub open spec fn merged_keys(
    existing: Seq<RootKey>,
    added: Seq<RootKey>,
    registry: RegistryView,
) -> Seq<RootKey>
    decreases existing.len() + added.len(),
{
    if added.len() == 0 {
        existing
    } else if existing.len() > 0 && registry.ordinal(existing[0]) <= registry.ordinal(added[0]) {
        seq![existing[0]] + merged_keys(existing.skip(1), added, registry)
    } else {
        seq![added[0]] + merged_keys(existing, added.skip(1), registry)
    }
}

/// The rows of the groups, in the order of the keys.
pub open spec fn flattened(order: Seq<RootKey>, rows: Map<RootKey, Seq<RowView>>) -> Seq<RowView>
    decreases order.len(),
{
    if order.len() == 0 {
        Seq::empty()
    } else {
        let before = flattened(order.drop_last(), rows);
        if rows.dom().contains(order.last()) {
            before + rows[order.last()]
        } else {
            before
        }
    }
}

/// The groups after those of the affected keys were computed anew: a new group takes the place of
/// an old one, and an affected key without a new group has none.
pub open spec fn stored_groups(
    rows: Map<RootKey, Seq<RowView>>,
    affected: Set<RootKey>,
    groups: GroupsView,
) -> Map<RootKey, Seq<RowView>> {
    Map::new(
        |key: RootKey|
            groups.rows.dom().contains(key) || (rows.dom().contains(key) && !affected.contains(key)),
        |key: RootKey|
            if groups.rows.dom().contains(key) {
                groups.rows[key]
            } else {
                rows[key]
            },
    )
}

/// What the runtime knows.
pub struct RuntimeView {
    pub store_indices: Seq<usize>,
    pub output_indices: Seq<usize>,
    pub registry: RegistryView,
    pub rows: Map<RootKey, Seq<RowView>>,
    pub visible: Seq<RootKey>,
}

impl RuntimeView {
    /// The rows of the result.
    pub open spec fn result(self) -> Seq<RowView> {
        flattened(self.visible, self.rows)
    }

    /// The new groups that no visible affected key takes.
    pub open spec fn added_keys(self, affected: Set<RootKey>, groups: GroupsView) -> Seq<RootKey> {
        groups.order.filter(
            |key: RootKey| !(affected.contains(key) && self.visible.contains(key)),
        )
    }

    /// What the runtime knows after the groups of the affected keys were computed anew.
    pub open spec fn refreshed(self, affected: Set<RootKey>, groups: GroupsView) -> RuntimeView {
        RuntimeView {
            rows: stored_groups(self.rows, affected, groups),
            visible: merged_keys(
                kept_keys(self.visible, affected, groups.rows.dom()),
                by_ordinal(self.added_keys(affected, groups), self.registry),
                self.registry,
            ),
            ..self
        }
    }
}

/// The keys of a list.
pub open spec fn key_list_view(keys: Seq<Vec<Value>>) -> Seq<RootKey> {
    keys.map_values(|key: Vec<Value>| values_view(key@))
}

/// Keeps the groups of a result by root row.
pub struct RootSubsetRefreshRuntime {
    store_indices: Vec<usize>,
    output_indices: Vec<usize>,
    registry: RootRegistry,
    rows: RootTable<Vec<Row>>,
    visible: Vec<Vec<Value>>,
}

impl RootSubsetRefreshRuntime {
    /// What the runtime knows.
    pub closed spec fn view(&self) -> RuntimeView {
        RuntimeView {
            store_indices: self.store_indices@,
            output_indices: self.output_indices@,
            registry: self.registry@,
            rows: group_rows_view(self.rows@),
            visible: key_list_view(self.visible@),
        }
    }

    /// Starts with the rows of the root table, in the order in which the table hands them out,
    /// and with a result. There is no runtime for a result with a row without all key columns,
    /// nor for one with a group whose rows do not stand next to each other.
    pub fn new(
        store_indices: Vec<usize>,
        output_indices: Vec<usize>,
        store_rows: &[Row],
        initial_rows: &[Row],
    ) -> (result: Option<Self>)
        ensures
            result is Some <==> groups_of(rows_view(initial_rows@), output_indices@) is Some
                && contiguous(rows_view(initial_rows@), output_indices@),
            result matches Some(runtime) ==> runtime@ == (RuntimeView {
                store_indices: store_indices@,
                output_indices: output_indices@,
                registry: registry_of(rows_view(store_rows@), store_indices@),
                rows: groups_of(rows_view(initial_rows@), output_indices@)->0.rows,
                visible: groups_of(rows_view(initial_rows@), output_indices@)->0.order,
            }),
    {
        let ghost store_views = rows_view(store_rows@);
        let mut registry = RootRegistry::new();
        let mut i: usize = 0;
        assert(store_views.take(0) =~= Seq::empty());
        while i < store_rows.len()
            invariant
                i <= store_rows.len(),
                store_views == rows_view(store_rows@),
                registry@ == registry_of(store_views.take(i as int), store_indices@),
            decreases store_rows.len() - i,
        {
            assert(store_views.take(i + 1).drop_last() =~= store_views.take(i as int));
            assert(store_views.take(i + 1).last() == store_rows@[i as int]@);
            if let Some(key) = root_key_of_row(&store_rows[i], store_indices.as_slice()) {
                registry.register(store_rows[i].id(), key);
            }
            i += 1;
        }
        assert(store_views.take(store_views.len() as int) =~= store_views);

        let ghost views = rows_view(initial_rows@);
        let mut groups = RowGroups::new();
        let mut last_key: Option<Vec<Value>> = None;
        let mut k: usize = 0;
        assert(views.take(0) =~= Seq::empty());
        while k < initial_rows.len()
            invariant
                k <= initial_rows.len(),
                views == rows_view(initial_rows@),
                groups_of(views.take(k as int), output_indices@) == Some(groups@),
                contiguous(views.take(k as int), output_indices@),
                match last_key {
                    Some(key) => k > 0 && root_key(views[k - 1], output_indices@) == Some(
                        values_view(key@),
                    ),
                    None => k == 0,
                },
            decreases initial_rows.len() - k,
        {
            let ghost shorter = views.take(k as int);
            let ghost longer = views.take(k + 1);
            assert(longer.drop_last() =~= shorter);
            assert(longer.last() == initial_rows@[k as int]@);
            let key = match root_key_of_row(&initial_rows[k], output_indices.as_slice()) {
                Some(key) => key,
                None => {
                    proof {
                        lemma_groups_prefix(views, output_indices@, k + 1);
                    }
                    return None;
                },
            };
            let repeats = match &last_key {
                Some(last) => crate::value::same_values(last.as_slice(), key.as_slice()),
                None => false,
            };
            assert(k > 0 ==> longer[longer.len() - 2] == views[k - 1]);
            if !repeats && groups.rows.contains_key(key.as_slice()) {
                proof {
                    assert(groups@.rows.dom().contains(values_view(key@)));
                    if k == 0 {
                        assert(shorter =~= Seq::empty());
                    }
                    lemma_contiguous_prefix(views, output_indices@, k + 1);
                }
                return None;
            }
            groups.push(clone_values(key.as_slice()), initial_rows[k].clone());
            last_key = Some(key);
            k += 1;
        }
        assert(views.take(views.len() as int) =~= views);

        let mut visible: Vec<Vec<Value>> = Vec::new();
        let count = groups.rows.len();
        let mut at: usize = 0;
        while at < count
            invariant
                at <= count,
                count == groups.rows.order().len(),
                visible.len() == at,
                forall|j: int|
                    0 <= j < at ==> values_view((#[trigger] visible@[j])@)
                        == groups.rows.order()[j],
            decreases count - at,
        {
            visible.push(clone_values(groups.rows.key_at(at).as_slice()));
            at += 1;
        }
        assert(key_list_view(visible@) =~= groups.rows.order());
        Some(
            RootSubsetRefreshRuntime {
                store_indices,
                output_indices,
                registry,
                rows: groups.rows,
                visible,
            },
        )
    }

    /// Collects the keys of the affected root rows, given with the rows that are stored under
    /// their identifiers now. Without `refresh_existing` the key of a known row is taken as it
    /// is.
    pub fn collect_affected_root_keys(
        &mut self,
        affected: &[(u64, Option<Row>)],
        refresh_existing: bool,
    ) -> (keys: Option<RootKeySet>)
        ensures
            ({
                let outcome = collect_all(
                    old(self)@.registry,
                    affected_view(affected@),
                    refresh_existing,
                    old(self)@.store_indices,
                );
                &&& final(self)@ == (RuntimeView { registry: outcome.registry, ..old(self)@ })
                &&& keys is Some <==> outcome.complete
                &&& keys matches Some(keys) ==> keys@ == outcome.affected
            }),
    {
        let ghost start = self@;
        let ghost entries = affected_view(affected@);
        let mut keys = RootKeySet::new();
        let mut i: usize = 0;
        assert(entries.take(0) =~= Seq::empty());
        while i < affected.len()
            invariant
                i <= affected.len(),
                entries == affected_view(affected@),
                start == old(self)@,
                self@ == (RuntimeView { registry: self@.registry, ..start }),
                collect_all(
                    start.registry,
                    entries.take(i as int),
                    refresh_existing,
                    start.store_indices,
                ) == (CollectView {
                    registry: self@.registry,
                    affected: keys@,
                    complete: true,
                }),
            decreases affected.len() - i,
        {
            assert(entries.take(i + 1).drop_last() =~= entries.take(i as int));
            assert(entries.take(i + 1).last() == entries[i as int]);
            let row_id = affected[i].0;
            let known = match self.registry.row_keys.get(row_id) {
                Some(existing) => {
                    keys.insert(clone_values(existing.as_slice()));
                    true
                },
                None => false,
            };
            if !known || refresh_existing {
                match &affected[i].1 {
                    Some(row) => match root_key_of_row(row, self.store_indices.as_slice()) {
                        Some(key) => {
                            keys.insert(clone_values(key.as_slice()));
                            self.registry.register(row_id, key);
                        },
                        None => {
                            proof {
                                lemma_collect_prefix(
                                    start.registry,
                                    entries,
                                    refresh_existing,
                                    start.store_indices,
                                    i + 1,
                                );
                            }
                            return None;
                        },
                    },
                    None => {
                        self.registry.unregister(row_id);
                    },
                }
            }
            i += 1;
        }
        assert(entries.take(entries.len() as int) =~= entries);
        Some(keys)
    }
}

proof fn lemma_contiguous_prefix(rows: Seq<RowView>, indices: Seq<usize>, k: int)
    requires
        0 <= k <= rows.len(),
        !contiguous(rows.take(k), indices),
    ensures
        !contiguous(rows, indices),
    decreases rows.len(),
{
    if k == rows.len() {
        assert(rows.take(k) =~= rows);
    } else {
        assert(rows.drop_last().take(k) =~= rows.take(k));
        lemma_contiguous_prefix(rows.drop_last(), indices, k);
    }
}

/// Lists the visible keys that stay, and collects the affected ones among them.
fn keep_visible(visible: &[Vec<Value>], affected: &RootKeySet, groups: &RowGroups) -> (result: (
    Vec<Vec<Value>>,
    RootKeySet,
))
    ensures
        key_list_view(result.0@) == kept_keys(
            key_list_view(visible@),
            affected@,
            groups@.rows.dom(),
        ),
        forall|key: RootKey| #[trigger]
            result.1@.contains(key) <==> groups@.rows.dom().contains(key) && affected@.contains(key)
                && key_list_view(visible@).contains(key),
{
    let ghost keys = key_list_view(visible@);
    let ghost all = groups@.rows.dom();
    let ghost mut remaining = all;
    let mut kept: Vec<Vec<Value>> = Vec::new();
    let mut taken = RootKeySet::new();
    let mut i: usize = 0;
    assert(keys.skip(0) =~= keys);
    assert(key_list_view(kept@) + kept_keys(keys, affected@, all) =~= kept_keys(
        keys,
        affected@,
        all,
    ));
    while i < visible.len()
        invariant
            i <= visible.len(),
            keys == key_list_view(visible@),
            all == groups@.rows.dom(),
            key_list_view(kept@) + kept_keys(keys.skip(i as int), affected@, remaining)
                == kept_keys(keys, affected@, all),
            remaining == all.difference(taken@),
            forall|key: RootKey| #[trigger]
                taken@.contains(key) <==> all.contains(key) && affected@.contains(key)
                    && keys.take(i as int).contains(key),
        decreases visible.len() - i,
    {
        let ghost rest = keys.skip(i as int);
        let ghost key = values_view(visible@[i as int]@);
        let ghost kept_before = key_list_view(kept@);
        let ghost taken_before = taken@;
        assert(rest[0] == key);
        assert(rest.skip(1) =~= keys.skip(i + 1));
        proof {
            let shorter = keys.take(i as int);
            let longer = keys.take(i + 1);
            assert forall|other: RootKey| longer.contains(other) <==> (shorter.contains(other)
                || other == key) by {
                if shorter.contains(other) {
                    let k = choose|k: int| 0 <= k < shorter.len() && shorter[k] == other;
                    assert(longer[k] == other);
                }
                assert(longer[i as int] == key);
                if longer.contains(other) {
                    let k = choose|k: int| 0 <= k < longer.len() && longer[k] == other;
                    if k < i {
                        assert(shorter[k] == other);
                    }
                }
            }
        }
        if !affected.contains(visible[i].as_slice()) {
            kept.push(clone_values(visible[i].as_slice()));
            proof {
                assert(key_list_view(kept@) =~= kept_before.push(key));
                assert(kept_before + (seq![key] + kept_keys(rest.skip(1), affected@, remaining))
                    =~= key_list_view(kept@) + kept_keys(rest.skip(1), affected@, remaining));
            }
        } else if groups.rows.contains_key(visible[i].as_slice()) && !taken.contains(
            visible[i].as_slice(),
        ) {
            kept.push(clone_values(visible[i].as_slice()));
            taken.insert(clone_values(visible[i].as_slice()));
            proof {
                assert(key_list_view(kept@) =~= kept_before.push(key));
                assert(all.difference(taken@) =~= remaining.remove(key));
                assert(kept_before + (seq![key] + kept_keys(
                    rest.skip(1),
                    affected@,
                    remaining.remove(key),
                )) =~= key_list_view(kept@) + kept_keys(
                    rest.skip(1),
                    affected@,
                    remaining.remove(key),
                ));
                remaining = remaining.remove(key);
            }
        }
        i += 1;
    }
    proof {
        assert(keys.take(keys.len() as int) =~= keys);
        assert(key_list_view(kept@) + Seq::<RootKey>::empty() =~= key_list_view(kept@));
    }
    (kept, taken)
}

impl RootRegistry {
    /// Puts a key behind the last one of a number that is not larger.
    fn insert_by_ordinal(&self, sorted: &mut Vec<Vec<Value>>, key: Vec<Value>)
        ensures
            ({
                let before = key_list_view(old(sorted)@);
                let target = values_view(key@);
                key_list_view(final(sorted)@) == before.insert(
                    insert_position(before, self@.ordinal(target), self@),
                    target,
                )
            }),
    {
        let ghost before = key_list_view(sorted@);
        let ghost target = values_view(key@);
        let ordinal = self.ordinal(key.as_slice());
        let mut at: usize = 0;
        assert(before.skip(0) =~= before);
        while at < sorted.len() && self.ordinal(sorted[at].as_slice()) <= ordinal
            invariant
                at <= sorted.len(),
                before == key_list_view(sorted@),
                insert_position(before, ordinal, self@) == at + insert_position(
                    before.skip(at as int),
                    ordinal,
                    self@,
                ),
            decreases sorted.len() - at,
        {
            assert(before.skip(at as int)[0] == before[at as int]);
            assert(before.skip(at as int).skip(1) =~= before.skip(at + 1));
            at += 1;
        }
        assert(at < sorted.len() ==> before.skip(at as int)[0] == before[at as int]);
        sorted.insert(at, key);
        assert(key_list_view(sorted@) =~= before.insert(at as int, target));
    }

    /// Merges two lists of keys by their numbers.
    fn merge_keys(&self, existing: &[Vec<Value>], added: &[Vec<Value>]) -> (merged: Vec<Vec<Value>>)
        ensures
            key_list_view(merged@) == merged_keys(
                key_list_view(existing@),
                key_list_view(added@),
                self@,
            ),
    {
        let ghost left = key_list_view(existing@);
        let ghost right = key_list_view(added@);
        let mut merged: Vec<Vec<Value>> = Vec::new();
        let mut i: usize = 0;
        let mut j: usize = 0;
        assert(left.skip(0) =~= left);
        assert(right.skip(0) =~= right);
        assert(key_list_view(merged@) + merged_keys(left, right, self@) =~= merged_keys(
            left,
            right,
            self@,
        ));
        while i < existing.len() || j < added.len()
            invariant
                i <= existing.len(),
                j <= added.len(),
                left == key_list_view(existing@),
                right == key_list_view(added@),
                key_list_view(merged@) + merged_keys(
                    left.skip(i as int),
                    right.skip(j as int),
                    self@,
                ) == merged_keys(left, right, self@),
            decreases existing.len() - i + (added.len() - j),
        {
            let ghost before = key_list_view(merged@);
            let ghost first = left.skip(i as int);
            let ghost second = right.skip(j as int);
            assert(first.len() > 0 ==> first[0] == left[i as int]);
            assert(second.len() > 0 ==> second[0] == right[j as int]);
            assert(first.len() > 0 ==> first.skip(1) =~= left.skip(i + 1));
            assert(second.len() > 0 ==> second.skip(1) =~= right.skip(j + 1));
            let from_existing = j == added.len() || (i < existing.len() && self.ordinal(
                existing[i].as_slice(),
            ) <= self.ordinal(added[j].as_slice()));
            if from_existing {
                merged.push(clone_values(existing[i].as_slice()));
                i += 1;
                proof {
                    assert(key_list_view(merged@) =~= before.push(first[0]));
                    assert(merged_keys(first, second, self@) =~= seq![first[0]] + merged_keys(
                        first.skip(1),
                        second,
                        self@,
                    ));
                    assert(before + (seq![first[0]] + merged_keys(first.skip(1), second, self@))
                        =~= key_list_view(merged@) + merged_keys(first.skip(1), second, self@));
                }
            } else {
                merged.push(clone_values(added[j].as_slice()));
                j += 1;
                proof {
                    assert(key_list_view(merged@) =~= before.push(second[0]));
                    assert(before + (seq![second[0]] + merged_keys(first, second.skip(1), self@))
                        =~= key_list_view(merged@) + merged_keys(first, second.skip(1), self@));
                }
            }
        }
        proof {
            assert(left.skip(left.len() as int) =~= Seq::<RootKey>::empty());
            assert(key_list_view(merged@) + Seq::<RootKey>::empty() =~= key_list_view(merged@));
        }
        merged
    }
}

/// Lists the rows of the groups in the order of the keys.
fn flatten_groups(order: &[Vec<Value>], rows: &RootTable<Vec<Row>>) -> (result: Vec<Row>)
    ensures
        rows_view(result@) == flattened(key_list_view(order@), group_rows_view(rows@)),
{
    let ghost keys = key_list_view(order@);
    let ghost groups = group_rows_view(rows@);
    let mut result: Vec<Row> = Vec::new();
    let mut i: usize = 0;
    assert(keys.take(0) =~= Seq::empty());
    assert(rows_view(result@) =~= Seq::empty());
    while i < order.len()
        invariant
            i <= order.len(),
            keys == key_list_view(order@),
            groups == group_rows_view(rows@),
            rows_view(result@) == flattened(keys.take(i as int), groups),
        decreases order.len() - i,
    {
        assert(keys.take(i + 1).drop_last() =~= keys.take(i as int));
        assert(keys.take(i + 1).last() == keys[i as int]);
        if let Some(group) = rows.get(order[i].as_slice()) {
            let ghost before = rows_view(result@);
            let mut copy = clone_rows(group.as_slice());
            let ghost added = copy@;
            result.append(&mut copy);
            assert(rows_view(result@) =~= before + rows_view(added));
        }
        i += 1;
    }
    assert(keys.take(keys.len() as int) =~= keys);
    result
}

/// Drops the groups of the affected keys and stores the new ones.
fn store_groups(rows: &mut RootTable<Vec<Row>>, affected: &RootKeySet, groups: &RowGroups)
    ensures
        group_rows_view(final(rows)@) == stored_groups(
            group_rows_view(old(rows)@),
            affected@,
            groups@,
        ),
{
    let ghost before = group_rows_view(rows@);
    let count = affected.keys.len();
    let ghost dropped = affected.keys.order();
    let mut i: usize = 0;
    while i < count
        invariant
            i <= count,
            count == dropped.len(),
            dropped == affected.keys.order(),
            before == group_rows_view(old(rows)@),
            forall|key: RootKey| #[trigger]
                group_rows_view(rows@).dom().contains(key) <==> before.dom().contains(key) && !(
                dropped.take(i as int).contains(key) && !groups@.rows.dom().contains(key)),
            forall|key: RootKey| #[trigger]
                group_rows_view(rows@).dom().contains(key) ==> group_rows_view(rows@)[key]
                    == before[key],
        decreases count - i,
    {
        let key = affected.keys.key_at(i);
        let ghost shorter = dropped.take(i as int);
        let ghost longer = dropped.take(i + 1);
        let ghost rows_before = group_rows_view(rows@);
        proof {
            assert forall|other: RootKey| longer.contains(other) <==> (shorter.contains(other)
                || other == dropped[i as int]) by {
                if shorter.contains(other) {
                    let k = choose|k: int| 0 <= k < shorter.len() && shorter[k] == other;
                    assert(longer[k] == other);
                }
                assert(longer[i as int] == dropped[i as int]);
                if longer.contains(other) {
                    let k = choose|k: int| 0 <= k < longer.len() && longer[k] == other;
                    if k < i {
                        assert(shorter[k] == other);
                    }
                }
            }
        }
        if !groups.rows.contains_key(key.as_slice()) {
            let _ = rows.remove(key.as_slice());
            assert(group_rows_view(rows@) =~= rows_before.remove(dropped[i as int]));
        }
        i += 1;
    }
    assert(dropped.take(dropped.len() as int) =~= dropped);
    assert forall|key: RootKey| dropped.contains(key) <==> affected@.contains(key) by {
        assert(dropped.to_set().contains(key) <==> dropped.contains(key));
    }
    let ghost kept = group_rows_view(rows@);
    let total = groups.rows.len();
    let ghost names = groups.rows.order();
    let mut j: usize = 0;
    while j < total
        invariant
            j <= total,
            total == names.len(),
            names == groups.rows.order(),
            forall|key: RootKey| #[trigger]
                group_rows_view(rows@).dom().contains(key) <==> kept.dom().contains(key)
                    || names.take(j as int).contains(key),
            forall|key: RootKey| #[trigger]
                group_rows_view(rows@).dom().contains(key) ==> group_rows_view(rows@)[key] == (
                if names.take(j as int).contains(key) {
                    groups@.rows[key]
                } else {
                    kept[key]
                }),
        decreases total - j,
    {
        let ghost shorter = names.take(j as int);
        let ghost longer = names.take(j + 1);
        let ghost rows_before = group_rows_view(rows@);
        proof {
            assert forall|other: RootKey| longer.contains(other) <==> (shorter.contains(other)
                || other == names[j as int]) by {
                if shorter.contains(other) {
                    let k = choose|k: int| 0 <= k < shorter.len() && shorter[k] == other;
                    assert(longer[k] == other);
                }
                assert(longer[j as int] == names[j as int]);
                if longer.contains(other) {
                    let k = choose|k: int| 0 <= k < longer.len() && longer[k] == other;
                    if k < j {
                        assert(shorter[k] == other);
                    }
                }
            }
        }
        let group = clone_rows(groups.rows.value_at(j).as_slice());
        let ghost added = rows_view(group@);
        rows.insert(clone_values(groups.rows.key_at(j).as_slice()), group);
        assert(added == groups@.rows[names[j as int]]);
        assert(group_rows_view(rows@) =~= rows_before.insert(names[j as int], added));
        j += 1;
    }
    assert(names.take(names.len() as int) =~= names);
    assert forall|key: RootKey| names.contains(key) <==> groups@.rows.dom().contains(key) by {
        assert(names.to_set().contains(key) <==> names.contains(key));
    }
    assert(group_rows_view(rows@) =~= stored_groups(before, affected@, groups@));
}

impl RootSubsetRefreshRuntime {
    /// Takes the rows that the query gives for the affected root rows in place of the old rows of
    /// these roots, and lists the rows of the whole result. Without a key for each of the rows
    /// nothing changes. Keys that were never seen come last, in the order of their rows.
    pub fn apply_subset_rows(&mut self, affected: &RootKeySet, rows: &[Row]) -> (result: Option<
        Vec<Row>,
    >)
        ensures
            match groups_of(rows_view(rows@), old(self)@.output_indices) {
                Some(groups) => {
                    &&& final(self)@ == old(self)@.refreshed(affected@, groups)
                    &&& result is Some
                    &&& rows_view(result->0@) == final(self)@.result()
                },
                None => result is None && final(self)@ == old(self)@,
            },
    {
        let ghost start = self@;
        let groups = match group_rows(rows, self.output_indices.as_slice()) {
            Some(groups) => groups,
            None => {
                return None;
            },
        };
        let (kept, taken) = keep_visible(self.visible.as_slice(), affected, &groups);
        let mut added: Vec<Vec<Value>> = Vec::new();
        let count = groups.rows.len();
        let ghost order = groups@.order;
        let ghost wanted = |key: RootKey| !(affected@.contains(key) && start.visible.contains(key));
        let mut i: usize = 0;
        proof {
            reveal(Seq::filter);
            assert(order.take(0).filter(wanted) =~= Seq::empty());
            assert(key_list_view(added@) =~= Seq::empty());
        }
        while i < count
            invariant
                i <= count,
                count == order.len(),
                order == groups.rows.order(),
                order.to_set() == groups@.rows.dom(),
                wanted == (|key: RootKey|
                    !(affected@.contains(key) && start.visible.contains(key))),
                forall|key: RootKey| #[trigger]
                    taken@.contains(key) <==> groups@.rows.dom().contains(key)
                        && affected@.contains(key) && start.visible.contains(key),
                self@ == start,
                key_list_view(added@) == by_ordinal(
                    order.take(i as int).filter(wanted),
                    start.registry,
                ),
            decreases count - i,
        {
            let key = groups.rows.key_at(i);
            let ghost longer = order.take(i + 1);
            proof {
                reveal(Seq::filter);
                assert(longer.drop_last() =~= order.take(i as int));
                assert(longer.last() == order[i as int]);
                assert(order.to_set().contains(order[i as int]));
            }
            if !taken.contains(key.as_slice()) {
                self.registry.insert_by_ordinal(&mut added, clone_values(key.as_slice()));
                proof {
                    let shorter = order.take(i as int).filter(wanted);
                    assert(longer.filter(wanted) == shorter.push(order[i as int]));
                    assert(shorter.push(order[i as int]).drop_last() =~= shorter);
                }
            }
            i += 1;
        }
        assert(order.take(order.len() as int) =~= order);
        let merged = self.registry.merge_keys(kept.as_slice(), added.as_slice());
        self.visible = merged;
        store_groups(&mut self.rows, affected, &groups);
        assert(self@.rows =~= start.refreshed(affected@, groups@).rows);
        let result = flatten_groups(self.visible.as_slice(), &self.rows);
        Some(result)
    }
}

impl GroupsView {
    /// The order lists each key once.
    pub open spec fn well_formed(self) -> bool {
        &&& self.order.no_duplicates()
        &&& forall|key: RootKey| #[trigger]
            self.order.contains(key) <==> self.rows.dom().contains(key)
    }
}

proof fn lemma_push_contains(keys: Seq<RootKey>, key: RootKey)
    ensures
        forall|other: RootKey| #[trigger]
            keys.push(key).contains(other) <==> keys.contains(other) || other == key,
{
    assert forall|other: RootKey| #[trigger]
        keys.push(key).contains(other) <==> keys.contains(other) || other == key by {
        if keys.contains(other) {
            let k = choose|k: int| 0 <= k < keys.len() && keys[k] == other;
            assert(keys.push(key)[k] == other);
        }
        if other == key {
            assert(keys.push(key)[keys.len() as int] == other);
        }
        if keys.push(key).contains(other) {
            let k = choose|k: int| 0 <= k < keys.len() + 1 && keys.push(key)[k] == other;
            if k < keys.len() {
                assert(keys[k] == other);
            }
        }
    }
}

proof fn lemma_front_contains(key: RootKey, keys: Seq<RootKey>)
    ensures
        forall|other: RootKey| #[trigger]
            (seq![key] + keys).contains(other) <==> keys.contains(other) || other == key,
        (seq![key] + keys).skip(1) == keys,
        (seq![key] + keys)[0] == key,
{
    let longer = seq![key] + keys;
    assert(longer.skip(1) =~= keys);
    assert forall|other: RootKey| #[trigger]
        longer.contains(other) <==> keys.contains(other) || other == key by {
        if keys.contains(other) {
            let k = choose|k: int| 0 <= k < keys.len() && keys[k] == other;
            assert(longer[k + 1] == other);
        }
        if other == key {
            assert(longer[0] == other);
        }
        if longer.contains(other) {
            let k = choose|k: int| 0 <= k < longer.len() && longer[k] == other;
            if k > 0 {
                assert(keys[k - 1] == other);
            }
        }
    }
}

proof fn lemma_skip_contains(keys: Seq<RootKey>)
    requires
        keys.len() > 0,
    ensures
        keys == seq![keys[0]] + keys.skip(1),
        forall|other: RootKey| #[trigger]
            keys.contains(other) <==> keys.skip(1).contains(other) || other == keys[0],
{
    assert(keys =~= seq![keys[0]] + keys.skip(1));
    lemma_front_contains(keys[0], keys.skip(1));
}

/// Grouping lists each key once.
pub proof fn lemma_groups_well_formed(rows: Seq<RowView>, indices: Seq<usize>)
    requires
        groups_of(rows, indices) is Some,
    ensures
        groups_of(rows, indices)->0.well_formed(),
    decreases rows.len(),
{
    if rows.len() > 0 {
        lemma_groups_well_formed(rows.drop_last(), indices);
        let before = groups_of(rows.drop_last(), indices)->0;
        let key = root_key(rows.last(), indices)->0;
        let groups = groups_of(rows, indices)->0;
        lemma_push_contains(before.order, key);
        if !before.rows.dom().contains(key) {
            assert(!before.order.contains(key));
            assert forall|i: int, j: int| 0 <= i < j < groups.order.len() implies groups.order[i]
                != groups.order[j] by {
                assert(before.order.contains(before.order[i]));
            }
        }
        assert forall|other: RootKey| #[trigger]
            groups.order.contains(other) <==> groups.rows.dom().contains(other) by {
            assert(before.order.contains(other) <==> before.rows.dom().contains(other));
        }
    }
}

proof fn lemma_flattened_ignores(
    order: Seq<RootKey>,
    rows: Map<RootKey, Seq<RowView>>,
    key: RootKey,
    group: Seq<RowView>,
)
    requires
        !order.contains(key),
    ensures
        flattened(order, rows.insert(key, group)) == flattened(order, rows),
    decreases order.len(),
{
    if order.len() > 0 {
        assert(order.last() != key) by {
            assert(order[order.len() - 1] == order.last());
        }
        assert(!order.drop_last().contains(key)) by {
            if order.drop_last().contains(key) {
                let k = choose|k: int| 0 <= k < order.len() - 1 && order.drop_last()[k] == key;
                assert(order[k] == key);
            }
        }
        lemma_flattened_ignores(order.drop_last(), rows, key, group);
    }
}

proof fn lemma_last_group(rows: Seq<RowView>, indices: Seq<usize>)
    requires
        rows.len() > 0,
        groups_of(rows, indices) is Some,
        contiguous(rows, indices),
    ensures
        groups_of(rows, indices)->0.order.len() > 0,
        Some(groups_of(rows, indices)->0.order.last()) == root_key(rows.last(), indices),
    decreases rows.len(),
{
    let shorter = rows.drop_last();
    let before = groups_of(shorter, indices)->0;
    let key = root_key(rows.last(), indices)->0;
    if before.rows.dom().contains(key) {
        if shorter.len() > 0 {
            lemma_last_group(shorter, indices);
            assert(shorter.last() == rows[rows.len() - 2]);
        }
    }
}

/// A runtime starts with the result that it was given: the groups of a result whose groups stand
/// together, listed in the order in which they came, are that result.
pub proof fn law_groups_list_their_rows(rows: Seq<RowView>, indices: Seq<usize>)
    requires
        groups_of(rows, indices) is Some,
        contiguous(rows, indices),
    ensures
        flattened(groups_of(rows, indices)->0.order, groups_of(rows, indices)->0.rows) == rows,
    decreases rows.len(),
{
    if rows.len() == 0 {
        assert(rows =~= Seq::empty());
    } else {
        let shorter = rows.drop_last();
        let before = groups_of(shorter, indices)->0;
        let groups = groups_of(rows, indices)->0;
        let key = root_key(rows.last(), indices)->0;
        law_groups_list_their_rows(shorter, indices);
        lemma_groups_well_formed(shorter, indices);
        lemma_groups_well_formed(rows, indices);
        if before.rows.dom().contains(key) {
            assert(shorter.len() > 0);
            lemma_last_group(rows, indices);
            assert(groups.order == before.order);
            let front = before.order.drop_last();
            assert(!front.contains(key)) by {
                if front.contains(key) {
                    let k = choose|k: int| 0 <= k < front.len() && front[k] == key;
                    assert(before.order[k] == before.order[before.order.len() - 1]);
                }
            }
            lemma_flattened_ignores(front, before.rows, key, before.rows[key].push(rows.last()));
            assert(flattened(groups.order, groups.rows) =~= flattened(before.order, before.rows).push(
                rows.last(),
            ));
        } else {
            assert(!before.order.contains(key));
            lemma_flattened_ignores(before.order, before.rows, key, seq![rows.last()]);
            assert(groups.order.drop_last() =~= before.order);
            assert(flattened(groups.order, groups.rows) =~= flattened(before.order, before.rows).push(
                rows.last(),
            ));
        }
        assert(shorter.push(rows.last()) =~= rows);
    }
}

/// The keys of a list that are not in a set.
pub open spec fn keys_outside(keys: Seq<RootKey>, set: Set<RootKey>) -> Seq<RootKey>
    decreases keys.len(),
{
    if keys.len() == 0 {
        Seq::empty()
    } else if set.contains(keys[0]) {
        keys_outside(keys.skip(1), set)
    } else {
        seq![keys[0]] + keys_outside(keys.skip(1), set)
    }
}

proof fn lemma_kept_outside(visible: Seq<RootKey>, affected: Set<RootKey>, groups: Set<RootKey>)
    ensures
        keys_outside(kept_keys(visible, affected, groups), affected) == keys_outside(
            visible,
            affected,
        ),
    decreases visible.len(),
{
    if visible.len() > 0 {
        let rest = visible.skip(1);
        if !affected.contains(visible[0]) {
            lemma_kept_outside(rest, affected, groups);
            lemma_front_contains(visible[0], kept_keys(rest, affected, groups));
        } else if groups.contains(visible[0]) {
            lemma_kept_outside(rest, affected, groups.remove(visible[0]));
            lemma_front_contains(
                visible[0],
                kept_keys(rest, affected, groups.remove(visible[0])),
            );
        } else {
            lemma_kept_outside(rest, affected, groups);
        }
    }
}

proof fn lemma_kept_members(visible: Seq<RootKey>, affected: Set<RootKey>, groups: Set<RootKey>)
    requires
        visible.no_duplicates(),
    ensures
        kept_keys(visible, affected, groups).no_duplicates(),
        forall|key: RootKey| #[trigger]
            kept_keys(visible, affected, groups).contains(key) <==> visible.contains(key) && (
            !affected.contains(key) || groups.contains(key)),
    decreases visible.len(),
{
    if visible.len() > 0 {
        let rest = visible.skip(1);
        let key = visible[0];
        lemma_skip_contains(visible);
        assert(rest.no_duplicates());
        assert(!rest.contains(key)) by {
            if rest.contains(key) {
                let k = choose|k: int| 0 <= k < rest.len() && rest[k] == key;
                assert(visible[k + 1] == visible[0]);
            }
        }
        if !affected.contains(key) {
            lemma_kept_members(rest, affected, groups);
            lemma_front_contains(key, kept_keys(rest, affected, groups));
            lemma_front_distinct(key, kept_keys(rest, affected, groups));
        } else if groups.contains(key) {
            lemma_kept_members(rest, affected, groups.remove(key));
            lemma_front_contains(key, kept_keys(rest, affected, groups.remove(key)));
            lemma_front_distinct(key, kept_keys(rest, affected, groups.remove(key)));
        } else {
            lemma_kept_members(rest, affected, groups);
        }
    }
}

proof fn lemma_front_distinct(key: RootKey, keys: Seq<RootKey>)
    requires
        keys.no_duplicates(),
        !keys.contains(key),
    ensures
        (seq![key] + keys).no_duplicates(),
{
    let longer = seq![key] + keys;
    assert forall|i: int, j: int| 0 <= i < j < longer.len() implies longer[i] != longer[j] by {
        assert(longer[j] == keys[j - 1]);
        if i > 0 {
            assert(longer[i] == keys[i - 1]);
        } else {
            assert(keys.contains(keys[j - 1]));
        }
    }
}

proof fn lemma_merged_members(
    existing: Seq<RootKey>,
    added: Seq<RootKey>,
    registry: RegistryView,
)
    ensures
        forall|key: RootKey| #[trigger]
            merged_keys(existing, added, registry).contains(key) <==> existing.contains(key)
                || added.contains(key),
        (existing.no_duplicates() && added.no_duplicates() && (forall|key: RootKey| #[trigger]
            added.contains(key) ==> !existing.contains(key))) ==> merged_keys(
            existing,
            added,
            registry,
        ).no_duplicates(),
    decreases existing.len() + added.len(),
{
    if added.len() == 0 {
        assert forall|key: RootKey| !(#[trigger] added.contains(key)) by {}
    } else if existing.len() > 0 && registry.ordinal(existing[0]) <= registry.ordinal(added[0]) {
        let rest = existing.skip(1);
        lemma_merged_members(rest, added, registry);
        lemma_skip_contains(existing);
        lemma_front_contains(existing[0], merged_keys(rest, added, registry));
        if existing.no_duplicates() && added.no_duplicates() && (forall|key: RootKey| #[trigger]
            added.contains(key) ==> !existing.contains(key)) {
            assert(rest.no_duplicates());
            assert(!rest.contains(existing[0])) by {
                if rest.contains(existing[0]) {
                    let k = choose|k: int| 0 <= k < rest.len() && rest[k] == existing[0];
                    assert(existing[k + 1] == existing[0]);
                }
            }
            assert(existing.contains(existing[0]));
            assert(!added.contains(existing[0]));
            lemma_front_distinct(existing[0], merged_keys(rest, added, registry));
        }
    } else {
        let rest = added.skip(1);
        lemma_merged_members(existing, rest, registry);
        lemma_skip_contains(added);
        lemma_front_contains(added[0], merged_keys(existing, rest, registry));
        if existing.no_duplicates() && added.no_duplicates() && (forall|key: RootKey| #[trigger]
            added.contains(key) ==> !existing.contains(key)) {
            assert(rest.no_duplicates());
            assert(!rest.contains(added[0])) by {
                if rest.contains(added[0]) {
                    let k = choose|k: int| 0 <= k < rest.len() && rest[k] == added[0];
                    assert(added[k + 1] == added[0]);
                }
            }
            assert(added.contains(added[0]));
            assert forall|key: RootKey| #[trigger] rest.contains(key) implies !existing.contains(
                key,
            ) by {
                assert(added.contains(key));
            }
            lemma_front_distinct(added[0], merged_keys(existing, rest, registry));
        }
    }
}

proof fn lemma_merged_outside(
    existing: Seq<RootKey>,
    added: Seq<RootKey>,
    registry: RegistryView,
    affected: Set<RootKey>,
)
    requires
        forall|key: RootKey| #[trigger] added.contains(key) ==> affected.contains(key),
    ensures
        keys_outside(merged_keys(existing, added, registry), affected) == keys_outside(
            existing,
            affected,
        ),
    decreases existing.len() + added.len(),
{
    if added.len() == 0 {
    } else if existing.len() > 0 && registry.ordinal(existing[0]) <= registry.ordinal(added[0]) {
        lemma_merged_outside(existing.skip(1), added, registry, affected);
        lemma_front_contains(existing[0], merged_keys(existing.skip(1), added, registry));
    } else {
        lemma_skip_contains(added);
        assert forall|key: RootKey| #[trigger] added.skip(1).contains(key) implies affected.contains(
            key,
        ) by {
            assert(added.contains(key));
        }
        assert(added.contains(added[0]));
        lemma_merged_outside(existing, added.skip(1), registry, affected);
        lemma_front_contains(added[0], merged_keys(existing, added.skip(1), registry));
    }
}

proof fn lemma_insert_position(sorted: Seq<RootKey>, ordinal: usize, registry: RegistryView)
    ensures
        0 <= insert_position(sorted, ordinal, registry) <= sorted.len(),
    decreases sorted.len(),
{
    if sorted.len() > 0 && registry.ordinal(sorted[0]) <= ordinal {
        lemma_insert_position(sorted.skip(1), ordinal, registry);
    }
}

proof fn lemma_by_ordinal_members(keys: Seq<RootKey>, registry: RegistryView)
    ensures
        forall|key: RootKey| #[trigger]
            by_ordinal(keys, registry).contains(key) <==> keys.contains(key),
        keys.no_duplicates() ==> by_ordinal(keys, registry).no_duplicates(),
    decreases keys.len(),
{
    if keys.len() > 0 {
        let shorter = keys.drop_last();
        let sorted = by_ordinal(shorter, registry);
        let last = keys.last();
        let at = insert_position(sorted, registry.ordinal(last), registry);
        lemma_by_ordinal_members(shorter, registry);
        lemma_insert_position(sorted, registry.ordinal(last), registry);
        lemma_push_contains(shorter, last);
        assert(shorter.push(last) =~= keys);
        let longer = sorted.insert(at, last);
        assert forall|key: RootKey| #[trigger]
            longer.contains(key) <==> sorted.contains(key) || key == last by {
            if sorted.contains(key) {
                let k = choose|k: int| 0 <= k < sorted.len() && sorted[k] == key;
                assert(longer[if k < at {
                    k
                } else {
                    k + 1
                }] == key);
            }
            if key == last {
                assert(longer[at] == key);
            }
            if longer.contains(key) {
                let k = choose|k: int| 0 <= k < longer.len() && longer[k] == key;
                if k != at {
                    assert(sorted[if k < at {
                        k
                    } else {
                        k - 1
                    }] == key);
                }
            }
        }
        if keys.no_duplicates() {
            assert(shorter.no_duplicates());
            assert(!shorter.contains(last)) by {
                if shorter.contains(last) {
                    let k = choose|k: int| 0 <= k < shorter.len() && shorter[k] == last;
                    assert(keys[k] == keys[keys.len() - 1]);
                }
            }
            assert(!sorted.contains(last));
            assert forall|i: int, j: int| 0 <= i < j < longer.len() implies longer[i]
                != longer[j] by {
                let left = if i < at {
                    i
                } else {
                    i - 1
                };
                let right = if j < at {
                    j
                } else {
                    j - 1
                };
                if i == at {
                    assert(longer[j] == sorted[right]);
                    assert(sorted.contains(sorted[right]));
                } else if j == at {
                    assert(longer[i] == sorted[left]);
                    assert(sorted.contains(sorted[left]));
                } else {
                    assert(longer[i] == sorted[left] && longer[j] == sorted[right]);
                }
            }
        }
    }
}

proof fn lemma_filtered_members(keys: Seq<RootKey>, wanted: spec_fn(RootKey) -> bool)
    ensures
        forall|key: RootKey| #[trigger]
            keys.filter(wanted).contains(key) <==> keys.contains(key) && wanted(key),
        keys.no_duplicates() ==> keys.filter(wanted).no_duplicates(),
    decreases keys.len(),
{
    reveal(Seq::filter);
    if keys.len() > 0 {
        let shorter = keys.drop_last();
        let last = keys.last();
        lemma_filtered_members(shorter, wanted);
        lemma_push_contains(shorter, last);
        lemma_push_contains(shorter.filter(wanted), last);
        assert(shorter.push(last) =~= keys);
        if keys.no_duplicates() {
            assert(shorter.no_duplicates());
            assert(!shorter.contains(last)) by {
                if shorter.contains(last) {
                    let k = choose|k: int| 0 <= k < shorter.len() && shorter[k] == last;
                    assert(keys[k] == keys[keys.len() - 1]);
                }
            }
            let kept = shorter.filter(wanted);
            assert(!kept.contains(last));
            let longer = kept.push(last);
            assert forall|i: int, j: int| 0 <= i < j < longer.len() implies longer[i]
                != longer[j] by {
                assert(longer[i] == kept[i]);
                assert(kept.contains(kept[i]));
            }
        }
    }
}

proof fn lemma_added_members(runtime: RuntimeView, affected: Set<RootKey>, groups: GroupsView)
    requires
        groups.well_formed(),
    ensures
        forall|key: RootKey| #[trigger]
            runtime.added_keys(affected, groups).contains(key) <==> groups.rows.dom().contains(key)
                && !(affected.contains(key) && runtime.visible.contains(key)),
        runtime.added_keys(affected, groups).no_duplicates(),
{
    let wanted = |key: RootKey| !(affected.contains(key) && runtime.visible.contains(key));
    lemma_filtered_members(groups.order, wanted);
}

impl RuntimeView {
    /// Each key is visible once, and the visible keys are those with rows.
    pub open spec fn consistent(self) -> bool {
        &&& self.visible.no_duplicates()
        &&& forall|key: RootKey| #[trigger]
            self.visible.contains(key) <==> self.rows.dom().contains(key)
    }
}

/// A refresh of affected roots keeps the runtime consistent, as far as the new rows belong to the
/// affected roots.
pub proof fn law_refresh_keeps_consistency(
    runtime: RuntimeView,
    affected: Set<RootKey>,
    rows: Seq<RowView>,
)
    requires
        runtime.consistent(),
        groups_of(rows, runtime.output_indices) is Some,
        groups_of(rows, runtime.output_indices)->0.rows.dom().subset_of(affected),
    ensures
        runtime.refreshed(affected, groups_of(rows, runtime.output_indices)->0).consistent(),
{
    let groups = groups_of(rows, runtime.output_indices)->0;
    lemma_groups_well_formed(rows, runtime.output_indices);
    let kept = kept_keys(runtime.visible, affected, groups.rows.dom());
    let added = runtime.added_keys(affected, groups);
    let sorted = by_ordinal(added, runtime.registry);
    lemma_kept_members(runtime.visible, affected, groups.rows.dom());
    lemma_added_members(runtime, affected, groups);
    lemma_by_ordinal_members(added, runtime.registry);
    lemma_merged_members(kept, sorted, runtime.registry);
    let after = runtime.refreshed(affected, groups);
    assert forall|key: RootKey| #[trigger] sorted.contains(key) implies !kept.contains(key) by {
        assert(added.contains(key));
        assert(affected.contains(key));
    }
    assert forall|key: RootKey| #[trigger] after.visible.contains(key) <==> after.rows.dom().contains(
        key,
    ) by {
        assert(after.visible.contains(key) <==> kept.contains(key) || sorted.contains(key));
        assert(sorted.contains(key) <==> added.contains(key));
    }
}

/// A refresh of affected roots leaves the other roots alone: their rows stay, and so does the
/// order in which they are listed.
pub proof fn law_refresh_keeps_other_roots(
    runtime: RuntimeView,
    affected: Set<RootKey>,
    rows: Seq<RowView>,
)
    requires
        groups_of(rows, runtime.output_indices) is Some,
        groups_of(rows, runtime.output_indices)->0.rows.dom().subset_of(affected),
    ensures
        ({
            let after = runtime.refreshed(affected, groups_of(rows, runtime.output_indices)->0);
            &&& keys_outside(after.visible, affected) == keys_outside(runtime.visible, affected)
            &&& forall|key: RootKey|
                #![trigger after.rows.dom().contains(key)]
                #![trigger runtime.rows.dom().contains(key)]
                !affected.contains(key) ==> {
                    &&& after.rows.dom().contains(key) == runtime.rows.dom().contains(key)
                    &&& after.rows.dom().contains(key) ==> after.rows[key] == runtime.rows[key]
                }
        }),
{
    let groups = groups_of(rows, runtime.output_indices)->0;
    lemma_groups_well_formed(rows, runtime.output_indices);
    let kept = kept_keys(runtime.visible, affected, groups.rows.dom());
    let added = runtime.added_keys(affected, groups);
    let sorted = by_ordinal(added, runtime.registry);
    lemma_added_members(runtime, affected, groups);
    lemma_by_ordinal_members(added, runtime.registry);
    assert forall|key: RootKey| #[trigger] sorted.contains(key) implies affected.contains(key) by {
        assert(added.contains(key));
    }
    lemma_merged_outside(kept, sorted, runtime.registry, affected);
    lemma_kept_outside(runtime.visible, affected, groups.rows.dom());
}

/// Keys in the order in which the root table listed them first.
pub open spec fn in_store_order(keys: Seq<RootKey>, registry: RegistryView) -> bool {
    forall|i: int, j: int|
        0 <= i < j < keys.len() ==> registry.ordinal(#[trigger] keys[i]) < registry.ordinal(
            #[trigger] keys[j],
        )
}

proof fn lemma_store_order_front(key: RootKey, rest: Seq<RootKey>, registry: RegistryView)
    requires
        in_store_order(rest, registry),
        forall|other: RootKey| #[trigger]
            rest.contains(other) ==> registry.ordinal(key) < registry.ordinal(other),
    ensures
        in_store_order(seq![key] + rest, registry),
{
    let keys = seq![key] + rest;
    assert forall|i: int, j: int| 0 <= i < j < keys.len() implies registry.ordinal(
        #[trigger] keys[i],
    ) < registry.ordinal(#[trigger] keys[j]) by {
        assert(keys[j] == rest[j - 1]);
        assert(rest.contains(rest[j - 1]));
        if i > 0 {
            assert(keys[i] == rest[i - 1]);
        }
    }
}

proof fn lemma_store_order_rest(keys: Seq<RootKey>, registry: RegistryView)
    requires
        keys.len() > 0,
        in_store_order(keys, registry),
    ensures
        in_store_order(keys.skip(1), registry),
        forall|other: RootKey| #[trigger]
            keys.skip(1).contains(other) ==> registry.ordinal(keys[0]) < registry.ordinal(other),
{
    let rest = keys.skip(1);
    assert forall|i: int, j: int| 0 <= i < j < rest.len() implies registry.ordinal(
        #[trigger] rest[i],
    ) < registry.ordinal(#[trigger] rest[j]) by {
        assert(rest[i] == keys[i + 1] && rest[j] == keys[j + 1]);
    }
    assert forall|other: RootKey| #[trigger] rest.contains(other) implies registry.ordinal(keys[0])
        < registry.ordinal(other) by {
        let k = choose|k: int| 0 <= k < rest.len() && rest[k] == other;
        assert(keys[k + 1] == other);
    }
}

proof fn lemma_store_order_distinct(keys: Seq<RootKey>, registry: RegistryView)
    requires
        in_store_order(keys, registry),
    ensures
        keys.no_duplicates(),
{
    assert forall|i: int, j: int| 0 <= i < keys.len() && 0 <= j < keys.len() && i != j implies keys[i]
        != keys[j] by {
        if i < j {
            assert(registry.ordinal(keys[i]) < registry.ordinal(keys[j]));
        } else {
            assert(registry.ordinal(keys[j]) < registry.ordinal(keys[i]));
        }
    }
}

proof fn lemma_kept_store_order(
    visible: Seq<RootKey>,
    affected: Set<RootKey>,
    groups: Set<RootKey>,
    registry: RegistryView,
)
    requires
        in_store_order(visible, registry),
    ensures
        in_store_order(kept_keys(visible, affected, groups), registry),
    decreases visible.len(),
{
    if visible.len() > 0 {
        let rest = visible.skip(1);
        let left = if affected.contains(visible[0]) && groups.contains(visible[0]) {
            groups.remove(visible[0])
        } else {
            groups
        };
        lemma_store_order_rest(visible, registry);
        lemma_store_order_distinct(rest, registry);
        lemma_kept_store_order(rest, affected, left, registry);
        lemma_kept_members(rest, affected, left);
        lemma_store_order_front(visible[0], kept_keys(rest, affected, left), registry);
    }
}

proof fn lemma_merged_store_order(
    existing: Seq<RootKey>,
    added: Seq<RootKey>,
    registry: RegistryView,
)
    requires
        in_store_order(existing, registry),
        in_store_order(added, registry),
        forall|left: RootKey, right: RootKey|
            #![trigger existing.contains(left), added.contains(right)]
            existing.contains(left) && added.contains(right) ==> registry.ordinal(left)
                != registry.ordinal(right),
    ensures
        in_store_order(merged_keys(existing, added, registry), registry),
    decreases existing.len() + added.len(),
{
    if added.len() > 0 {
        lemma_store_order_rest(added, registry);
        lemma_skip_contains(added);
        assert(added.contains(added[0]));
        if existing.len() > 0 {
            lemma_store_order_rest(existing, registry);
            lemma_skip_contains(existing);
            assert(existing.contains(existing[0]));
        }
        if existing.len() > 0 && registry.ordinal(existing[0]) <= registry.ordinal(added[0]) {
            let rest = existing.skip(1);
            assert forall|left: RootKey, right: RootKey|
                #![trigger rest.contains(left), added.contains(right)]
                rest.contains(left) && added.contains(right) implies registry.ordinal(left)
                != registry.ordinal(right) by {
                assert(existing.contains(left));
            }
            lemma_merged_store_order(rest, added, registry);
            lemma_merged_members(rest, added, registry);
            lemma_store_order_front(existing[0], merged_keys(rest, added, registry), registry);
        } else {
            let rest = added.skip(1);
            assert forall|left: RootKey, right: RootKey|
                #![trigger existing.contains(left), rest.contains(right)]
                existing.contains(left) && rest.contains(right) implies registry.ordinal(left)
                != registry.ordinal(right) by {
                assert(added.contains(right));
            }
            lemma_merged_store_order(existing, rest, registry);
            lemma_merged_members(existing, rest, registry);
            lemma_store_order_front(added[0], merged_keys(existing, rest, registry), registry);
        }
    }
}

proof fn lemma_insert_splits(sorted: Seq<RootKey>, ordinal: usize, registry: RegistryView)
    requires
        in_store_order(sorted, registry),
    ensures
        ({
            let at = insert_position(sorted, ordinal, registry);
            &&& forall|i: int| 0 <= i < at ==> registry.ordinal(#[trigger] sorted[i]) <= ordinal
            &&& forall|i: int|
                at <= i < sorted.len() ==> registry.ordinal(#[trigger] sorted[i]) > ordinal
        }),
    decreases sorted.len(),
{
    if sorted.len() > 0 {
        let rest = sorted.skip(1);
        let at = insert_position(sorted, ordinal, registry);
        lemma_store_order_rest(sorted, registry);
        lemma_insert_splits(rest, ordinal, registry);
        lemma_insert_position(rest, ordinal, registry);
        assert forall|i: int| 0 <= i < sorted.len() implies (registry.ordinal(#[trigger] sorted[i])
            <= ordinal <==> i < at) by {
            if i > 0 {
                assert(sorted[i] == rest[i - 1]);
                assert(registry.ordinal(sorted[0]) < registry.ordinal(sorted[i]));
            }
        }
    }
}

proof fn lemma_by_ordinal_store_order(keys: Seq<RootKey>, registry: RegistryView)
    requires
        forall|i: int, j: int|
            0 <= i < j < keys.len() ==> registry.ordinal(#[trigger] keys[i]) != registry.ordinal(
                #[trigger] keys[j],
            ),
    ensures
        in_store_order(by_ordinal(keys, registry), registry),
    decreases keys.len(),
{
    if keys.len() > 0 {
        let shorter = keys.drop_last();
        let last = keys.last();
        lemma_by_ordinal_store_order(shorter, registry);
        lemma_by_ordinal_members(shorter, registry);
        let before = by_ordinal(shorter, registry);
        let at = insert_position(before, registry.ordinal(last), registry);
        lemma_insert_position(before, registry.ordinal(last), registry);
        lemma_insert_splits(before, registry.ordinal(last), registry);
        assert forall|i: int| 0 <= i < before.len() implies registry.ordinal(#[trigger] before[i])
            != registry.ordinal(last) by {
            assert(before.contains(before[i]));
            assert(shorter.contains(before[i]));
            let k = choose|k: int| 0 <= k < shorter.len() && shorter[k] == before[i];
            assert(keys[k] == before[i] && keys[keys.len() - 1] == last);
        }
        let sorted = before.insert(at, last);
        assert forall|i: int, j: int| 0 <= i < j < sorted.len() implies registry.ordinal(
            #[trigger] sorted[i],
        ) < registry.ordinal(#[trigger] sorted[j]) by {
            let left = if i < at {
                i
            } else {
                i - 1
            };
            let right = if j < at {
                j
            } else {
                j - 1
            };
            if i == at {
                assert(sorted[j] == before[right]);
            } else if j == at {
                assert(sorted[i] == before[left]);
            } else {
                assert(sorted[i] == before[left] && sorted[j] == before[right]);
            }
        }
    }
}

proof fn lemma_store_order_unique(
    left: Seq<RootKey>,
    right: Seq<RootKey>,
    registry: RegistryView,
)
    requires
        in_store_order(left, registry),
        in_store_order(right, registry),
        forall|key: RootKey| #[trigger] left.contains(key) <==> right.contains(key),
    ensures
        left == right,
    decreases left.len(),
{
    if left.len() == 0 {
        if right.len() > 0 {
            assert(right.contains(right[0]));
            assert(left.contains(right[0]));
        }
        assert(left =~= right);
    } else {
        assert(left.contains(left[0]));
        assert(right.contains(left[0]));
        lemma_store_order_rest(left, registry);
        assert(right.len() > 0);
        lemma_store_order_rest(right, registry);
        lemma_skip_contains(left);
        lemma_skip_contains(right);
        assert(right.contains(right[0]));
        assert(left.contains(right[0]));
        assert(left[0] == right[0]);
        lemma_store_order_distinct(left, registry);
        lemma_store_order_distinct(right, registry);
        assert forall|key: RootKey| #[trigger] left.skip(1).contains(key) <==> right.skip(
            1,
        ).contains(key) by {
            assert(left.contains(key) <==> right.contains(key));
        }
        lemma_store_order_unique(left.skip(1), right.skip(1), registry);
        assert(left =~= seq![left[0]] + left.skip(1));
        assert(right =~= seq![right[0]] + right.skip(1));
    }
}

/// The new groups of the affected roots are those of the whole new result, and the other roots
/// have the same groups in the old result and in the whole new one.
pub open spec fn group_agrees(
    before: Map<RootKey, Seq<RowView>>,
    groups: Map<RootKey, Seq<RowView>>,
    whole: Map<RootKey, Seq<RowView>>,
    affected: Set<RootKey>,
    key: RootKey,
) -> bool {
    if affected.contains(key) {
        &&& groups.dom().contains(key) == whole.dom().contains(key)
        &&& whole.dom().contains(key) ==> groups[key] == whole[key]
    } else {
        &&& !groups.dom().contains(key)
        &&& before.dom().contains(key) == whole.dom().contains(key)
        &&& whole.dom().contains(key) ==> before[key] == whole[key]
    }
}

/// A refresh of affected roots gives what running the whole query anew gives: if the rows of the
/// other roots are the same as before, the new rows are those of the affected roots, and the query
/// lists the roots in the order of the root table, then the refreshed result is the result of the
/// whole query. It is in the order of the root table too, so that the next refresh can follow.
pub proof fn law_refresh_matches_whole_query(
    runtime: RuntimeView,
    affected: Set<RootKey>,
    rows: Seq<RowView>,
    whole: Seq<RowView>,
)
    requires
        runtime.consistent(),
        in_store_order(runtime.visible, runtime.registry),
        groups_of(rows, runtime.output_indices) is Some,
        groups_of(whole, runtime.output_indices) is Some,
        contiguous(whole, runtime.output_indices),
        in_store_order(groups_of(whole, runtime.output_indices)->0.order, runtime.registry),
        forall|key: RootKey| #[trigger]
            group_agrees(
                runtime.rows,
                groups_of(rows, runtime.output_indices)->0.rows,
                groups_of(whole, runtime.output_indices)->0.rows,
                affected,
                key,
            ),
    ensures
        ({
            let after = runtime.refreshed(affected, groups_of(rows, runtime.output_indices)->0);
            &&& after.result() == whole
            &&& after.consistent()
            &&& in_store_order(after.visible, after.registry)
        }),
{
    let registry = runtime.registry;
    let groups = groups_of(rows, runtime.output_indices)->0;
    let all = groups_of(whole, runtime.output_indices)->0;
    let after = runtime.refreshed(affected, groups);
    lemma_groups_well_formed(rows, runtime.output_indices);
    lemma_groups_well_formed(whole, runtime.output_indices);
    assert(groups.rows.dom().subset_of(affected)) by {
        assert forall|key: RootKey| groups.rows.dom().contains(key) implies affected.contains(
            key,
        ) by {
            assert(group_agrees(runtime.rows, groups.rows, all.rows, affected, key));
        }
    }
    law_refresh_keeps_consistency(runtime, affected, rows);
    let kept = kept_keys(runtime.visible, affected, groups.rows.dom());
    let added = runtime.added_keys(affected, groups);
    let sorted = by_ordinal(added, registry);
    lemma_kept_store_order(runtime.visible, affected, groups.rows.dom(), registry);
    lemma_kept_members(runtime.visible, affected, groups.rows.dom());
    lemma_added_members(runtime, affected, groups);
    lemma_by_ordinal_members(added, registry);
    assert forall|key: RootKey| groups.rows.dom().contains(key) implies all.order.contains(key) by {
        assert(group_agrees(runtime.rows, groups.rows, all.rows, affected, key));
    }
    assert forall|left: RootKey, right: RootKey|
        all.order.contains(left) && all.order.contains(right) && left != right implies registry.ordinal(
        left,
    ) != registry.ordinal(right) by {
        let i = choose|i: int| 0 <= i < all.order.len() && all.order[i] == left;
        let j = choose|j: int| 0 <= j < all.order.len() && all.order[j] == right;
        if i < j {
            assert(registry.ordinal(all.order[i]) < registry.ordinal(all.order[j]));
        } else {
            assert(registry.ordinal(all.order[j]) < registry.ordinal(all.order[i]));
        }
    }
    assert forall|i: int, j: int| 0 <= i < j < added.len() implies registry.ordinal(
        #[trigger] added[i],
    ) != registry.ordinal(#[trigger] added[j]) by {
        assert(added.contains(added[i]) && added.contains(added[j]));
        assert(all.order.contains(added[i]) && all.order.contains(added[j]));
    }
    lemma_by_ordinal_store_order(added, registry);
    assert forall|left: RootKey, right: RootKey|
        #![trigger kept.contains(left), sorted.contains(right)]
        kept.contains(left) && sorted.contains(right) implies registry.ordinal(left)
        != registry.ordinal(right) by {
        assert(runtime.visible.contains(left));
        assert(runtime.rows.dom().contains(left));
        assert(group_agrees(runtime.rows, groups.rows, all.rows, affected, left));
        assert(all.order.contains(left));
        assert(added.contains(right));
        assert(all.order.contains(right));
    }
    lemma_merged_store_order(kept, sorted, registry);
    assert forall|key: RootKey| #[trigger] after.visible.contains(key) <==> all.order.contains(key) by {
        assert(after.visible.contains(key) <==> after.rows.dom().contains(key));
        assert(all.order.contains(key) <==> all.rows.dom().contains(key));
        assert(group_agrees(runtime.rows, groups.rows, all.rows, affected, key));
    }
    lemma_store_order_unique(after.visible, all.order, registry);
    assert(after.rows =~= all.rows) by {
        assert forall|key: RootKey| after.rows.dom().contains(key) <==> all.rows.dom().contains(
            key,
        ) by {
            assert(after.visible.contains(key) <==> after.rows.dom().contains(key));
            assert(all.order.contains(key) <==> all.rows.dom().contains(key));
        }
        assert forall|key: RootKey| after.rows.dom().contains(key) implies after.rows[key]
            == all.rows[key] by {
            assert(group_agrees(runtime.rows, groups.rows, all.rows, affected, key));
        }
    }
    law_groups_list_their_rows(whole, runtime.output_indices);
}

proof fn lemma_registry_prefix(rows: Seq<RowView>, indices: Seq<usize>, k: int)
    requires
        0 <= k <= rows.len(),
        rows.len() <= usize::MAX,
    ensures
        ({
            let before = registry_of(rows.take(k), indices);
            let after = registry_of(rows, indices);
            &&& before.next <= after.next <= rows.len()
            &&& forall|key: RootKey| #[trigger]
                after.ordinals.dom().contains(key) ==> after.ordinals[key] < after.next
            &&& forall|key: RootKey| #[trigger]
                before.ordinals.dom().contains(key) ==> after.ordinals.dom().contains(key)
                    && after.ordinals[key] == before.ordinals[key] && before.ordinals[key]
                    < before.next
            &&& forall|key: RootKey| #[trigger]
                after.ordinals.dom().contains(key) && !before.ordinals.dom().contains(key)
                    ==> after.ordinals[key] >= before.next
        }),
    decreases rows.len(),
{
    if rows.len() > 0 {
        let front = rows.drop_last();
        if k == rows.len() {
            assert(rows.take(k) =~= rows);
            lemma_registry_prefix(front, indices, front.len() as int);
            assert(front.take(front.len() as int) =~= front);
        } else {
            assert(front.take(k) =~= rows.take(k));
            lemma_registry_prefix(front, indices, k);
        }
    }
}

proof fn lemma_registered_keys(rows: Seq<RowView>, indices: Seq<usize>, key: RootKey)
    ensures
        registry_of(rows, indices).ordinals.dom().contains(key) <==> exists|i: int|
            0 <= i < rows.len() && root_key(#[trigger] rows[i], indices) == Some(key),
    decreases rows.len(),
{
    if rows.len() > 0 {
        let front = rows.drop_last();
        let last = rows.len() - 1;
        lemma_registered_keys(front, indices, key);
        assert(forall|i: int| 0 <= i < last ==> front[i] == rows[i]);
        assert(rows[last] == rows.last());
        if exists|i: int| 0 <= i < front.len() && root_key(#[trigger] front[i], indices) == Some(key) {
            let i = choose|i: int|
                0 <= i < front.len() && root_key(#[trigger] front[i], indices) == Some(key);
            assert(root_key(rows[i], indices) == Some(key));
        }
        if exists|i: int| 0 <= i < rows.len() && root_key(#[trigger] rows[i], indices) == Some(key) {
            let i = choose|i: int|
                0 <= i < rows.len() && root_key(#[trigger] rows[i], indices) == Some(key);
            if i < last {
                assert(root_key(front[i], indices) == Some(key));
            }
        }
    }
}

/// The root rows are numbered in the order of the root table: a key that the table lists before
/// another one has the smaller number, and a key that it does not list comes last.
pub proof fn law_registry_follows_the_table(
    rows: Seq<RowView>,
    indices: Seq<usize>,
    i: int,
    j: int,
)
    requires
        rows.len() <= usize::MAX,
        0 <= i < j < rows.len(),
        root_key(rows[i], indices) is Some,
        root_key(rows[j], indices) is Some,
        forall|k: int| 0 <= k <= i ==> root_key(#[trigger] rows[k], indices) != root_key(
            rows[j],
            indices,
        ),
    ensures
        registry_of(rows, indices).ordinal(root_key(rows[i], indices)->0) < registry_of(
            rows,
            indices,
        ).ordinal(root_key(rows[j], indices)->0),
        forall|key: RootKey|
            (forall|k: int|
                0 <= k < rows.len() ==> root_key(#[trigger] rows[k], indices) != Some(key))
                ==> #[trigger] registry_of(rows, indices).ordinal(key) == usize::MAX,
{
    let first = root_key(rows[i], indices)->0;
    let second = root_key(rows[j], indices)->0;
    let prefix = rows.take(i + 1);
    lemma_registry_prefix(rows, indices, i + 1);
    lemma_registered_keys(prefix, indices, first);
    lemma_registered_keys(prefix, indices, second);
    lemma_registered_keys(rows, indices, first);
    lemma_registered_keys(rows, indices, second);
    assert(prefix[i] == rows[i]);
    assert(registry_of(prefix, indices).ordinals.dom().contains(first));
    assert(!registry_of(prefix, indices).ordinals.dom().contains(second)) by {
        if registry_of(prefix, indices).ordinals.dom().contains(second) {
            let k = choose|k: int|
                0 <= k < prefix.len() && root_key(#[trigger] prefix[k], indices) == Some(second);
            assert(rows[k] == prefix[k]);
        }
    }
    assert forall|key: RootKey|
        (forall|k: int|
            0 <= k < rows.len() ==> root_key(#[trigger] rows[k], indices) != Some(
                key,
            )) implies #[trigger] registry_of(rows, indices).ordinal(key) == usize::MAX by {
        lemma_registered_keys(rows, indices, key);
    }
}

/// The keys of a group of affected root rows are all refreshed: for a row that was known its old
/// key, and for a row that was not known, or is to be read again, the key that it has now. A row
/// that is gone is known no longer.
pub proof fn law_affected_rows_have_their_keys_refreshed(
    registry: RegistryView,
    affected: Seq<(u64, Option<RowView>)>,
    refresh_existing: bool,
    indices: Seq<usize>,
    at: int,
)
    requires
        collect_all(registry, affected, refresh_existing, indices).complete,
        0 <= at < affected.len(),
        forall|i: int, j: int| 0 <= i < j < affected.len() ==> affected[i].0 != affected[j].0,
    ensures
        ({
            let after = collect_all(registry, affected, refresh_existing, indices);
            let (row_id, row) = affected[at];
            let known = registry.row_keys.dom().contains(row_id);
            &&& known ==> after.affected.contains(registry.row_keys[row_id])
            &&& (!known || refresh_existing) && row is Some ==> {
                &&& root_key(row->0, indices) is Some
                &&& after.affected.contains(root_key(row->0, indices)->0)
                &&& after.registry.row_keys.dom().contains(row_id)
                &&& after.registry.row_keys[row_id] == root_key(row->0, indices)->0
                &&& after.registry.ordinals.dom().contains(root_key(row->0, indices)->0)
            }
            &&& (!known || refresh_existing) && row is None
                ==> !after.registry.row_keys.dom().contains(row_id)
            &&& known && !refresh_existing ==> after.registry.row_keys.dom().contains(row_id)
                && after.registry.row_keys[row_id] == registry.row_keys[row_id]
        }),
    decreases affected.len(),
{
    let front = affected.drop_last();
    let last = affected.len() - 1;
    let before = collect_all(registry, front, refresh_existing, indices);
    assert(forall|i: int| 0 <= i < last ==> front[i] == affected[i]);
    assert(affected[last] == affected.last());
    assert(before.complete);
    if at < last {
        law_affected_rows_have_their_keys_refreshed(
            registry,
            front,
            refresh_existing,
            indices,
            at,
        );
        assert(affected[at].0 != affected[last].0);
    } else {
        lemma_untouched_rows(registry, front, refresh_existing, indices, affected[last].0);
    }
}

proof fn lemma_untouched_rows(
    registry: RegistryView,
    affected: Seq<(u64, Option<RowView>)>,
    refresh_existing: bool,
    indices: Seq<usize>,
    row_id: u64,
)
    requires
        forall|i: int| 0 <= i < affected.len() ==> (#[trigger] affected[i]).0 != row_id,
    ensures
        ({
            let after = collect_all(registry, affected, refresh_existing, indices).registry;
            &&& after.row_keys.dom().contains(row_id) == registry.row_keys.dom().contains(row_id)
            &&& registry.row_keys.dom().contains(row_id) ==> after.row_keys[row_id]
                == registry.row_keys[row_id]
        }),
    decreases affected.len(),
{
    if affected.len() > 0 {
        let front = affected.drop_last();
        assert(forall|i: int| 0 <= i < front.len() ==> front[i] == affected[i]);
        lemma_untouched_rows(registry, front, refresh_existing, indices, row_id);
        assert(affected[affected.len() - 1].0 != row_id);
    }
}

/// The key of a row holds the values of the key columns in their order.
pub proof fn law_keys_hold_the_key_columns(row: RowView, indices: Seq<usize>, at: int)
    ensures
        root_key(row, indices) is None <==> exists|i: int|
            0 <= i < indices.len() && #[trigger] indices[i] >= row.values.len(),
        root_key(row, indices) matches Some(key) ==> {
            &&& key.len() == indices.len()
            &&& 0 <= at < indices.len() ==> key[at] == row.values[indices[at] as int]
        },
{
}

} // verus!
