//! A cache of encoded rows.
//!
//! The encoded rows are kept by the caller, under the identifiers of the rows; the cache decides
//! which of them are used again and which are dropped.
use vstd::prelude::*;

use crate::refresh_policy::{min_of, smaller};
use crate::row::DUMMY_ROW_ID;
use crate::tables::IdTable;
use crate::transaction::bounded;

verus! {

/// An encoded row: the version that was encoded, and the pass in which it was last used.
#[derive(Clone, Copy, Debug, PartialEq, Eq, Structural)]
pub struct CachedSnapshotRow {
    pub version: u64,
    pub epoch: u64,
}

/// What a cache of encoded rows holds.
#[verifier::ext_equal]
pub struct RowsCacheView {
    pub rows: Map<u64, CachedSnapshotRow>,
    pub epoch: u64,
}

impl RowsCacheView {
    /// A row was encoded in the given version. Rows that stand for no stored row share an
    /// identifier, which does not tell them apart: they are encoded each time.
    pub open spec fn holds(self, row_id: u64, version: u64) -> bool {
        row_id != DUMMY_ROW_ID && self.rows.dom().contains(row_id) && self.rows[row_id].version == version
    }

    /// The cache at the start of a pass. After the last possible pass it starts anew.
    pub open spec fn begun(self) -> RowsCacheView {
        if self.epoch == u64::MAX {
            RowsCacheView { rows: Map::empty(), epoch: 1 }
        } else {
            RowsCacheView { epoch: (self.epoch + 1) as u64, ..self }
        }
    }

    /// The cache after a row was used in the current pass. Rows that stand for no stored row are
    /// not kept.
    pub open spec fn used(self, row_id: u64, version: u64) -> RowsCacheView {
        if row_id == DUMMY_ROW_ID {
            self
        } else {
            RowsCacheView {
                rows: self.rows.insert(row_id, CachedSnapshotRow { version, epoch: self.epoch }),
                ..self
            }
        }
    }

    /// The cache after rows were used in the current pass, in order.
    pub open spec fn used_all(self, rows: Seq<(u64, u64)>) -> RowsCacheView
        decreases rows.len(),
    {
        if rows.len() == 0 {
            self
        } else {
            self.used_all(rows.drop_last()).used(rows.last().0, rows.last().1)
        }
    }

    /// The cache without the rows that were not used in the current pass.
    pub open spec fn swept(self) -> RowsCacheView {
        RowsCacheView {
            rows: self.rows.restrict(
                Set::new(
                    |row_id: u64|
                        self.rows.dom().contains(row_id) && self.rows[row_id].epoch == self.epoch,
                ),
            ),
            ..self
        }
    }
}

/// A cache after it shrank: rows leave while there are too many, and those of the current pass
/// leave only if no others are left. Which of the rows of the same kind leave is open.
pub open spec fn shrunk(
    before: RowsCacheView,
    after: RowsCacheView,
    max_entries: usize,
    target_entries: usize,
) -> bool {
    let target = smaller(target_entries, max_entries);
    if before.rows.dom().len() <= max_entries {
        after == before
    } else {
        &&& after.epoch == before.epoch
        &&& after.rows.submap_of(before.rows)
        &&& after.rows.dom().len() == target
        &&& forall|gone: u64, stays: u64|
            #![trigger before.rows.dom().contains(gone), after.rows.dom().contains(stays)]
            before.rows.dom().contains(gone) && !after.rows.dom().contains(gone)
                && before.rows[gone].epoch == before.epoch && after.rows.dom().contains(stays)
                ==> before.rows[stays].epoch == before.epoch
    }
}

/// A cache of encoded rows.
pub struct JsSnapshotRowsCache {
    rows: IdTable<CachedSnapshotRow>,
    epoch: u64,
}

impl JsSnapshotRowsCache {
    /// What the cache holds.
    pub closed spec fn view(&self) -> RowsCacheView {
        RowsCacheView { rows: self.rows@, epoch: self.epoch }
    }

    /// A cache without rows, before the first pass.
    pub fn new() -> (result: Self)
        ensures
            result@ == (RowsCacheView { rows: Map::empty(), epoch: 0 }),
    {
        JsSnapshotRowsCache { rows: IdTable::new(), epoch: 0 }
    }

    /// Tells whether a row is in the cache.
    pub fn contains(&self, row_id: u64) -> (found: bool)
        ensures
            found == self@.rows.dom().contains(row_id),
    {
        self.rows.contains_key(row_id)
    }

    /// The number of rows.
    pub fn len(&self) -> (count: usize)
        ensures
            count == self@.rows.dom().len(),
            self@.rows.dom().finite(),
    {
        let count = self.rows.len();
        proof {
            self.rows.order().unique_seq_to_set();
            vstd::seq_lib::seq_to_set_is_finite(self.rows.order());
        }
        count
    }

    /// Starts a pass.
    pub fn begin_pass(&mut self)
        ensures
            final(self)@ == old(self)@.begun(),
    {
        if self.epoch == u64::MAX {
            self.rows = IdTable::new();
            self.epoch = 1;
        } else {
            self.epoch += 1;
        }
    }

    /// Takes note of a row of the current pass, and tells whether it is encoded already.
    pub fn use_row(&mut self, row_id: u64, version: u64) -> (encoded: bool)
        ensures
            encoded == old(self)@.holds(row_id, version),
            final(self)@ == old(self)@.used(row_id, version),
    {
        if row_id == DUMMY_ROW_ID {
            return false;
        }
        let encoded = match self.rows.get(row_id) {
            Some(entry) => entry.version == version,
            None => false,
        };
        self.rows.insert(row_id, CachedSnapshotRow { version, epoch: self.epoch });
        encoded
    }

    /// Drops the rows that were not used in the current pass.
    pub fn end_pass(&mut self)
        ensures
            final(self)@ == old(self)@.swept(),
    {
        let ghost start = self@;
        let count = self.rows.len();
        let ghost order = self.rows.order();
        let mut kept: IdTable<CachedSnapshotRow> = IdTable::new();
        let mut i: usize = 0;
        while i < count
            invariant
                i <= count,
                count == order.len(),
                order == self.rows.order(),
                order.to_set() == self.rows@.dom(),
                self@ == start,
                forall|row_id: u64| #[trigger]
                    kept@.dom().contains(row_id) <==> order.take(i as int).contains(row_id)
                        && start.rows[row_id].epoch == start.epoch,
                forall|row_id: u64| #[trigger]
                    kept@.dom().contains(row_id) ==> kept@[row_id] == start.rows[row_id],
            decreases count - i,
        {
            let ghost shorter = order.take(i as int);
            let ghost longer = order.take(i + 1);
            let row_id = *self.rows.key_at(i);
            let entry = *self.rows.value_at(i);
            proof {
                assert forall|other: u64| longer.contains(other) <==> (shorter.contains(other)
                    || other == row_id) by {
                    if shorter.contains(other) {
                        let k = choose|k: int| 0 <= k < shorter.len() && shorter[k] == other;
                        assert(longer[k] == other);
                    }
                    assert(longer[i as int] == row_id);
                    if longer.contains(other) {
                        let k = choose|k: int| 0 <= k < longer.len() && longer[k] == other;
                        if k < i {
                            assert(shorter[k] == other);
                        }
                    }
                }
            }
            if entry.epoch == self.epoch {
                kept.insert(row_id, entry);
            }
            i += 1;
        }
        proof {
            assert(order.take(order.len() as int) =~= order);
            assert forall|row_id: u64| order.contains(row_id) <==> start.rows.dom().contains(
                row_id,
            ) by {
                assert(order.to_set().contains(row_id) <==> order.contains(row_id));
            }
        }
        self.rows = kept;
        assert(self@ =~= start.swept());
    }

    /// Makes a pass over the rows of a result, given by identifier and version, and tells for each
    /// whether it is encoded already. Afterwards the cache holds just the stored ones among these
    /// rows, as far as there is room for them.
    pub fn materialize(&mut self, rows: &[(u64, u64)], max_entries: usize, target_entries: usize) -> (
    encoded: Vec<bool>)
        ensures
            encoded@.len() == rows@.len(),
            forall|i: int|
                0 <= i < rows@.len() ==> #[trigger] encoded@[i] == old(self)@.begun().used_all(
                    rows@.take(i),
                ).holds(rows@[i].0, rows@[i].1),
            shrunk(
                old(self)@.begun().used_all(rows@).swept(),
                final(self)@,
                max_entries,
                target_entries,
            ),
    {
        let ghost start = self@.begun();
        self.begin_pass();
        let mut encoded: Vec<bool> = Vec::new();
        let mut i: usize = 0;
        assert(rows@.take(0) =~= Seq::empty());
        while i < rows.len()
            invariant
                i <= rows.len(),
                encoded.len() == i,
                self@ == start.used_all(rows@.take(i as int)),
                forall|j: int|
                    0 <= j < i ==> #[trigger] encoded@[j] == start.used_all(rows@.take(j)).holds(
                        rows@[j].0,
                        rows@[j].1,
                    ),
            decreases rows.len() - i,
        {
            assert(rows@.take(i + 1).drop_last() =~= rows@.take(i as int));
            assert(rows@.take(i + 1).last() == rows@[i as int]);
            let known = self.use_row(rows[i].0, rows[i].1);
            encoded.push(known);
            i += 1;
        }
        assert(rows@.take(rows@.len() as int) =~= rows@);
        self.end_pass();
        self.prune_rows_with_limits(max_entries, target_entries);
        encoded
    }

    /// Tells whether a row is encoded already, and takes note of it if not.
    pub fn use_changed_row(&mut self, row_id: u64, version: u64) -> (encoded: bool)
        ensures
            encoded == old(self)@.holds(row_id, version),
            final(self)@ == (if encoded {
                old(self)@
            } else {
                old(self)@.used(row_id, version)
            }),
    {
        if row_id == DUMMY_ROW_ID {
            return false;
        }
        let encoded = match self.rows.get(row_id) {
            Some(entry) => entry.version == version,
            None => false,
        };
        if !encoded {
            self.rows.insert(row_id, CachedSnapshotRow { version, epoch: self.epoch });
        }
        encoded
    }

    /// Drops a row.
    pub fn remove_row(&mut self, row_id: u64)
        ensures
            final(self)@ == (RowsCacheView { rows: old(self)@.rows.remove(row_id), ..old(self)@ }),
    {
        let _ = self.rows.remove(row_id);
    }

    /// Removes rows of a kind until the target is met or none is left.
    fn drop_rows(&mut self, stale: bool, target: usize)
        ensures
            final(self)@.epoch == old(self)@.epoch,
            final(self)@.rows.submap_of(old(self)@.rows),
            final(self)@.rows.dom().finite(),
            old(self)@.rows.dom().finite(),
            final(self)@.rows.dom().len() <= old(self)@.rows.dom().len(),
            old(self)@.rows.dom().len() <= target ==> final(self)@ == old(self)@,
            final(self)@.rows.dom().len() <= target ==> final(self)@.rows.dom().len() == (if old(
                self,
            )@.rows.dom().len() <= target {
                old(self)@.rows.dom().len()
            } else {
                target as nat
            }),
            final(self)@.rows.dom().len() > target ==> forall|row_id: u64| #[trigger]
                final(self)@.rows.dom().contains(row_id) ==> (old(self)@.rows[row_id].epoch != old(
                    self,
                )@.epoch) != stale,
            forall|row_id: u64| #[trigger]
                old(self)@.rows.dom().contains(row_id) && !final(self)@.rows.dom().contains(row_id)
                    ==> (old(self)@.rows[row_id].epoch != old(self)@.epoch) == stale,
    {
        let ghost start = self@;
        let count = self.rows.len();
        let ghost order = self.rows.order();
        let epoch = self.epoch;
        let mut keys: Vec<u64> = Vec::new();
        let mut k: usize = 0;
        while k < count
            invariant
                k <= count,
                count == order.len(),
                order == self.rows.order(),
                self@ == start,
                keys@ == order.take(k as int),
            decreases count - k,
        {
            keys.push(*self.rows.key_at(k));
            assert(order.take(k + 1) =~= order.take(k as int).push(order[k as int]));
            k += 1;
        }
        proof {
            assert(order.take(order.len() as int) =~= order);
            order.unique_seq_to_set();
            vstd::seq_lib::seq_to_set_is_finite(order);
        }
        let mut len = count;
        let mut i: usize = 0;
        while i < keys.len() && len > target
            invariant
                i <= keys.len(),
                keys@ == order,
                order.no_duplicates(),
                order.to_set() == start.rows.dom(),
                epoch == start.epoch,
                self@.epoch == start.epoch,
                start.rows.dom().finite(),
                self@.rows.dom().finite(),
                self@.rows.submap_of(start.rows),
                len == self@.rows.dom().len(),
                len <= target ==> len == (if start.rows.dom().len() <= target {
                    start.rows.dom().len()
                } else {
                    target as nat
                }),
                len <= start.rows.dom().len(),
                start.rows.dom().len() <= target ==> self@ == start,
                forall|row_id: u64| #[trigger]
                    self@.rows.dom().contains(row_id) <==> start.rows.dom().contains(row_id) && !(
                    order.take(i as int).contains(row_id) && (start.rows[row_id].epoch
                        != start.epoch) == stale),
            decreases keys.len() - i,
        {
            let row_id = keys[i];
            let ghost shorter = order.take(i as int);
            let ghost longer = order.take(i + 1);
            let ghost before = self@.rows;
            proof {
                assert(order.to_set().contains(order[i as int]));
                assert(!shorter.contains(row_id)) by {
                    if shorter.contains(row_id) {
                        let m = choose|m: int| 0 <= m < shorter.len() && shorter[m] == row_id;
                        assert(order[m] == order[i as int]);
                    }
                }
                assert forall|other: u64| longer.contains(other) <==> (shorter.contains(other)
                    || other == row_id) by {
                    if shorter.contains(other) {
                        let m = choose|m: int| 0 <= m < shorter.len() && shorter[m] == other;
                        assert(longer[m] == other);
                    }
                    assert(longer[i as int] == row_id);
                    if longer.contains(other) {
                        let m = choose|m: int| 0 <= m < longer.len() && longer[m] == other;
                        if m < i {
                            assert(shorter[m] == other);
                        }
                    }
                }
                assert(before.dom().contains(row_id));
            }
            let is_stale = match self.rows.get(row_id) {
                Some(entry) => entry.epoch != epoch,
                None => false,
            };
            assert(is_stale == (start.rows[row_id].epoch != start.epoch));
            if is_stale == stale {
                let _ = self.rows.remove(row_id);
                len -= 1;
                assert(self@.rows.dom() =~= before.dom().remove(row_id));
            }
            i += 1;
        }
        proof {
            if len > target {
                assert forall|row_id: u64| #[trigger]
                    self@.rows.dom().contains(row_id) implies (start.rows[row_id].epoch
                    != start.epoch) != stale by {
                    assert(order.to_set().contains(row_id));
                    assert(order.take(order.len() as int) =~= order);
                }
            }
        }
    }

    /// Shrinks the cache if it is too large.
    pub fn prune_rows_with_limits(&mut self, max_entries: usize, target_entries: usize)
        ensures
            shrunk(old(self)@, final(self)@, max_entries, target_entries),
    {
        let ghost start = self@;
        if self.len() <= max_entries {
            return;
        }
        let target = min_of(target_entries, max_entries);
        self.drop_rows(true, target);
        let ghost middle = self@;
        self.drop_rows(false, target);
        proof {
            let after = self@;
            assert(middle.rows.submap_of(start.rows));
            assert(after.rows.submap_of(middle.rows));
            assert forall|row_id: u64| #[trigger]
                after.rows.dom().contains(row_id) implies middle.rows.dom().contains(row_id)
                && start.rows.dom().contains(row_id) && after.rows[row_id] == start.rows[row_id]
                && middle.rows[row_id] == start.rows[row_id] by {
                assert(middle.rows.dom().contains(row_id));
                assert(start.rows.dom().contains(row_id));
            }
            if after.rows.dom().len() > target {
                assert(after.rows.dom() =~= Set::<u64>::empty()) by {
                    assert forall|row_id: u64| !after.rows.dom().contains(row_id) by {
                        if after.rows.dom().contains(row_id) {
                            assert(middle.rows.dom().contains(row_id));
                            assert(start.rows.dom().contains(row_id));
                            assert(middle.rows[row_id] == start.rows[row_id]);
                        }
                    }
                }
            }
            assert forall|gone: u64, stays: u64|
                #![trigger start.rows.dom().contains(gone), after.rows.dom().contains(stays)]
                start.rows.dom().contains(gone) && !after.rows.dom().contains(gone)
                    && start.rows[gone].epoch == start.epoch && after.rows.dom().contains(
                    stays,
                ) implies start.rows[stays].epoch == start.epoch by {
                assert(middle.rows.dom().contains(gone));
                assert(middle.rows.dom().contains(stays));
                assert(middle.rows[gone] == start.rows[gone]);
                assert(middle.rows[stays] == start.rows[stays]);
            }
        }
    }
}

/// The positions of the added rows of a change.
pub open spec fn added_positions(diffs: Seq<i32>) -> Seq<usize>
    decreases diffs.len(),
{
    if diffs.len() == 0 {
        Seq::empty()
    } else if diffs.last() > 0 {
        added_positions(diffs.drop_last()).push((diffs.len() - 1) as usize)
    } else {
        added_positions(diffs.drop_last())
    }
}

/// The positions of the dropped rows of a change.
pub open spec fn removed_positions(diffs: Seq<i32>) -> Seq<usize>
    decreases diffs.len(),
{
    if diffs.len() == 0 {
        Seq::empty()
    } else if diffs.last() < 0 {
        removed_positions(diffs.drop_last()).push((diffs.len() - 1) as usize)
    } else {
        removed_positions(diffs.drop_last())
    }
}

/// Parts the rows of a change into those that were added and those that were dropped.
pub fn split_deltas(diffs: &[i32]) -> (parts: (Vec<usize>, Vec<usize>))
    ensures
        parts.0@ == added_positions(diffs@),
        parts.1@ == removed_positions(diffs@),
{
    let mut added: Vec<usize> = Vec::new();
    let mut removed: Vec<usize> = Vec::new();
    let mut i: usize = 0;
    assert(diffs@.take(0) =~= Seq::empty());
    while i < diffs.len()
        invariant
            i <= diffs.len(),
            added@ == added_positions(diffs@.take(i as int)),
            removed@ == removed_positions(diffs@.take(i as int)),
        decreases diffs.len() - i,
    {
        assert(diffs@.take(i + 1).drop_last() =~= diffs@.take(i as int));
        assert(diffs@.take(i + 1).last() == diffs@[i as int]);
        if diffs[i] > 0 {
            added.push(i);
        } else if diffs[i] < 0 {
            removed.push(i);
        }
        i += 1;
    }
    assert(diffs@.take(diffs@.len() as int) =~= diffs@);
    (added, removed)
}

/// How many changes subscribers were handed, and how many rows these held.
#[derive(Clone, Copy, Debug, PartialEq, Eq, Structural)]
pub struct IvmBridgeCounts {
    pub callback_count: usize,
    pub added_row_count: usize,
    pub removed_row_count: usize,
}

impl IvmBridgeCounts {
    /// No changes.
    pub open spec fn none() -> IvmBridgeCounts {
        IvmBridgeCounts { callback_count: 0, added_row_count: 0, removed_row_count: 0 }
    }

    /// The counts of two parts of a flush together. Numbers stop at the largest one.
    pub open spec fn plus(self, other: IvmBridgeCounts) -> IvmBridgeCounts {
        IvmBridgeCounts {
            callback_count: bounded(self.callback_count + other.callback_count),
            added_row_count: bounded(self.added_row_count + other.added_row_count),
            removed_row_count: bounded(self.removed_row_count + other.removed_row_count),
        }
    }
}

/// Counts what subscribers are handed, flush by flush.
#[derive(Clone, Copy, Debug, PartialEq, Eq, Structural)]
pub struct IvmBridgeProfiler {
    pub current: IvmBridgeCounts,
    pub last: Option<IvmBridgeCounts>,
}

impl IvmBridgeProfiler {
    /// Nothing has been counted.
    pub fn new() -> (result: Self)
        ensures
            result.current == IvmBridgeCounts::none(),
            result.last is None,
    {
        IvmBridgeProfiler {
            current: IvmBridgeCounts {
                callback_count: 0,
                added_row_count: 0,
                removed_row_count: 0,
            },
            last: None,
        }
    }

    /// Starts a flush.
    pub fn begin_flush(&mut self)
        ensures
            *final(self) == (IvmBridgeProfiler {
                current: IvmBridgeCounts::none(),
                last: old(self).last,
            }),
    {
        self.current = IvmBridgeCounts {
            callback_count: 0,
            added_row_count: 0,
            removed_row_count: 0,
        };
    }

    /// Adds what a subscriber was handed.
    pub fn record_sample(&mut self, sample: &IvmBridgeCounts)
        ensures
            *final(self) == (IvmBridgeProfiler {
                current: old(self).current.plus(*sample),
                last: old(self).last,
            }),
    {
        self.current = IvmBridgeCounts {
            callback_count: self.current.callback_count.saturating_add(sample.callback_count),
            added_row_count: self.current.added_row_count.saturating_add(sample.added_row_count),
            removed_row_count: self.current.removed_row_count.saturating_add(
                sample.removed_row_count,
            ),
        };
    }

    /// Ends a flush.
    pub fn end_flush(&mut self)
        ensures
            *final(self) == (IvmBridgeProfiler {
                current: old(self).current,
                last: Some(old(self).current),
            }),
    {
        self.last = Some(self.current);
    }

    /// Takes the counts of the last flush.
    pub fn take_last(&mut self) -> (counts: Option<IvmBridgeCounts>)
        ensures
            counts == old(self).last,
            *final(self) == (IvmBridgeProfiler { current: old(self).current, last: None }),
    {
        let counts = self.last;
        self.last = None;
        counts
    }
}

proof fn lemma_used_rows(cache: RowsCacheView, rows: Seq<(u64, u64)>)
    ensures
        cache.used_all(rows).epoch == cache.epoch,
        forall|i: int|
            0 <= i < rows.len() && rows[i].0 != DUMMY_ROW_ID ==> {
                let cached = cache.used_all(rows).rows;
                cached.dom().contains((#[trigger] rows[i]).0) && cached[rows[i].0].epoch
                    == cache.epoch
            },
        forall|row_id: u64| #[trigger]
            cache.used_all(rows).rows.dom().contains(row_id) && cache.used_all(
                rows,
            ).rows[row_id].epoch == cache.epoch && !(cache.rows.dom().contains(row_id)
                && cache.rows[row_id].epoch == cache.epoch) ==> row_id != DUMMY_ROW_ID && exists|i: int|
                0 <= i < rows.len() && (#[trigger] rows[i]).0 == row_id,
    decreases rows.len(),
{
    if rows.len() > 0 {
        let front = rows.drop_last();
        lemma_used_rows(cache, front);
        assert forall|i: int| 0 <= i < rows.len() && rows[i].0 != DUMMY_ROW_ID implies {
            let cached = cache.used_all(rows).rows;
            cached.dom().contains((#[trigger] rows[i]).0) && cached[rows[i].0].epoch == cache.epoch
        } by {
            if i < front.len() {
                assert(front[i] == rows[i]);
            }
        }
        assert forall|row_id: u64| #[trigger]
            cache.used_all(rows).rows.dom().contains(row_id) && cache.used_all(
                rows,
            ).rows[row_id].epoch == cache.epoch && !(cache.rows.dom().contains(row_id)
                && cache.rows[row_id].epoch == cache.epoch) implies row_id != DUMMY_ROW_ID
            && exists|i: int| 0 <= i < rows.len() && (#[trigger] rows[i]).0 == row_id by {
            if row_id == rows.last().0 && row_id != DUMMY_ROW_ID {
                assert(rows[rows.len() - 1].0 == row_id);
            } else {
                assert(cache.used_all(front).rows.dom().contains(row_id));
                let k = choose|k: int| 0 <= k < front.len() && (#[trigger] front[k]).0 == row_id;
                assert(rows[k].0 == row_id);
            }
        }
    }
}

/// After a pass the cache holds just the stored rows of the pass: no row of an earlier result
/// stays.
pub proof fn law_pass_keeps_its_rows(cache: RowsCacheView, rows: Seq<(u64, u64)>, row_id: u64)
    requires
        forall|other: u64| #[trigger]
            cache.rows.dom().contains(other) ==> cache.rows[other].epoch <= cache.epoch,
    ensures
        cache.begun().used_all(rows).swept().rows.dom().contains(row_id) <==> row_id != DUMMY_ROW_ID
            && exists|i: int| 0 <= i < rows.len() && (#[trigger] rows[i]).0 == row_id,
{
    lemma_used_rows(cache.begun(), rows);
    let after = cache.begun().used_all(rows);
    if after.swept().rows.dom().contains(row_id) {
        assert(after.rows.dom().contains(row_id));
        assert(after.rows[row_id].epoch == after.epoch);
    }
    if row_id != DUMMY_ROW_ID && exists|i: int|
        0 <= i < rows.len() && (#[trigger] rows[i]).0 == row_id {
        let k = choose|k: int| 0 <= k < rows.len() && (#[trigger] rows[k]).0 == row_id;
        assert(after.rows.dom().contains(rows[k].0));
    }
}

/// A stored row that is used twice in passes that follow each other, in the same version, is
/// encoded once.
pub proof fn law_rows_are_encoded_once(cache: RowsCacheView, row_id: u64, version: u64)
    requires
        row_id != DUMMY_ROW_ID,
    ensures
        cache.used(row_id, version).swept().holds(row_id, version),
        cache.epoch < u64::MAX ==> cache.used(row_id, version).swept().begun().holds(
            row_id,
            version,
        ),
{
}

} // verus!
