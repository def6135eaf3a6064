//! Identifiers of subscribers.
use vstd::prelude::*;

verus! {

/// The subscribers of a live result, in the order in which they came.
pub struct Subscribers {
    ids: Vec<usize>,
    next_id: usize,
}

/// What a list of subscribers holds.
#[verifier::ext_equal]
pub struct SubscribersView {
    pub ids: Seq<usize>,
    pub next_id: usize,
}

/// The identifiers of a list but for one.
pub open spec fn ids_without(ids: Seq<usize>, id: usize) -> Seq<usize>
    decreases ids.len(),
{
    if ids.len() == 0 {
        Seq::empty()
    } else if ids.last() == id {
        ids_without(ids.drop_last(), id)
    } else {
        ids_without(ids.drop_last(), id).push(ids.last())
    }
}

impl SubscribersView {
    /// No subscribers.
    pub open spec fn none() -> SubscribersView {
        SubscribersView { ids: Seq::empty(), next_id: 0 }
    }

    /// Each subscriber has an identifier of its own, which came before the next one.
    pub open spec fn well_formed(self) -> bool {
        &&& self.ids.no_duplicates()
        &&& forall|i: int| 0 <= i < self.ids.len() ==> #[trigger] self.ids[i] < self.next_id
    }

    /// The subscribers with a new one.
    pub open spec fn with(self) -> SubscribersView {
        SubscribersView { ids: self.ids.push(self.next_id), next_id: (self.next_id + 1) as usize }
    }

    /// The subscribers without one.
    pub open spec fn without(self, id: usize) -> SubscribersView {
        SubscribersView { ids: ids_without(self.ids, id), ..self }
    }
}

impl View for Subscribers {
    type V = SubscribersView;

    closed spec fn view(&self) -> SubscribersView {
        SubscribersView { ids: self.ids@, next_id: self.next_id }
    }
}

impl Subscribers {
    /// No subscribers.
    pub fn new() -> (result: Self)
        ensures
            result@ == SubscribersView::none(),
    {
        Subscribers { ids: Vec::new(), next_id: 0 }
    }

    /// Adds a subscriber and gives its identifier.
    pub fn subscribe(&mut self) -> (id: usize)
        requires
            old(self)@.next_id < usize::MAX,
        ensures
            id == old(self)@.next_id,
            final(self)@ == old(self)@.with(),
    {
        let id = self.next_id;
        self.next_id += 1;
        self.ids.push(id);
        id
    }

    /// Drops a subscriber and tells whether there was one.
    pub fn unsubscribe(&mut self, id: usize) -> (removed: bool)
        ensures
            final(self)@ == old(self)@.without(id),
            removed == old(self)@.ids.contains(id),
    {
        let ghost before = self.ids@;
        let mut kept: Vec<usize> = Vec::new();
        let mut removed = false;
        let mut i: usize = 0;
        while i < self.ids.len()
            invariant
                i <= self.ids.len(),
                before == self.ids@,
                kept@ == ids_without(before.take(i as int), id),
                removed == before.take(i as int).contains(id),
            decreases self.ids.len() - i,
        {
            let ghost shorter = before.take(i as int);
            let ghost longer = before.take(i + 1);
            proof {
                assert(longer.drop_last() =~= shorter);
                assert(longer.last() == before[i as int]);
                if shorter.contains(id) {
                    let k = choose|k: int| 0 <= k < shorter.len() && shorter[k] == id;
                    assert(longer[k] == id);
                }
                assert(longer[i as int] == before[i as int]);
                if longer.contains(id) {
                    let k = choose|k: int| 0 <= k < longer.len() && longer[k] == id;
                    if k < i {
                        assert(shorter[k] == id);
                    }
                }
            }
            if self.ids[i] != id {
                kept.push(self.ids[i]);
            } else {
                removed = true;
            }
            i += 1;
        }
        assert(before.take(before.len() as int) =~= before);
        self.ids = kept;
        removed
    }

    /// The number of subscribers.
    pub fn len(&self) -> (count: usize)
        ensures
            count == self@.ids.len(),
    {
        self.ids.len()
    }

    /// Tells whether there are no subscribers.
    pub fn is_empty(&self) -> (empty: bool)
        ensures
            empty == (self@.ids.len() == 0),
    {
        self.ids.len() == 0
    }

    /// The identifiers of the subscribers, in the order in which they came.
    pub fn ids(&self) -> (ids: &[usize])
        ensures
            ids@ == self@.ids,
    {
        self.ids.as_slice()
    }
}

/// Subscribing and unsubscribing keep the identifiers apart. A new subscriber is none of the
/// others, and dropping it leaves the others as they were.
pub proof fn law_subscribers_stay_apart(subscribers: SubscribersView, id: usize)
    requires
        subscribers.well_formed(),
        subscribers.next_id < usize::MAX,
    ensures
        subscribers.with().well_formed(),
        subscribers.without(id).well_formed(),
        !subscribers.ids.contains(subscribers.next_id),
        subscribers.with().without(subscribers.next_id).ids == subscribers.ids,
{
    let with = subscribers.with();
    let new = subscribers.next_id;
    assert forall|i: int| 0 <= i < with.ids.len() implies #[trigger] with.ids[i] < with.next_id by {
        if i < subscribers.ids.len() {
            assert(with.ids[i] == subscribers.ids[i]);
        }
    }
    assert forall|i: int, j: int| 0 <= i < j < with.ids.len() implies with.ids[i] != with.ids[j] by {
        assert(with.ids[i] == subscribers.ids[i]);
    }
    lemma_ids_without(subscribers.ids, id, new);
    assert forall|i: int| 0 <= i < subscribers.ids.len() implies subscribers.ids[i] != new by {}
    lemma_nothing_dropped(subscribers.ids, new);
    assert(with.ids.drop_last() =~= subscribers.ids);
}

proof fn lemma_ids_without(ids: Seq<usize>, id: usize, bound: usize)
    requires
        ids.no_duplicates(),
        forall|i: int| 0 <= i < ids.len() ==> #[trigger] ids[i] < bound,
    ensures
        ids_without(ids, id).no_duplicates(),
        forall|i: int|
            0 <= i < ids_without(ids, id).len() ==> (#[trigger] ids_without(ids, id)[i]) < bound
                && ids.contains(ids_without(ids, id)[i]),
    decreases ids.len(),
{
    if ids.len() > 0 {
        let shorter = ids.drop_last();
        assert forall|i: int| 0 <= i < shorter.len() implies #[trigger] shorter[i] < bound by {
            assert(shorter[i] == ids[i]);
        }
        lemma_ids_without(shorter, id, bound);
        let before = ids_without(shorter, id);
        let kept = ids_without(ids, id);
        assert forall|i: int| 0 <= i < kept.len() implies (#[trigger] kept[i]) < bound
            && ids.contains(kept[i]) by {
            if i < before.len() {
                assert(kept[i] == before[i]);
                let k = choose|k: int| 0 <= k < shorter.len() && shorter[k] == before[i];
                assert(ids[k] == kept[i]);
            } else {
                assert(ids[ids.len() - 1] == kept[i]);
            }
        }
        assert forall|i: int, j: int| 0 <= i < j < kept.len() implies kept[i] != kept[j] by {
            assert(kept[i] == before[i]);
            let k = choose|k: int| 0 <= k < shorter.len() && shorter[k] == before[i];
            if j == before.len() {
                assert(ids[k] != ids[ids.len() - 1]);
            } else {
                assert(kept[j] == before[j]);
            }
        }
    }
}

proof fn lemma_nothing_dropped(ids: Seq<usize>, id: usize)
    requires
        forall|i: int| 0 <= i < ids.len() ==> #[trigger] ids[i] != id,
    ensures
        ids_without(ids, id) == ids,
    decreases ids.len(),
{
    if ids.len() > 0 {
        let shorter = ids.drop_last();
        assert forall|i: int| 0 <= i < shorter.len() implies #[trigger] shorter[i] != id by {
            assert(shorter[i] == ids[i]);
        }
        lemma_nothing_dropped(shorter, id);
        assert(ids[ids.len() - 1] != id);
        assert(shorter.push(ids.last()) =~= ids);
    }
}

/// A subscriber that leaves leaves the others as they are, in their order.
pub proof fn law_leaving_keeps_other_subscribers(ids: Seq<usize>, id: usize, other: usize)
    ensures
        ids_without(ids, id).contains(other) <==> ids.contains(other) && other != id,
        !ids.contains(id) ==> ids_without(ids, id) == ids,
    decreases ids.len(),
{
    if ids.len() > 0 {
        let front = ids.drop_last();
        law_leaving_keeps_other_subscribers(front, id, other);
        let before = ids_without(front, id);
        let after = ids_without(ids, id);
        if front.contains(other) {
            assert(ids[front.index_of(other)] == other);
        }
        if front.contains(id) {
            assert(ids[front.index_of(id)] == id);
        }
        if ids.contains(other) && other != ids.last() {
            assert(front[ids.index_of(other)] == other);
        }
        assert(ids[ids.len() - 1] == ids.last());
        if ids.last() != id {
            assert(after[before.len() as int] == ids.last());
            if before.contains(other) {
                assert(after[before.index_of(other)] == other);
            }
            if after.contains(other) && other != ids.last() {
                assert(before[after.index_of(other)] == other);
            }
        }
        if !ids.contains(id) {
            assert(front.push(ids.last()) =~= ids);
        }
    }
}

} // verus!
