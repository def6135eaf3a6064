//! Hash collections of row identifiers, table identifiers, names and encoded keys.
use vstd::prelude::*;

verus! {

/// A set of numbers, kept in a `hashbrown::HashSet<u64>`.
#[verifier::external_body]
pub struct NumberSet {
    inner: hashbrown::HashSet<u64>,
}

/// The numbers that a [`NumberSet`] holds.
pub uninterp spec fn number_set_contents(set: NumberSet) -> Set<u64>;

impl NumberSet {
    /// `hashbrown::HashSet::new`: the set holds nothing.
    #[verifier::external_body]
    pub(crate) fn new() -> (result: Self)
        ensures
            number_set_contents(result) == Set::<u64>::empty(),
    {
        NumberSet { inner: hashbrown::HashSet::new() }
    }

    /// `hashbrown::HashSet::insert`: adds the number and tells whether it was absent.
    #[verifier::external_body]
    pub(crate) fn insert(&mut self, number: u64) -> (added: bool)
        ensures
            number_set_contents(*final(self)) == number_set_contents(*old(self)).insert(number),
            added == !number_set_contents(*old(self)).contains(number),
    {
        self.inner.insert(number)
    }

    /// `hashbrown::HashSet::remove`: drops the number and tells whether it was present.
    #[verifier::external_body]
    pub(crate) fn remove(&mut self, number: u64) -> (removed: bool)
        ensures
            number_set_contents(*final(self)) == number_set_contents(*old(self)).remove(number),
            removed == number_set_contents(*old(self)).contains(number),
    {
        self.inner.remove(&number)
    }

    /// `hashbrown::HashSet::contains`: tells whether the number is present.
    #[verifier::external_body]
    pub(crate) fn contains(&self, number: u64) -> (found: bool)
        ensures
            found == number_set_contents(*self).contains(number),
    {
        self.inner.contains(&number)
    }

    /// `hashbrown::HashSet::iter`: every number once. The order is left open.
    #[verifier::external_body]
    pub(crate) fn items(&self) -> (numbers: Vec<u64>)
        ensures
            numbers@.no_duplicates(),
            numbers@.to_set() == number_set_contents(*self),
    {
        self.inner.iter().copied().collect()
    }
}

/// A map from identifiers to numbers, kept in a `hashbrown::HashMap<u64, u64>`.
#[verifier::external_body]
pub struct IdMap {
    inner: hashbrown::HashMap<u64, u64>,
}

/// The entries that a [`IdMap`] holds.
pub uninterp spec fn id_map_contents(map: IdMap) -> Map<u64, u64>;

impl View for IdMap {
    type V = Map<u64, u64>;

    open spec fn view(&self) -> Map<u64, u64> {
        id_map_contents(*self)
    }
}

impl IdMap {
    /// `hashbrown::HashMap::new`: the map holds nothing.
    #[verifier::external_body]
    pub(crate) fn new() -> (result: Self)
        ensures
            id_map_contents(result) == (Map::<u64, u64>::empty()),
    {
        IdMap { inner: hashbrown::HashMap::new() }
    }

    /// `hashbrown::HashMap::insert`: stores the entry in place of one with the same key.
    #[verifier::external_body]
    pub(crate) fn insert(&mut self, key: u64, value: u64)
        ensures
            id_map_contents(*final(self)) == id_map_contents(*old(self)).insert(key, value),
    {
        self.inner.insert(key, value);
    }

    /// `hashbrown::HashMap::get`: the number stored under the key.
    #[verifier::external_body]
    pub(crate) fn get(&self, key: u64) -> (value: Option<u64>)
        ensures
            value == (if id_map_contents(*self).dom().contains(key) {
                Some(id_map_contents(*self)[key])
            } else {
                None
            }),
    {
        self.inner.get(&key).copied()
    }

    /// `hashbrown::HashMap::remove`: drops the entry with the key.
    #[verifier::external_body]
    pub(crate) fn remove(&mut self, key: u64)
        ensures
            id_map_contents(*final(self)) == id_map_contents(*old(self)).remove(key),
    {
        self.inner.remove(&key);
    }
}

/// A map from names to numbers, kept in a `hashbrown::HashMap<String, u64>`.
#[verifier::external_body]
pub struct NameMap {
    inner: hashbrown::HashMap<String, u64>,
}

/// The entries that a [`NameMap`] holds.
pub uninterp spec fn name_map_contents(map: NameMap) -> Map<Seq<char>, u64>;

impl View for NameMap {
    type V = Map<Seq<char>, u64>;

    open spec fn view(&self) -> Map<Seq<char>, u64> {
        name_map_contents(*self)
    }
}

impl NameMap {
    /// `hashbrown::HashMap::new`: the map holds nothing.
    #[verifier::external_body]
    pub(crate) fn new() -> (result: Self)
        ensures
            name_map_contents(result) == (Map::<Seq<char>, u64>::empty()),
    {
        NameMap { inner: hashbrown::HashMap::new() }
    }

    /// `hashbrown::HashMap::insert`: stores the entry in place of one with the same key.
    #[verifier::external_body]
    pub(crate) fn insert(&mut self, key: String, value: u64)
        ensures
            name_map_contents(*final(self)) == name_map_contents(*old(self)).insert(key@, value),
    {
        self.inner.insert(key, value);
    }

    /// `hashbrown::HashMap::get`: the number stored under the key.
    #[verifier::external_body]
    pub(crate) fn get(&self, key: &str) -> (value: Option<u64>)
        ensures
            value == (if name_map_contents(*self).dom().contains(key@) {
                Some(name_map_contents(*self)[key@])
            } else {
                None
            }),
    {
        self.inner.get(key).copied()
    }

    /// `hashbrown::HashMap::remove`: drops the entry with the key.
    #[verifier::external_body]
    pub(crate) fn remove(&mut self, key: &str)
        ensures
            name_map_contents(*final(self)) == name_map_contents(*old(self)).remove(key@),
    {
        self.inner.remove(key);
    }
}

/// A map from byte strings to numbers, kept in a `hashbrown::HashMap<Vec<u8>, u64>`.
#[verifier::external_body]
pub struct BytesMap {
    inner: hashbrown::HashMap<Vec<u8>, u64>,
}

/// The entries that a [`BytesMap`] holds.
pub uninterp spec fn bytes_map_contents(map: BytesMap) -> Map<Seq<u8>, u64>;

impl View for BytesMap {
    type V = Map<Seq<u8>, u64>;

    open spec fn view(&self) -> Map<Seq<u8>, u64> {
        bytes_map_contents(*self)
    }
}

impl BytesMap {
    /// `hashbrown::HashMap::new`: the map holds nothing.
    #[verifier::external_body]
    pub(crate) fn new() -> (result: Self)
        ensures
            bytes_map_contents(result) == (Map::<Seq<u8>, u64>::empty()),
    {
        BytesMap { inner: hashbrown::HashMap::new() }
    }

    /// `hashbrown::HashMap::insert`: stores the entry in place of one with the same key.
    #[verifier::external_body]
    pub(crate) fn insert(&mut self, key: Vec<u8>, value: u64)
        ensures
            bytes_map_contents(*final(self)) == bytes_map_contents(*old(self)).insert(key@, value),
    {
        self.inner.insert(key, value);
    }

    /// `hashbrown::HashMap::get`: the number stored under the key.
    #[verifier::external_body]
    pub(crate) fn get(&self, key: &[u8]) -> (value: Option<u64>)
        ensures
            value == (if bytes_map_contents(*self).dom().contains(key@) {
                Some(bytes_map_contents(*self)[key@])
            } else {
                None
            }),
    {
        self.inner.get(key).copied()
    }

    /// `hashbrown::HashMap::remove`: drops the entry with the key.
    #[verifier::external_body]
    pub(crate) fn remove(&mut self, key: &[u8])
        ensures
            bytes_map_contents(*final(self)) == bytes_map_contents(*old(self)).remove(key@),
    {
        self.inner.remove(key);
    }
}

impl NameMap {
    /// `hashbrown::HashMap::values`: the stored numbers, one for each key. The order is left
    /// open.
    #[verifier::external_body]
    pub(crate) fn values(&self) -> (values: Vec<u64>)
        ensures
            values@.to_set() == name_map_contents(*self).values(),
            values@.len() == name_map_contents(*self).dom().len(),
    {
        self.inner.values().copied().collect()
    }
}

/// A set of row identifiers.
pub struct RowIdSet {
    numbers: NumberSet,
}

impl View for RowIdSet {
    type V = Set<u64>;

    closed spec fn view(&self) -> Set<u64> {
        number_set_contents(self.numbers)
    }
}

/// The numbers of a list in ascending order.
pub open spec fn ascending(numbers: Seq<u64>) -> bool {
    forall|i: int, j: int| 0 <= i < j < numbers.len() ==> numbers[i] < numbers[j]
}

/// Two ascending lists of the same numbers are the same list.
pub proof fn lemma_ascending_unique(left: Seq<u64>, right: Seq<u64>)
    requires
        ascending(left),
        ascending(right),
        left.to_set() == right.to_set(),
    ensures
        left == right,
    decreases left.len(),
{
    assert forall|x: u64| left.contains(x) == right.contains(x) by {
        assert(left.to_set().contains(x) == left.contains(x));
        assert(right.to_set().contains(x) == right.contains(x));
    }
    if left.len() == 0 {
        if right.len() > 0 {
            assert(right.contains(right[0]));
        }
        assert(left =~= right);
    } else {
        assert(left.contains(left.last()));
        assert(right.len() > 0) by {
            assert(right.contains(left.last()));
        }
        assert(right.contains(right.last()));
        let i = choose|i: int| 0 <= i < right.len() && right[i] == left.last();
        let j = choose|j: int| 0 <= j < left.len() && left[j] == right.last();
        assert(left.last() == right.last());
        let l = left.drop_last();
        let r = right.drop_last();
        assert forall|x: u64| l.to_set().contains(x) == r.to_set().contains(x) by {
            if l.contains(x) {
                let k = choose|k: int| 0 <= k < l.len() && l[k] == x;
                assert(left[k] == x);
                assert(left.contains(x));
                assert(right.contains(x));
                let m = choose|m: int| 0 <= m < right.len() && right[m] == x;
                assert(m < r.len());
                assert(r[m] == x);
            }
            if r.contains(x) {
                let k = choose|k: int| 0 <= k < r.len() && r[k] == x;
                assert(right[k] == x);
                assert(right.contains(x));
                assert(left.contains(x));
                let m = choose|m: int| 0 <= m < left.len() && left[m] == x;
                assert(m < l.len());
                assert(l[m] == x);
            }
        }
        assert(l.to_set() =~= r.to_set());
        lemma_ascending_unique(l, r);
        assert(left =~= l.push(left.last()));
        assert(right =~= r.push(right.last()));
    }
}

/// Puts distinct numbers in ascending order.
pub fn sort_ascending(numbers: &mut Vec<u64>)
    requires
        old(numbers)@.no_duplicates(),
    ensures
        ascending(final(numbers)@),
        final(numbers)@.to_set() == old(numbers)@.to_set(),
        final(numbers)@.len() == old(numbers)@.len(),
{
    let ghost given = numbers@;
    let mut sorted: Vec<u64> = Vec::new();
    let mut i: usize = 0;
    while i < numbers.len()
        invariant
            i <= numbers.len(),
            numbers@ == given,
            given.no_duplicates(),
            sorted.len() == i,
            ascending(sorted@),
            forall|x: u64| sorted@.contains(x) <==> given.take(i as int).contains(x),
        decreases numbers.len() - i,
    {
        let number = numbers[i];
        assert(!sorted@.contains(number)) by {
            if given.take(i as int).contains(number) {
                let k = choose|k: int| 0 <= k < i && given.take(i as int)[k] == number;
                assert(given[k] == number);
            }
        }
        let mut at: usize = 0;
        while at < sorted.len() && sorted[at] < number
            invariant
                at <= sorted.len(),
                forall|k: int| 0 <= k < at ==> sorted@[k] < number,
            decreases sorted.len() - at,
        {
            at += 1;
        }
        let ghost before = sorted@;
        assert(at < before.len() ==> before[at as int] != number) by {
            if at < before.len() {
                assert(before.contains(before[at as int]));
            }
        }
        sorted.insert(at, number);
        assert(ascending(sorted@)) by {
            assert forall|a: int, b: int| 0 <= a < b < sorted@.len() implies sorted@[a]
                < sorted@[b] by {
                let left = if a < at { before[a] } else if a == at { number } else { before[a - 1] };
                let right = if b < at { before[b] } else if b == at { number } else { before[b - 1] };
                assert(sorted@[a] == left && sorted@[b] == right);
                if a == at {
                    assert(number < before[at as int]);
                    if b - 1 > at {
                        assert(before[at as int] < before[b - 1]);
                    }
                }
            }
        }
        assert forall|x: u64| sorted@.contains(x) <==> given.take(i + 1).contains(x) by {
            let longer = given.take(i + 1);
            if sorted@.contains(x) {
                let k = choose|k: int| 0 <= k < sorted@.len() && sorted@[k] == x;
                if k == at {
                    assert(longer[i as int] == x);
                } else {
                    let m = if k < at { k } else { k - 1 };
                    assert(before[m] == x);
                    assert(before.contains(x));
                    assert(given.take(i as int).contains(x));
                    let p = choose|p: int| 0 <= p < i && given.take(i as int)[p] == x;
                    assert(longer[p] == x);
                }
            }
            if longer.contains(x) {
                let k = choose|k: int| 0 <= k < longer.len() && longer[k] == x;
                if k == i {
                    assert(sorted@[at as int] == x);
                } else {
                    assert(given.take(i as int)[k] == x);
                    assert(given.take(i as int).contains(x));
                    assert(before.contains(x));
                    let m = choose|m: int| 0 <= m < before.len() && before[m] == x;
                    assert(sorted@[if m < at { m } else { m + 1 }] == x);
                }
            }
        }
        i += 1;
    }
    assert(given.take(given.len() as int) =~= given);
    assert(sorted@.to_set() =~= given.to_set());
    *numbers = sorted;
}

impl RowIdSet {
    /// A set without identifiers.
    pub fn new() -> (result: Self)
        ensures
            result@ == Set::<u64>::empty(),
    {
        RowIdSet { numbers: NumberSet::new() }
    }

    /// Adds an identifier and tells whether it was absent.
    pub fn insert(&mut self, row_id: u64) -> (added: bool)
        ensures
            final(self)@ == old(self)@.insert(row_id),
            added == !old(self)@.contains(row_id),
    {
        self.numbers.insert(row_id)
    }

    /// Drops an identifier and tells whether it was present.
    pub fn remove(&mut self, row_id: u64) -> (removed: bool)
        ensures
            final(self)@ == old(self)@.remove(row_id),
            removed == old(self)@.contains(row_id),
    {
        self.numbers.remove(row_id)
    }

    /// Tells whether an identifier is present.
    pub fn contains(&self, row_id: u64) -> (found: bool)
        ensures
            found == self@.contains(row_id),
    {
        self.numbers.contains(row_id)
    }

    /// The identifiers in ascending order.
    pub fn sorted(&self) -> (ids: Vec<u64>)
        ensures
            ascending(ids@),
            ids@.to_set() == self@,
            ids@.len() == self@.len(),
    {
        let mut ids = self.numbers.items();
        proof {
            ids@.unique_seq_to_set();
        }
        sort_ascending(&mut ids);
        ids
    }

    /// The number of identifiers.
    pub fn len(&self) -> (count: usize)
        ensures
            count == self@.len(),
            self@.finite(),
    {
        let ids = self.numbers.items();
        proof {
            ids@.unique_seq_to_set();
            vstd::seq_lib::seq_to_set_is_finite(ids@);
        }
        ids.len()
    }

    /// Tells whether there are no identifiers.
    pub fn is_empty(&self) -> (empty: bool)
        ensures
            empty == (self@ == Set::<u64>::empty()),
    {
        let ids = self.numbers.items();
        proof {
            if ids@.len() == 0 {
                assert(ids@.to_set() =~= Set::<u64>::empty());
            } else {
                assert(ids@.to_set().contains(ids@[0]));
            }
        }
        ids.len() == 0
    }

    /// Adds the identifiers of a list.
    pub fn extend(&mut self, row_ids: &[u64])
        ensures
            final(self)@ == old(self)@.union(row_ids@.to_set()),
    {
        let ghost before = self@;
        let mut i: usize = 0;
        assert(before =~= before.union(row_ids@.take(0).to_set()));
        while i < row_ids.len()
            invariant
                i <= row_ids.len(),
                self@ == before.union(row_ids@.take(i as int).to_set()),
            decreases row_ids.len() - i,
        {
            self.insert(row_ids[i]);
            proof {
                let shorter = row_ids@.take(i as int);
                let longer = row_ids@.take(i + 1);
                assert forall|x: u64| longer.contains(x) <==> (shorter.contains(x) || x
                    == row_ids@[i as int]) by {
                    if shorter.contains(x) {
                        let k = choose|k: int| 0 <= k < shorter.len() && shorter[k] == x;
                        assert(longer[k] == x);
                    }
                    assert(longer[i as int] == row_ids@[i as int]);
                    if longer.contains(x) {
                        let k = choose|k: int| 0 <= k < longer.len() && longer[k] == x;
                        if k < i {
                            assert(shorter[k] == x);
                        }
                    }
                }
                assert(self@ =~= before.union(longer.to_set()));
            }
            i += 1;
        }
        assert(row_ids@.take(row_ids@.len() as int) =~= row_ids@);
    }

    /// Adds the identifiers of another set.
    pub fn extend_set(&mut self, other: &RowIdSet)
        ensures
            final(self)@ == old(self)@.union(other@),
    {
        let ids = other.numbers.items();
        self.extend(ids.as_slice());
    }

    /// Copies the set.
    pub fn copy(&self) -> (result: Self)
        ensures
            result@ == self@,
    {
        let mut result = RowIdSet::new();
        result.extend_set(self);
        assert(result@ =~= self@);
        result
    }

    /// The set of the identifiers of a list.
    pub fn from_list(row_ids: &[u64]) -> (result: Self)
        ensures
            result@ == row_ids@.to_set(),
    {
        let mut result = RowIdSet::new();
        result.extend(row_ids);
        assert(result@ =~= row_ids@.to_set());
        result
    }
}

} // verus!
