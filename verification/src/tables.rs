//! Maps with an order of entries, kept by hash indexes.
//!
//! The keys and values of a table stand in two lists. A hash index leads from the code of a key to
//! the position of its entry.
use vstd::prelude::*;

use crate::collections::{BytesMap, IdMap, NameMap};
use crate::root_key::{encode_key, key_code, law_key_code_injective};
use crate::value::{values_view, Value, ValueView};

verus! {

/// The index leads from each code of the list to its position, and from nothing else.
spec fn indexes<C>(index: Map<C, u64>, codes: Seq<C>) -> bool {
    &&& forall|i: int|
        0 <= i < codes.len() ==> index.dom().contains(#[trigger] codes[i]) && index[codes[i]] == i
    &&& forall|code: C| #[trigger]
        index.dom().contains(code) ==> index[code] < codes.len() && codes[index[code] as int]
            == code
}

/// The values that an index leads to.
spec fn entries<C, V>(index: Map<C, u64>, values: Seq<V>) -> Map<C, V> {
    index.map_values(|position: u64| values[position as int])
}

/// A list without the item at a position, which the last item takes.
spec fn swapped_out<T>(list: Seq<T>, at: int) -> Seq<T> {
    list.update(at, list.last()).drop_last()
}

/// An index after the entry of a code left and the last entry took its place.
spec fn index_without<C>(index: Map<C, u64>, codes: Seq<C>, code: C) -> Map<C, u64> {
    let last = codes.len() - 1;
    if index[code] < last {
        index.remove(code).insert(codes[last], index[code])
    } else {
        index.remove(code)
    }
}

proof fn lemma_codes_listed_once<C>(index: Map<C, u64>, codes: Seq<C>)
    requires
        indexes(index, codes),
    ensures
        codes.no_duplicates(),
        codes.to_set() == index.dom(),
{
    assert forall|code: C| codes.to_set().contains(code) <==> index.dom().contains(code) by {
        if index.dom().contains(code) {
            assert(codes.contains(codes[index[code] as int]));
        }
    }
    assert(codes.to_set() =~= index.dom());
}

proof fn lemma_entry_replaced<C, V>(
    index: Map<C, u64>,
    codes: Seq<C>,
    values: Seq<V>,
    code: C,
    value: V,
)
    requires
        indexes(index, codes),
        codes.len() == values.len(),
        index.dom().contains(code),
    ensures
        entries(index, values.update(index[code] as int, value)) == entries(index, values).insert(
            code,
            value,
        ),
{
    assert(entries(index, values.update(index[code] as int, value)) =~= entries(
        index,
        values,
    ).insert(code, value));
}

proof fn lemma_entry_added<C, V>(
    index: Map<C, u64>,
    codes: Seq<C>,
    values: Seq<V>,
    code: C,
    value: V,
)
    requires
        indexes(index, codes),
        codes.len() == values.len(),
        codes.len() <= u64::MAX,
        !index.dom().contains(code),
    ensures
        indexes(index.insert(code, codes.len() as u64), codes.push(code)),
        entries(index.insert(code, codes.len() as u64), values.push(value)) == entries(
            index,
            values,
        ).insert(code, value),
{
    let longer = codes.push(code);
    assert forall|i: int| 0 <= i < longer.len() implies index.insert(
        code,
        codes.len() as u64,
    ).dom().contains(#[trigger] longer[i]) && index.insert(code, codes.len() as u64)[longer[i]]
        == i by {
        if i < codes.len() {
            assert(longer[i] == codes[i]);
        }
    }
    assert(entries(index.insert(code, codes.len() as u64), values.push(value)) =~= entries(
        index,
        values,
    ).insert(code, value));
}

proof fn lemma_entry_removed<C, V>(index: Map<C, u64>, codes: Seq<C>, values: Seq<V>, code: C)
    requires
        indexes(index, codes),
        codes.len() == values.len(),
        index.dom().contains(code),
    ensures
        indexes(index_without(index, codes, code), swapped_out(codes, index[code] as int)),
        entries(
            index_without(index, codes, code),
            swapped_out(values, index[code] as int),
        ) == entries(index, values).remove(code),
{
    let at = index[code] as int;
    let last = codes.len() - 1;
    let after = index_without(index, codes, code);
    let left = swapped_out(codes, at);
    assert(codes[at] == code);
    assert forall|i: int| 0 <= i < left.len() implies after.dom().contains(#[trigger] left[i])
        && after[left[i]] == i by {
        if i == at {
            assert(left[i] == codes[last]);
        } else {
            assert(left[i] == codes[i]);
            assert(index[codes[i]] == i);
            assert(index[codes[last]] == last);
        }
    }
    assert forall|other: C| #[trigger] after.dom().contains(other) implies after[other]
        < left.len() && left[after[other] as int] == other by {
        assert(index.dom().contains(codes[last]));
        assert(codes[index[other] as int] == other);
    }
    assert(entries(after, swapped_out(values, at)) =~= entries(index, values).remove(code));
}

/// A map keyed by numbers. Its entries have an order, in which new keys come last.
pub struct IdTable<V> {
    index: IdMap,
    keys: Vec<u64>,
    values: Vec<V>,
}

impl<V> IdTable<V> {
    #[verifier::type_invariant]
    spec fn consistent(self) -> bool {
        &&& self.keys@.len() == self.values@.len()
        &&& indexes(self.index@, self.order())
    }

    /// The keys in order.
    pub closed spec fn order(&self) -> Seq<u64> {
        self.keys@
    }

    /// The entries.
    pub closed spec fn view(&self) -> Map<u64, V> {
        entries(self.index@, self.values@)
    }

    /// A map without entries.
    pub fn new() -> (result: Self)
        ensures
            result@ == Map::<u64, V>::empty(),
            result.order() == Seq::<u64>::empty(),
    {
        let result = IdTable { index: IdMap::new(), keys: Vec::new(), values: Vec::new() };
        assert(result@ =~= Map::<u64, V>::empty());
        assert(result.order() =~= Seq::<u64>::empty());
        result
    }

    /// The number of entries. The order lists each key once.
    pub fn len(&self) -> (count: usize)
        ensures
            count == self.order().len(),
            self.order().no_duplicates(),
            self.order().to_set() == self@.dom(),
    {
        proof {
            use_type_invariant(self);
            lemma_codes_listed_once(self.index@, self.order());
        }
        self.keys.len()
    }

    /// The key at a position of the order.
    pub fn key_at(&self, position: usize) -> (key: &u64)
        requires
            position < self.order().len(),
        ensures
            *key == self.order()[position as int],
    {
        &self.keys[position]
    }

    /// The value at a position of the order.
    pub fn value_at(&self, position: usize) -> (value: &V)
        requires
            position < self.order().len(),
        ensures
            self@.dom().contains(self.order()[position as int]),
            *value == self@[self.order()[position as int]],
    {
        proof {
            use_type_invariant(self);
            assert(self.index@[self.order()[position as int]] == position);
        }
        &self.values[position]
    }

    /// Tells whether there is an entry with the key.
    pub fn contains_key(&self, key: u64) -> (found: bool)
        ensures
            found == self@.dom().contains(key),
    {
        self.index.get(key).is_some()
    }

    /// The value of the entry with the key.
    pub fn get(&self, key: u64) -> (value: Option<&V>)
        ensures
            match value {
                Some(value) => self@.dom().contains(key) && *value == self@[key],
                None => !self@.dom().contains(key),
            },
    {
        proof {
            use_type_invariant(self);
        }
        match self.index.get(key) {
            Some(position) => {
                assert(position < self.values.len());
                Some(&self.values[position as usize])
            },
            None => None,
        }
    }

    /// Stores an entry in place of one with the same key.
    pub fn insert(&mut self, key: u64, value: V)
        ensures
            final(self)@ == old(self)@.insert(key, value),
            final(self).order() == (if old(self)@.dom().contains(key) {
                old(self).order()
            } else {
                old(self).order().push(key)
            }),
    {
        proof {
            use_type_invariant(&*self);
        }
        let mut table = IdTable::new();
        core::mem::swap(self, &mut table);
        let ghost before = table;
        let ghost codes = before.order();
        let IdTable { mut index, mut keys, mut values } = table;
        match index.get(key) {
            Some(position) => {
                assert(position < values.len());
                values.set(position as usize, value);
                proof {
                    lemma_entry_replaced(before.index@, codes, before.values@, key, value);
                }
            },
            None => {
                index.insert(key, keys.len() as u64);
                keys.push(key);
                values.push(value);
                proof {
                    lemma_entry_added(before.index@, codes, before.values@, key, value);
                }
            },
        }
        *self = IdTable { index, keys, values };
        proof {
            if before@.dom().contains(key) {
                assert(self.order() =~= before.order());
            } else {
                assert(self.order() =~= before.order().push(key));
            }
        }
    }

    /// Puts a value in place of that of the entry with the key, and hands the old value out.
    /// Without such an entry nothing changes.
    pub fn replace(&mut self, key: u64, value: V) -> (previous: Option<V>)
        ensures
            final(self).order() == old(self).order(),
            match previous {
                Some(previous) => old(self)@.dom().contains(key) && previous
                    == old(self)@[key] && final(self)@ == old(self)@.insert(key, value),
                None => !old(self)@.dom().contains(key) && final(self)@ == old(self)@,
            },
    {
        proof {
            use_type_invariant(&*self);
        }
        let mut table = IdTable::new();
        core::mem::swap(self, &mut table);
        let ghost before = table;
        let IdTable { index, keys, mut values } = table;
        match index.get(key) {
            Some(position) => {
                assert(position < values.len());
                let at = position as usize;
                values.push(value);
                let previous = values.swap_remove(at);
                assert(values@ =~= before.values@.update(at as int, value));
                *self = IdTable { index, keys, values };
                proof {
                    lemma_entry_replaced(
                        before.index@,
                        before.order(),
                        before.values@,
                        key,
                        value,
                    );
                }
                Some(previous)
            },
            None => {
                *self = IdTable { index, keys, values };
                None
            },
        }
    }

    /// Takes out the entry with the key.
    pub fn remove(&mut self, key: u64) -> (value: Option<V>)
        ensures
            final(self)@ == old(self)@.remove(key),
            match value {
                Some(value) => old(self)@.dom().contains(key) && value == old(self)@[key],
                None => !old(self)@.dom().contains(key) && final(self).order()
                    == old(self).order(),
            },
    {
        proof {
            use_type_invariant(&*self);
        }
        let mut table = IdTable::new();
        core::mem::swap(self, &mut table);
        let ghost before = table;
        let ghost codes = before.order();
        let IdTable { mut index, mut keys, mut values } = table;
        match index.get(key) {
            Some(position) => {
                assert(position < values.len());
                let at = position as usize;
                let last: usize = keys.len() - 1;
                index.remove(key);
                if at < last {
                    index.insert(keys[last], position);
                }
                keys.swap_remove(at);
                let value = values.swap_remove(at);
                proof {
                    lemma_entry_removed(before.index@, codes, before.values@, key);
                    assert(codes.len() == last + 1);
                }
                *self = IdTable { index, keys, values };
                Some(value)
            },
            None => {
                *self = IdTable { index, keys, values };
                assert(self@ =~= before@.remove(key));
                None
            },
        }
    }
}

/// A map keyed by names. Its entries have an order, in which new keys come last.
pub struct NameTable<V> {
    index: NameMap,
    keys: Vec<String>,
    values: Vec<V>,
}

impl<V> NameTable<V> {
    #[verifier::type_invariant]
    spec fn consistent(self) -> bool {
        &&& self.keys@.len() == self.values@.len()
        &&& indexes(self.index@, self.order())
    }

    /// The keys in order.
    pub closed spec fn order(&self) -> Seq<Seq<char>> {
        self.keys@.map_values(|key: String| key@)
    }

    /// The entries.
    pub closed spec fn view(&self) -> Map<Seq<char>, V> {
        entries(self.index@, self.values@)
    }

    /// A map without entries.
    pub fn new() -> (result: Self)
        ensures
            result@ == Map::<Seq<char>, V>::empty(),
            result.order() == Seq::<Seq<char>>::empty(),
    {
        let result = NameTable { index: NameMap::new(), keys: Vec::new(), values: Vec::new() };
        assert(result@ =~= Map::<Seq<char>, V>::empty());
        assert(result.order() =~= Seq::<Seq<char>>::empty());
        result
    }

    /// The number of entries. The order lists each key once.
    pub fn len(&self) -> (count: usize)
        ensures
            count == self.order().len(),
            self.order().no_duplicates(),
            self.order().to_set() == self@.dom(),
    {
        proof {
            use_type_invariant(self);
            lemma_codes_listed_once(self.index@, self.order());
        }
        self.keys.len()
    }

    /// The key at a position of the order.
    pub fn key_at(&self, position: usize) -> (key: &String)
        requires
            position < self.order().len(),
        ensures
            key@ == self.order()[position as int],
    {
        &self.keys[position]
    }

    /// The value at a position of the order.
    pub fn value_at(&self, position: usize) -> (value: &V)
        requires
            position < self.order().len(),
        ensures
            self@.dom().contains(self.order()[position as int]),
            *value == self@[self.order()[position as int]],
    {
        proof {
            use_type_invariant(self);
            assert(self.index@[self.order()[position as int]] == position);
        }
        &self.values[position]
    }

    /// Tells whether there is an entry with the key.
    pub fn contains_key(&self, key: &str) -> (found: bool)
        ensures
            found == self@.dom().contains(key@),
    {
        self.index.get(key).is_some()
    }

    /// The value of the entry with the key.
    pub fn get(&self, key: &str) -> (value: Option<&V>)
        ensures
            match value {
                Some(value) => self@.dom().contains(key@) && *value == self@[key@],
                None => !self@.dom().contains(key@),
            },
    {
        proof {
            use_type_invariant(self);
        }
        match self.index.get(key) {
            Some(position) => {
                assert(position < self.values.len());
                Some(&self.values[position as usize])
            },
            None => None,
        }
    }

    /// Stores an entry in place of one with the same key.
    pub fn insert(&mut self, key: String, value: V)
        ensures
            final(self)@ == old(self)@.insert(key@, value),
            final(self).order() == (if old(self)@.dom().contains(key@) {
                old(self).order()
            } else {
                old(self).order().push(key@)
            }),
    {
        proof {
            use_type_invariant(&*self);
        }
        let mut table = NameTable::new();
        core::mem::swap(self, &mut table);
        let ghost before = table;
        let ghost codes = before.order();
        let NameTable { mut index, mut keys, mut values } = table;
        match index.get(key.as_str()) {
            Some(position) => {
                assert(position < values.len());
                values.set(position as usize, value);
                proof {
                    lemma_entry_replaced(before.index@, codes, before.values@, key@, value);
                }
            },
            None => {
                index.insert(key.clone(), keys.len() as u64);
                keys.push(key);
                values.push(value);
                proof {
                    lemma_entry_added(before.index@, codes, before.values@, key@, value);
                    assert(keys@.map_values(|key: String| key@) =~= codes.push(key@));
                }
            },
        }
        *self = NameTable { index, keys, values };
        proof {
            if before@.dom().contains(key@) {
                assert(self.order() =~= before.order());
            } else {
                assert(self.order() =~= before.order().push(key@));
            }
        }
    }

    /// Puts a value in place of that of the entry with the key, and hands the old value out.
    /// Without such an entry nothing changes.
    pub fn replace(&mut self, key: &str, value: V) -> (previous: Option<V>)
        ensures
            final(self).order() == old(self).order(),
            match previous {
                Some(previous) => old(self)@.dom().contains(key@) && previous
                    == old(self)@[key@] && final(self)@ == old(self)@.insert(key@, value),
                None => !old(self)@.dom().contains(key@) && final(self)@ == old(self)@,
            },
    {
        proof {
            use_type_invariant(&*self);
        }
        let mut table = NameTable::new();
        core::mem::swap(self, &mut table);
        let ghost before = table;
        let NameTable { index, keys, mut values } = table;
        match index.get(key) {
            Some(position) => {
                assert(position < values.len());
                let at = position as usize;
                values.push(value);
                let previous = values.swap_remove(at);
                assert(values@ =~= before.values@.update(at as int, value));
                *self = NameTable { index, keys, values };
                proof {
                    lemma_entry_replaced(
                        before.index@,
                        before.order(),
                        before.values@,
                        key@,
                        value,
                    );
                }
                Some(previous)
            },
            None => {
                *self = NameTable { index, keys, values };
                None
            },
        }
    }

    /// Takes out the entry with the key.
    pub fn remove(&mut self, key: &str) -> (value: Option<V>)
        ensures
            final(self)@ == old(self)@.remove(key@),
            match value {
                Some(value) => old(self)@.dom().contains(key@) && value == old(self)@[key@],
                None => !old(self)@.dom().contains(key@) && final(self).order()
                    == old(self).order(),
            },
    {
        proof {
            use_type_invariant(&*self);
        }
        let mut table = NameTable::new();
        core::mem::swap(self, &mut table);
        let ghost before = table;
        let ghost codes = before.order();
        let NameTable { mut index, mut keys, mut values } = table;
        match index.get(key) {
            Some(position) => {
                assert(position < values.len());
                let at = position as usize;
                let last: usize = keys.len() - 1;
                index.remove(key);
                if at < last {
                    index.insert(keys[last].clone(), position);
                }
                keys.swap_remove(at);
                let value = values.swap_remove(at);
                proof {
                    lemma_entry_removed(before.index@, codes, before.values@, key@);
                    assert(codes.len() == last + 1);
                    assert(keys@.map_values(|key: String| key@) =~= swapped_out(codes, at as int));
                }
                *self = NameTable { index, keys, values };
                Some(value)
            },
            None => {
                *self = NameTable { index, keys, values };
                assert(self@ =~= before@.remove(key@));
                None
            },
        }
    }
}

/// The codes of keys.
spec fn codes_of(keys: Seq<Seq<ValueView>>) -> Seq<Seq<u8>> {
    keys.map_values(|key: Seq<ValueView>| key_code(key))
}

/// The entries under the keys that codes stand for.
spec fn decoded<V>(coded: Map<Seq<u8>, V>) -> Map<Seq<ValueView>, V> {
    Map::new(
        |key: Seq<ValueView>| coded.dom().contains(key_code(key)),
        |key: Seq<ValueView>| coded[key_code(key)],
    )
}

proof fn lemma_decoded<V>(coded: Map<Seq<u8>, V>, key: Seq<ValueView>, value: V)
    ensures
        decoded(coded.insert(key_code(key), value)) == decoded(coded).insert(key, value),
{
    assert forall|other: Seq<ValueView>| key_code(other) == key_code(key) implies other == key by {
        law_key_code_injective(other, key);
    }
    assert(decoded(coded.insert(key_code(key), value)) =~= decoded(coded).insert(key, value));
}

proof fn lemma_decoded_without<V>(coded: Map<Seq<u8>, V>, key: Seq<ValueView>)
    ensures
        decoded(coded.remove(key_code(key))) == decoded(coded).remove(key),
{
    assert forall|other: Seq<ValueView>| key_code(other) == key_code(key) implies other == key by {
        law_key_code_injective(other, key);
    }
    assert(decoded(coded.remove(key_code(key))) =~= decoded(coded).remove(key));
}

proof fn lemma_decoded_keys(index: Map<Seq<u8>, u64>, keys: Seq<Seq<ValueView>>)
    requires
        indexes(index, codes_of(keys)),
    ensures
        keys.no_duplicates(),
        forall|key: Seq<ValueView>| #[trigger]
            keys.to_set().contains(key) <==> index.dom().contains(key_code(key)),
{
    let codes = codes_of(keys);
    assert forall|i: int, j: int| 0 <= i < j < keys.len() implies keys[i] != keys[j] by {
        assert(index[codes[i]] != index[codes[j]]);
    }
    assert forall|key: Seq<ValueView>| #[trigger]
        keys.to_set().contains(key) <==> index.dom().contains(key_code(key)) by {
        if keys.contains(key) {
            let i = choose|i: int| 0 <= i < keys.len() && keys[i] == key;
            assert(codes[i] == key_code(key));
        }
        if index.dom().contains(key_code(key)) {
            let i = index[key_code(key)] as int;
            assert(codes[i] == key_code(key));
            law_key_code_injective(keys[i], key);
            assert(keys.contains(keys[i]));
        }
    }
}

/// A map keyed by lists of values. Its entries have an order, in which new keys come last.
pub struct RootTable<V> {
    index: BytesMap,
    keys: Vec<Vec<Value>>,
    values: Vec<V>,
}

impl<V> RootTable<V> {
    #[verifier::type_invariant]
    spec fn consistent(self) -> bool {
        &&& self.keys@.len() == self.values@.len()
        &&& indexes(self.index@, codes_of(self.order()))
    }

    /// The keys in order.
    pub closed spec fn order(&self) -> Seq<Seq<ValueView>> {
        self.keys@.map_values(|key: Vec<Value>| values_view(key@))
    }

    /// The entries.
    pub closed spec fn view(&self) -> Map<Seq<ValueView>, V> {
        decoded(entries(self.index@, self.values@))
    }

    /// A map without entries.
    pub fn new() -> (result: Self)
        ensures
            result@ == Map::<Seq<ValueView>, V>::empty(),
            result.order() == Seq::<Seq<ValueView>>::empty(),
    {
        let result = RootTable { index: BytesMap::new(), keys: Vec::new(), values: Vec::new() };
        assert(result@ =~= Map::<Seq<ValueView>, V>::empty());
        assert(result.order() =~= Seq::<Seq<ValueView>>::empty());
        result
    }

    /// The number of entries. The order lists each key once.
    pub fn len(&self) -> (count: usize)
        ensures
            count == self.order().len(),
            self.order().no_duplicates(),
            self.order().to_set() == self@.dom(),
    {
        proof {
            use_type_invariant(self);
            lemma_codes_listed_once(self.index@, codes_of(self.order()));
            lemma_decoded_keys(self.index@, self.order());
            assert(self.order().to_set() =~= self@.dom());
        }
        self.keys.len()
    }

    /// The key at a position of the order.
    pub fn key_at(&self, position: usize) -> (key: &Vec<Value>)
        requires
            position < self.order().len(),
        ensures
            values_view(key@) == self.order()[position as int],
    {
        &self.keys[position]
    }

    /// The value at a position of the order.
    pub fn value_at(&self, position: usize) -> (value: &V)
        requires
            position < self.order().len(),
        ensures
            self@.dom().contains(self.order()[position as int]),
            *value == self@[self.order()[position as int]],
    {
        proof {
            use_type_invariant(self);
            assert(self.index@[codes_of(self.order())[position as int]] == position);
        }
        &self.values[position]
    }

    /// Tells whether there is an entry with the key.
    pub fn contains_key(&self, key: &[Value]) -> (found: bool)
        ensures
            found == self@.dom().contains(values_view(key@)),
    {
        self.index.get(encode_key(key).as_slice()).is_some()
    }

    /// The value of the entry with the key.
    pub fn get(&self, key: &[Value]) -> (value: Option<&V>)
        ensures
            match value {
                Some(value) => self@.dom().contains(values_view(key@)) && *value
                    == self@[values_view(key@)],
                None => !self@.dom().contains(values_view(key@)),
            },
    {
        proof {
            use_type_invariant(self);
        }
        match self.index.get(encode_key(key).as_slice()) {
            Some(position) => {
                assert(position < self.values.len());
                Some(&self.values[position as usize])
            },
            None => None,
        }
    }

    /// Stores an entry in place of one with the same key.
    pub fn insert(&mut self, key: Vec<Value>, value: V)
        ensures
            final(self)@ == old(self)@.insert(values_view(key@), value),
            final(self).order() == (if old(self)@.dom().contains(values_view(key@)) {
                old(self).order()
            } else {
                old(self).order().push(values_view(key@))
            }),
    {
        proof {
            use_type_invariant(&*self);
        }
        let mut table = RootTable::new();
        core::mem::swap(self, &mut table);
        let ghost before = table;
        let ghost codes = codes_of(before.order());
        let RootTable { mut index, mut keys, mut values } = table;
        match index.get(encode_key(key.as_slice()).as_slice()) {
            Some(position) => {
                assert(position < values.len());
                values.set(position as usize, value);
                proof {
                    lemma_entry_replaced(
                        before.index@,
                        codes,
                        before.values@,
                        key_code(values_view(key@)),
                        value,
                    );
                }
            },
            None => {
                index.insert(encode_key(key.as_slice()), keys.len() as u64);
                keys.push(key);
                values.push(value);
                proof {
                    lemma_entry_added(
                        before.index@,
                        codes,
                        before.values@,
                        key_code(values_view(key@)),
                        value,
                    );
                    assert(codes_of(keys@.map_values(|key: Vec<Value>| values_view(key@)))
                        =~= codes.push(key_code(values_view(key@))));
                }
            },
        }
        *self = RootTable { index, keys, values };
        proof {
            lemma_decoded(entries(before.index@, before.values@), values_view(key@), value);
            if before@.dom().contains(values_view(key@)) {
                assert(self.order() =~= before.order());
            } else {
                assert(self.order() =~= before.order().push(values_view(key@)));
            }
        }
    }

    /// Puts a value in place of that of the entry with the key, and hands the old value out.
    /// Without such an entry nothing changes.
    pub fn replace(&mut self, key: &[Value], value: V) -> (previous: Option<V>)
        ensures
            final(self).order() == old(self).order(),
            match previous {
                Some(previous) => old(self)@.dom().contains(values_view(key@)) && previous
                    == old(self)@[values_view(key@)] && final(self)@ == old(self)@.insert(
                    values_view(key@),
                    value,
                ),
                None => !old(self)@.dom().contains(values_view(key@)) && final(self)@ == old(self)@,
            },
    {
        proof {
            use_type_invariant(&*self);
        }
        let mut table = RootTable::new();
        core::mem::swap(self, &mut table);
        let ghost before = table;
        let RootTable { index, keys, mut values } = table;
        match index.get(encode_key(key).as_slice()) {
            Some(position) => {
                assert(position < values.len());
                let at = position as usize;
                values.push(value);
                let previous = values.swap_remove(at);
                assert(values@ =~= before.values@.update(at as int, value));
                *self = RootTable { index, keys, values };
                proof {
                    lemma_entry_replaced(
                        before.index@,
                        codes_of(before.order()),
                        before.values@,
                        key_code(values_view(key@)),
                        value,
                    );
                    lemma_decoded(entries(before.index@, before.values@), values_view(key@), value);
                }
                Some(previous)
            },
            None => {
                *self = RootTable { index, keys, values };
                None
            },
        }
    }

    /// Takes out the entry with the key.
    pub fn remove(&mut self, key: &[Value]) -> (value: Option<V>)
        ensures
            final(self)@ == old(self)@.remove(values_view(key@)),
            match value {
                Some(value) => old(self)@.dom().contains(values_view(key@)) && value == old(
                    self,
                )@[values_view(key@)],
                None => !old(self)@.dom().contains(values_view(key@)) && final(self).order()
                    == old(self).order(),
            },
    {
        proof {
            use_type_invariant(&*self);
        }
        let mut table = RootTable::new();
        core::mem::swap(self, &mut table);
        let ghost before = table;
        let ghost codes = codes_of(before.order());
        let RootTable { mut index, mut keys, mut values } = table;
        match index.get(encode_key(key).as_slice()) {
            Some(position) => {
                assert(position < values.len());
                let at = position as usize;
                let last: usize = keys.len() - 1;
                index.remove(encode_key(key).as_slice());
                if at < last {
                    index.insert(encode_key(keys[last].as_slice()), position);
                }
                keys.swap_remove(at);
                let value = values.swap_remove(at);
                proof {
                    lemma_entry_removed(
                        before.index@,
                        codes,
                        before.values@,
                        key_code(values_view(key@)),
                    );
                    assert(codes.len() == last + 1);
                    assert(codes_of(keys@.map_values(|key: Vec<Value>| values_view(key@)))
                        =~= swapped_out(codes, at as int));
                }
                *self = RootTable { index, keys, values };
                proof {
                    lemma_decoded_without(
                        entries(before.index@, before.values@),
                        values_view(key@),
                    );
                }
                Some(value)
            },
            None => {
                *self = RootTable { index, keys, values };
                assert(self@ =~= before@.remove(values_view(key@)));
                None
            },
        }
    }
}

} // verus!
