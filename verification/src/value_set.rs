//! Sets of values.
use vstd::prelude::*;

use crate::tables::RootTable;
use crate::value::{values_view, Value, ValueView};

verus! {

/// A set of values.
pub struct ValueSet {
    keys: RootTable<()>,
}

impl View for ValueSet {
    type V = Set<ValueView>;

    closed spec fn view(&self) -> Set<ValueView> {
        Set::new(|value: ValueView| self.keys@.dom().contains(seq![value]))
    }
}

fn single(value: &Value) -> (key: Vec<Value>)
    ensures
        values_view(key@) == seq![value@],
{
    let mut key: Vec<Value> = Vec::new();
    key.push(value.clone());
    assert(values_view(key@) =~= seq![value@]);
    key
}

impl ValueSet {
    #[verifier::type_invariant]
    spec fn holds_single_values(self) -> bool {
        forall|key: Seq<ValueView>| #[trigger] self.keys@.dom().contains(key) ==> key.len() == 1
    }

    /// A set without values.
    pub fn new() -> (result: Self)
        ensures
            result@ == Set::<ValueView>::empty(),
    {
        let result = ValueSet { keys: RootTable::new() };
        assert(result@ =~= Set::<ValueView>::empty());
        result
    }

    /// Adds a value.
    pub fn insert(&mut self, value: &Value)
        ensures
            final(self)@ == old(self)@.insert(value@),
    {
        proof {
            use_type_invariant(&*self);
        }
        let ghost before = self.keys@;
        let ghost set = self@;
        let mut keys: RootTable<()> = RootTable::new();
        core::mem::swap(&mut self.keys, &mut keys);
        keys.insert(single(value), ());
        self.keys = keys;
        proof {
            assert forall|other: ValueView| self@.contains(other) <==> set.insert(value@).contains(
                other,
            ) by {
                assert(seq![other][0] == other);
                if seq![other] == seq![value@] {
                    assert(seq![other][0] == seq![value@][0]);
                }
            }
            assert(self@ =~= set.insert(value@));
        }
    }

    /// Tells whether a value is in the set.
    pub fn contains(&self, value: &Value) -> (found: bool)
        ensures
            found == self@.contains(value@),
    {
        self.keys.contains_key(single(value).as_slice())
    }

    /// Tells whether the set has no values.
    pub fn is_empty(&self) -> (empty: bool)
        ensures
            empty == (self@ == Set::<ValueView>::empty()),
    {
        let count = self.keys.len();
        proof {
            use_type_invariant(self);
            if count == 0 {
                assert forall|value: ValueView| !self@.contains(value) by {
                    assert(!self.keys.order().to_set().contains(seq![value]));
                }
                assert(self@ =~= Set::<ValueView>::empty());
            } else {
                let key = self.keys.order()[0];
                assert(self.keys.order().to_set().contains(key));
                assert(key =~= seq![key[0]]);
                assert(self@.contains(key[0]));
            }
        }
        count == 0
    }

    /// The values of the set, each once.
    pub fn values(&self) -> (values: Vec<Value>)
        ensures
            values_view(values@).to_set() == self@,
            values_view(values@).no_duplicates(),
    {
        let count = self.keys.len();
        let ghost order = self.keys.order();
        let mut values: Vec<Value> = Vec::new();
        let mut i: usize = 0;
        proof {
            use_type_invariant(self);
        }
        while i < count
            invariant
                i <= count,
                count == order.len(),
                order == self.keys.order(),
                order.to_set() == self.keys@.dom(),
                forall|key: Seq<ValueView>| #[trigger]
                    self.keys@.dom().contains(key) ==> key.len() == 1,
                values@.len() == i,
                forall|j: int| 0 <= j < i ==> #[trigger] order[j] == seq![values@[j]@],
            decreases count - i,
        {
            let key = self.keys.key_at(i);
            proof {
                assert(order.to_set().contains(order[i as int]));
                assert(values_view(key@).len() == key@.len());
                assert(order[i as int] =~= seq![key@[0]@]);
            }
            values.push(key[0].clone());
            i += 1;
        }
        proof {
            let views = values_view(values@);
            assert forall|value: ValueView| views.to_set().contains(value) <==> self@.contains(
                value,
            ) by {
                if views.contains(value) {
                    let j = choose|j: int| 0 <= j < views.len() && views[j] == value;
                    assert(order[j] == seq![value]);
                    assert(order.to_set().contains(order[j]));
                }
                if self@.contains(value) {
                    assert(order.to_set().contains(seq![value]));
                    let j = choose|j: int| 0 <= j < order.len() && order[j] == seq![value];
                    assert(order[j] == seq![values@[j]@]);
                    assert(seq![value][0] == value);
                    assert(seq![values@[j]@][0] == values@[j]@);
                    assert(views[j] == value);
                }
            }
            assert(views.to_set() =~= self@);
            assert forall|j: int, k: int| 0 <= j < k < views.len() implies views[j] != views[k] by {
                assert(order[j] == seq![values@[j]@] && order[k] == seq![values@[k]@]);
            }
        }
        values
    }

    /// Adds the values of another set.
    pub fn extend_set(&mut self, other: &ValueSet)
        ensures
            final(self)@ == old(self)@.union(other@),
    {
        proof {
            use_type_invariant(other);
        }
        let ghost before = self@;
        let count = other.keys.len();
        let ghost order = other.keys.order();
        let mut i: usize = 0;
        assert(before =~= before.union(Set::new(|value: ValueView| order.take(0).contains(seq![value]))));
        while i < count
            invariant
                i <= count,
                count == order.len(),
                order == other.keys.order(),
                order.to_set() == other.keys@.dom(),
                forall|key: Seq<ValueView>| #[trigger]
                    other.keys@.dom().contains(key) ==> key.len() == 1,
                self@ == before.union(
                    Set::new(|value: ValueView| order.take(i as int).contains(seq![value])),
                ),
            decreases count - i,
        {
            let key = other.keys.key_at(i);
            let ghost shorter = order.take(i as int);
            let ghost longer = order.take(i + 1);
            proof {
                assert(order.to_set().contains(order[i as int]));
                assert(order[i as int].len() == 1);
                assert(values_view(key@).len() == key@.len());
            }
            let ghost added = key@[0]@;
            self.insert(&key[0]);
            proof {
                assert(order[i as int] =~= seq![added]);
                assert forall|value: ValueView| longer.contains(seq![value]) <==> (shorter.contains(
                    seq![value],
                ) || value == added) by {
                    if shorter.contains(seq![value]) {
                        let k = choose|k: int| 0 <= k < shorter.len() && shorter[k] == seq![value];
                        assert(longer[k] == seq![value]);
                    }
                    assert(longer[i as int] == seq![added]);
                    if longer.contains(seq![value]) {
                        let k = choose|k: int| 0 <= k < longer.len() && longer[k] == seq![value];
                        if k < i {
                            assert(shorter[k] == seq![value]);
                        } else {
                            assert(seq![value][0] == seq![added][0]);
                        }
                    }
                }
                assert(self@ =~= before.union(
                    Set::new(|value: ValueView| longer.contains(seq![value])),
                ));
            }
            i += 1;
        }
        proof {
            assert(order.take(order.len() as int) =~= order);
            assert forall|value: ValueView| order.contains(seq![value]) <==> other@.contains(
                value,
            ) by {
                assert(order.to_set().contains(seq![value]) <==> order.contains(seq![value]));
            }
            assert(self@ =~= before.union(other@));
        }
    }
}

} // verus!
