//! Rows and row identifiers.
use vstd::prelude::*;
use vstd::utf8::encode_utf8;

use crate::value::{clone_values, same_values, values_view, Value, ValueView};

verus! {

/// Identifies a row.
pub type RowId = u64;

/// The identifier of rows that stand for no stored row, such as the result of a join.
pub const DUMMY_ROW_ID: RowId = 0xFFFF_FFFF_FFFF_FFFF;

pub const ROW_ID_HASH_OFFSET: u64 = 0xCBF2_9CE4_8422_2325;

pub const ROW_ID_HASH_PRIME: u64 = 0x0000_0001_0000_01B3;

pub const JOIN_ROW_ID_DOMAIN: u64 = 0x4A4F_494E_5F49_4E4E;

pub const LEFT_JOIN_NULL_ROW_ID_DOMAIN: u64 = 0x4A4F_494E_5F4C_4E55;

pub const RIGHT_JOIN_NULL_ROW_ID_DOMAIN: u64 = 0x4A4F_494E_5F52_4E55;

pub const AGGREGATE_GROUP_ROW_ID_DOMAIN: u64 = 0x4147_475F_4752_4F55;

/// The state of the row identifier hash at the start of a domain.
pub open spec fn hash_start(domain: u64) -> u64 {
    ROW_ID_HASH_OFFSET ^ ((domain << 7) | (domain >> 57))
}

/// The hash after one more byte.
pub open spec fn hash_step(state: u64, byte: u8) -> u64 {
    (state ^ (byte as u64)).wrapping_mul(ROW_ID_HASH_PRIME)
}

/// The hash after more bytes.
pub open spec fn hash_bytes(state: u64, bytes: Seq<u8>) -> u64
    decreases bytes.len(),
{
    if bytes.len() == 0 {
        state
    } else {
        hash_step(hash_bytes(state, bytes.drop_last()), bytes.last())
    }
}

/// Keeps a derived identifier apart from the dummy one.
pub open spec fn derived_id(hash: u64) -> RowId {
    if hash == DUMMY_ROW_ID {
        0xFFFF_FFFF_FFFF_FFFE
    } else {
        hash
    }
}

/// The bytes of a number, the least significant first.
pub open spec fn number_bytes(number: u64) -> Seq<u8> {
    seq![
        number as u8,
        (number >> 8) as u8,
        (number >> 16) as u8,
        (number >> 24) as u8,
        (number >> 32) as u8,
        (number >> 40) as u8,
        (number >> 48) as u8,
        (number >> 56) as u8,
    ]
}

/// The bytes that a value adds to a hash: a tag for its kind, then its content.
pub open spec fn value_bytes(value: ValueView) -> Seq<u8> {
    match value {
        ValueView::Null => seq![0u8],
        ValueView::Boolean(b) => seq![1u8, if b { 1u8 } else { 0u8 }],
        ValueView::Int32(v) => seq![2u8] + number_bytes(v as i64 as u64),
        ValueView::Int64(v) => seq![3u8] + number_bytes(v as u64),
        ValueView::Float64(bits) => seq![4u8] + number_bytes(bits),
        ValueView::String(text) => seq![5u8] + encode_utf8(text).push(0xFFu8),
        ValueView::DateTime(v) => seq![6u8] + number_bytes(v as u64),
        ValueView::Bytes(bytes) => seq![7u8] + number_bytes(bytes.len() as u64) + bytes,
        ValueView::Jsonb(bytes) => seq![8u8] + number_bytes(bytes.len() as u64) + bytes,
    }
}

/// The bytes that a list of values adds to a hash.
pub open spec fn list_bytes(values: Seq<ValueView>) -> Seq<u8>
    decreases values.len(),
{
    if values.len() == 0 {
        Seq::empty()
    } else {
        list_bytes(values.drop_last()) + value_bytes(values.last())
    }
}

/// The identifier that a domain and a byte string give.
pub open spec fn hashed_id(domain: u64, bytes: Seq<u8>) -> RowId {
    derived_id(hash_bytes(hash_start(domain), bytes))
}

/// The identifier of an inner join row.
pub open spec fn join_id(left_id: RowId, right_id: RowId) -> RowId {
    hashed_id(JOIN_ROW_ID_DOMAIN, number_bytes(left_id) + number_bytes(right_id))
}

/// The identifier of an outer join row without a right side.
pub open spec fn left_join_null_id(left_id: RowId) -> RowId {
    hashed_id(LEFT_JOIN_NULL_ROW_ID_DOMAIN, number_bytes(left_id))
}

/// The identifier of an outer join row without a left side.
pub open spec fn right_join_null_id(right_id: RowId) -> RowId {
    hashed_id(RIGHT_JOIN_NULL_ROW_ID_DOMAIN, number_bytes(right_id))
}

/// The identifier of an aggregate group row.
pub open spec fn aggregate_group_id(group_key: Seq<ValueView>) -> RowId {
    hashed_id(
        AGGREGATE_GROUP_ROW_ID_DOMAIN,
        number_bytes(group_key.len() as u64) + list_bytes(group_key),
    )
}

/// The row identifier hash.
pub struct RowIdHasher {
    state: u64,
}

impl RowIdHasher {
    /// The state of the hash.
    pub closed spec fn hash(&self) -> u64 {
        self.state
    }

    /// Starts a domain.
    pub fn new(domain: u64) -> (result: Self)
        ensures
            result.hash() == hash_start(domain),
    {
        RowIdHasher { state: ROW_ID_HASH_OFFSET ^ ((domain << 7) | (domain >> 57)) }
    }

    /// The hash of what was written.
    pub fn finish(&self) -> (hash: u64)
        ensures
            hash == self.hash(),
    {
        self.state
    }

    /// Adds bytes to the hash.
    pub fn write(&mut self, bytes: &[u8])
        ensures
            final(self).hash() == hash_bytes(old(self).hash(), bytes@),
    {
        let ghost start = self.state;
        let mut i: usize = 0;
        assert(bytes@.take(0) =~= Seq::empty());
        while i < bytes.len()
            invariant
                i <= bytes.len(),
                self.state == hash_bytes(start, bytes@.take(i as int)),
            decreases bytes.len() - i,
        {
            assert(bytes@.take(i + 1).drop_last() =~= bytes@.take(i as int));
            self.state = self.state ^ (bytes[i] as u64);
            self.state = self.state.wrapping_mul(ROW_ID_HASH_PRIME);
            i += 1;
        }
        assert(bytes@.take(bytes@.len() as int) =~= bytes@);
    }
}

/// Keeps a derived identifier apart from the dummy one.
pub fn finalize_derived_row_id(id: u64) -> (result: RowId)
    ensures
        result == derived_id(id),
        result != DUMMY_ROW_ID,
{
    if id == DUMMY_ROW_ID {
        DUMMY_ROW_ID.wrapping_sub(1)
    } else {
        id
    }
}

/// Hashes bytes of a domain to a derived identifier.
pub fn hash_row_id(domain: u64, bytes: &[u8]) -> (result: RowId)
    ensures
        result == hashed_id(domain, bytes@),
        result != DUMMY_ROW_ID,
{
    let mut hasher = RowIdHasher::new(domain);
    hasher.write(bytes);
    finalize_derived_row_id(hasher.finish())
}

/// Appends the bytes of a number, the least significant first.
pub fn push_number(bytes: &mut Vec<u8>, number: u64)
    ensures
        final(bytes)@ == old(bytes)@ + number_bytes(number),
{
    bytes.push(number as u8);
    bytes.push((number >> 8) as u8);
    bytes.push((number >> 16) as u8);
    bytes.push((number >> 24) as u8);
    bytes.push((number >> 32) as u8);
    bytes.push((number >> 40) as u8);
    bytes.push((number >> 48) as u8);
    bytes.push((number >> 56) as u8);
    assert(bytes@ =~= old(bytes)@ + number_bytes(number));
}

/// Appends bytes.
fn push_bytes(bytes: &mut Vec<u8>, more: &[u8])
    ensures
        final(bytes)@ == old(bytes)@ + more@,
{
    let mut i: usize = 0;
    assert(bytes@ =~= old(bytes)@ + more@.take(0));
    while i < more.len()
        invariant
            i <= more.len(),
            bytes@ == old(bytes)@ + more@.take(i as int),
        decreases more.len() - i,
    {
        bytes.push(more[i]);
        assert(bytes@ =~= old(bytes)@ + more@.take(i + 1));
        i += 1;
    }
    assert(more@.take(more@.len() as int) =~= more@);
}

/// Appends the bytes that a value adds to a hash.
pub fn push_value(bytes: &mut Vec<u8>, value: &Value)
    ensures
        final(bytes)@ == old(bytes)@ + value_bytes(value@),
{
    match value {
        Value::Null => {
            bytes.push(0);
        },
        Value::Boolean(b) => {
            bytes.push(1);
            if *b {
                bytes.push(1);
            } else {
                bytes.push(0);
            }
        },
        Value::Int32(v) => {
            bytes.push(2);
            push_number(bytes, *v as i64 as u64);
        },
        Value::Int64(v) => {
            bytes.push(3);
            push_number(bytes, *v as u64);
        },
        Value::Float64(v) => {
            bytes.push(4);
            push_number(bytes, v.bits);
        },
        Value::String(text) => {
            bytes.push(5);
            push_bytes(bytes, text.as_str().as_bytes());
            bytes.push(0xFF);
        },
        Value::DateTime(v) => {
            bytes.push(6);
            push_number(bytes, *v as u64);
        },
        Value::Bytes(content) => {
            bytes.push(7);
            push_number(bytes, content.len() as u64);
            push_bytes(bytes, content.as_slice());
        },
        Value::Jsonb(content) => {
            bytes.push(8);
            push_number(bytes, content.len() as u64);
            push_bytes(bytes, content.as_slice());
        },
    }
    assert(bytes@ =~= old(bytes)@ + value_bytes(value@));
}

/// Derives the identifier of an inner join row. It is never the dummy one.
pub fn join_row_id(left_id: RowId, right_id: RowId) -> (result: RowId)
    ensures
        result == join_id(left_id, right_id),
        result != DUMMY_ROW_ID,
{
    let mut bytes: Vec<u8> = Vec::new();
    push_number(&mut bytes, left_id);
    push_number(&mut bytes, right_id);
    assert(bytes@ =~= number_bytes(left_id) + number_bytes(right_id));
    hash_row_id(JOIN_ROW_ID_DOMAIN, bytes.as_slice())
}

/// Derives the identifier of an outer join row without a right side.
pub fn left_join_null_row_id(left_id: RowId) -> (result: RowId)
    ensures
        result == left_join_null_id(left_id),
        result != DUMMY_ROW_ID,
{
    let mut bytes: Vec<u8> = Vec::new();
    push_number(&mut bytes, left_id);
    assert(bytes@ =~= number_bytes(left_id));
    hash_row_id(LEFT_JOIN_NULL_ROW_ID_DOMAIN, bytes.as_slice())
}

/// Derives the identifier of an outer join row without a left side.
pub fn right_join_null_row_id(right_id: RowId) -> (result: RowId)
    ensures
        result == right_join_null_id(right_id),
        result != DUMMY_ROW_ID,
{
    let mut bytes: Vec<u8> = Vec::new();
    push_number(&mut bytes, right_id);
    assert(bytes@ =~= number_bytes(right_id));
    hash_row_id(RIGHT_JOIN_NULL_ROW_ID_DOMAIN, bytes.as_slice())
}

/// Derives the identifier of an aggregate group row from its group key.
pub fn aggregate_group_row_id(group_key: &[Value]) -> (result: RowId)
    ensures
        result == aggregate_group_id(values_view(group_key@)),
        result != DUMMY_ROW_ID,
{
    let ghost views = values_view(group_key@);
    let mut bytes: Vec<u8> = Vec::new();
    push_number(&mut bytes, group_key.len() as u64);
    let ghost head = number_bytes(group_key.len() as u64);
    let mut i: usize = 0;
    assert(bytes@ =~= head + list_bytes(views.take(0)));
    while i < group_key.len()
        invariant
            i <= group_key.len(),
            views == values_view(group_key@),
            bytes@ == head + list_bytes(views.take(i as int)),
        decreases group_key.len() - i,
    {
        assert(views.take(i + 1).drop_last() =~= views.take(i as int));
        assert(views.take(i + 1).last() == group_key@[i as int]@);
        push_value(&mut bytes, &group_key[i]);
        assert(bytes@ =~= head + list_bytes(views.take(i + 1)));
        i += 1;
    }
    assert(views.take(views.len() as int) =~= views);
    hash_row_id(AGGREGATE_GROUP_ROW_ID_DOMAIN, bytes.as_slice())
}

/// Hands out row identifiers in ascending order.
pub struct RowIdCounter {
    next: RowId,
}

impl RowIdCounter {
    /// The identifier that is handed out next.
    pub closed spec fn next(&self) -> RowId {
        self.next
    }

    /// Starts at zero.
    pub fn new() -> (result: Self)
        ensures
            result.next() == 0,
    {
        RowIdCounter { next: 0 }
    }
}

/// Hands out the next identifier.
pub fn next_row_id(counter: &mut RowIdCounter) -> (id: RowId)
    ensures
        id == old(counter).next(),
        final(counter).next() == old(counter).next().wrapping_add(1),
{
    reserve_row_ids(counter, 1)
}

/// Hands out a range of identifiers and returns its start.
pub fn reserve_row_ids(counter: &mut RowIdCounter, count: u64) -> (start: RowId)
    ensures
        start == old(counter).next(),
        final(counter).next() == old(counter).next().wrapping_add(count),
{
    let start = counter.next;
    counter.next = counter.next.wrapping_add(count);
    start
}

/// Sets the identifier that is handed out next.
pub fn set_next_row_id(counter: &mut RowIdCounter, id: RowId)
    ensures
        final(counter).next() == id,
{
    counter.next = id;
}

/// Raises the identifier that is handed out next; it is never lowered.
pub fn set_next_row_id_if_greater(counter: &mut RowIdCounter, id: RowId)
    ensures
        final(counter).next() == (if id > old(counter).next() {
            id
        } else {
            old(counter).next()
        }),
{
    if id > counter.next {
        counter.next = id;
    }
}

/// A row of a table or of a result.
#[derive(Debug)]
pub struct Row {
    id: RowId,
    version: u64,
    values: Vec<Value>,
}

/// What a [`Row`] holds. The version changes with each update.
pub struct RowView {
    pub id: RowId,
    pub version: u64,
    pub values: Seq<ValueView>,
}

impl View for Row {
    type V = RowView;

    closed spec fn view(&self) -> RowView {
        RowView { id: self.id, version: self.version, values: values_view(self.values@) }
    }
}

/// What a list of rows holds.
pub open spec fn rows_view(rows: Seq<Row>) -> Seq<RowView> {
    rows.map_values(|row: Row| row@)
}

impl Row {
    /// A row of version one.
    pub fn new(id: RowId, values: Vec<Value>) -> (result: Self)
        ensures
            result@ == (RowView { id, version: 1, values: values_view(values@) }),
    {
        Row { id, version: 1, values }
    }

    /// A row of a given version.
    pub fn new_with_version(id: RowId, version: u64, values: Vec<Value>) -> (result: Self)
        ensures
            result@ == (RowView { id, version, values: values_view(values@) }),
    {
        Row { id, version, values }
    }

    /// A row of version one with the next identifier of a counter.
    pub fn create(counter: &mut RowIdCounter, values: Vec<Value>) -> (result: Self)
        ensures
            result@ == (RowView {
                id: old(counter).next(),
                version: 1,
                values: values_view(values@),
            }),
            final(counter).next() == old(counter).next().wrapping_add(1),
    {
        let id = next_row_id(counter);
        Row::new(id, values)
    }

    /// A row that stands for no stored row.
    pub fn dummy(values: Vec<Value>) -> (result: Self)
        ensures
            result@ == (RowView { id: DUMMY_ROW_ID, version: 1, values: values_view(values@) }),
    {
        Row::new(DUMMY_ROW_ID, values)
    }

    /// A row of a given version that stands for no stored row.
    pub fn dummy_with_version(version: u64, values: Vec<Value>) -> (result: Self)
        ensures
            result@ == (RowView { id: DUMMY_ROW_ID, version, values: values_view(values@) }),
    {
        Row::new_with_version(DUMMY_ROW_ID, version, values)
    }

    /// The identifier.
    pub fn id(&self) -> (id: RowId)
        ensures
            id == self@.id,
    {
        self.id
    }

    /// Changes the identifier.
    pub fn set_id(&mut self, id: RowId)
        ensures
            final(self)@ == (RowView { id, ..old(self)@ }),
    {
        self.id = id;
    }

    /// The version.
    pub fn version(&self) -> (version: u64)
        ensures
            version == self@.version,
    {
        self.version
    }

    /// Changes the version.
    pub fn set_version(&mut self, version: u64)
        ensures
            final(self)@ == (RowView { version, ..old(self)@ }),
    {
        self.version = version;
    }

    /// Moves on to the next version and returns it.
    pub fn increment_version(&mut self) -> (version: u64)
        ensures
            version == old(self)@.version.wrapping_add(1),
            final(self)@ == (RowView { version, ..old(self)@ }),
    {
        self.version = self.version.wrapping_add(1);
        self.version
    }

    /// The values, by column position.
    pub fn values(&self) -> (values: &[Value])
        ensures
            values_view(values@) == self@.values,
    {
        self.values.as_slice()
    }

    /// The values, to be changed in place.
    pub fn values_mut(&mut self) -> (values: &mut Vec<Value>)
        ensures
            values_view(values@) == old(self)@.values,
            final(self)@ == (RowView { values: values_view(final(values)@), ..old(self)@ }),
    {
        &mut self.values
    }

    /// The value of a column.
    pub fn get(&self, index: usize) -> (value: Option<&Value>)
        ensures
            match value {
                Some(value) => index < self@.values.len() && value@ == self@.values[index as int],
                None => index >= self@.values.len(),
            },
    {
        if index < self.values.len() {
            Some(&self.values[index])
        } else {
            None
        }
    }

    /// The value of a column, to be changed in place.
    pub fn get_mut(&mut self, index: usize) -> (value: Option<&mut Value>)
        ensures
            match value {
                Some(value) => index < old(self)@.values.len() && value@
                    == old(self)@.values[index as int] && final(self)@ == (RowView {
                    values: old(self)@.values.update(index as int, final(value)@),
                    ..old(self)@
                }),
                None => index >= old(self)@.values.len() && final(self)@ == old(self)@,
            },
    {
        if index < self.values.len() {
            let ghost before = self.values@;
            assert forall|v: Value| #[trigger]
                values_view(before.update(index as int, v)) == values_view(before).update(
                    index as int,
                    v@,
                ) by {
                assert(values_view(before.update(index as int, v)) =~= values_view(before).update(
                    index as int,
                    v@,
                ));
            }
            Some(&mut self.values[index])
        } else {
            None
        }
    }

    /// Replaces the value of a column and tells whether the row has the column.
    pub fn set(&mut self, index: usize, value: Value) -> (done: bool)
        ensures
            done == (index < old(self)@.values.len()),
            final(self)@ == (if done {
                RowView {
                    values: old(self)@.values.update(index as int, value@),
                    ..old(self)@
                }
            } else {
                old(self)@
            }),
    {
        if index < self.values.len() {
            self.values.set(index, value);
            assert(values_view(self.values@) =~= old(self)@.values.update(index as int, value@));
            true
        } else {
            false
        }
    }

    /// The number of values.
    pub fn len(&self) -> (count: usize)
        ensures
            count == self@.values.len(),
    {
        self.values.len()
    }

    /// Tells whether the row has no values.
    pub fn is_empty(&self) -> (empty: bool)
        ensures
            empty == (self@.values.len() == 0),
    {
        self.values.len() == 0
    }

    /// Tells whether the row stands for no stored row.
    pub fn is_dummy(&self) -> (dummy: bool)
        ensures
            dummy == (self@.id == DUMMY_ROW_ID),
    {
        self.id == DUMMY_ROW_ID
    }
}

impl Clone for Row {
    fn clone(&self) -> (result: Self)
        ensures
            result@ == self@,
    {
        Row { id: self.id, version: self.version, values: clone_values(self.values.as_slice()) }
    }
}

/// Rows are equal if identifiers and values are; versions do not count.
impl PartialEq for Row {
    fn eq(&self, other: &Self) -> (same: bool) {
        self.id == other.id && same_values(self.values.as_slice(), other.values.as_slice())
    }
}

impl vstd::std_specs::cmp::PartialEqSpecImpl for Row {
    open spec fn obeys_eq_spec() -> bool {
        true
    }

    open spec fn eq_spec(&self, other: &Self) -> bool {
        self@.id == other@.id && self@.values == other@.values
    }
}

/// Hashing the same bytes keeps different states apart.
pub proof fn lemma_hash_keeps_states_apart(left: u64, right: u64, bytes: Seq<u8>)
    requires
        left != right,
    ensures
        hash_bytes(left, bytes) != hash_bytes(right, bytes),
    decreases bytes.len(),
{
    if bytes.len() > 0 {
        lemma_hash_keeps_states_apart(left, right, bytes.drop_last());
        let l = hash_bytes(left, bytes.drop_last());
        let r = hash_bytes(right, bytes.drop_last());
        let b = bytes.last() as u64;
        assert(l ^ b != r ^ b) by (bit_vector)
            requires
                l != r,
        ;
        lemma_prime_invertible(l ^ b);
        lemma_prime_invertible(r ^ b);
    }
}

/// Multiplying by the hash prime can be undone.
proof fn lemma_prime_invertible(x: u64)
    ensures
        x.wrapping_mul(ROW_ID_HASH_PRIME).wrapping_mul(0xB153_003E_AFF6_957B) == x,
{
    let m = 0x1_0000_0000_0000_0000int;
    let p = 0x0000_0001_0000_01B3int;
    let q = 0xB153_003E_AFF6_957Bint;
    let y = x.wrapping_mul(ROW_ID_HASH_PRIME);
    assert(y as int == (x as int * p) % m);
    vstd::arithmetic::div_mod::lemma_mul_mod_noop_left(x as int * p, q, m);
    assert(((x as int * p) * q) == x as int * (p * q)) by (nonlinear_arith);
    assert(p * q == 1 + m * 0xB153_016C) by (nonlinear_arith)
        requires
            p == 0x0000_0001_0000_01B3int,
            q == 0xB153_003E_AFF6_957Bint,
            m == 0x1_0000_0000_0000_0000int,
    ;
    assert(x as int * (p * q) == x as int + (x as int * 0xB153_016C) * m) by (nonlinear_arith)
        requires
            p * q == 1 + m * 0xB153_016C,
    ;
    vstd::arithmetic::div_mod::lemma_mod_multiples_vanish(x as int * 0xB153_016C, x as int, m);
}

/// The identifiers of outer join rows without a right side and without a left side differ for
/// the same source row, unless one of the two hashes was moved away from the dummy identifier.
pub proof fn law_outer_join_domains_differ(id: RowId)
    requires
        hash_bytes(hash_start(LEFT_JOIN_NULL_ROW_ID_DOMAIN), number_bytes(id)) != DUMMY_ROW_ID,
        hash_bytes(hash_start(RIGHT_JOIN_NULL_ROW_ID_DOMAIN), number_bytes(id)) != DUMMY_ROW_ID,
    ensures
        left_join_null_id(id) != right_join_null_id(id),
{
    assert(hash_start(LEFT_JOIN_NULL_ROW_ID_DOMAIN) != hash_start(RIGHT_JOIN_NULL_ROW_ID_DOMAIN))
        by (bit_vector);
    lemma_hash_keeps_states_apart(
        hash_start(LEFT_JOIN_NULL_ROW_ID_DOMAIN),
        hash_start(RIGHT_JOIN_NULL_ROW_ID_DOMAIN),
        number_bytes(id),
    );
}

/// Two reserved ranges do not overlap, as long as the counter has not passed its last
/// identifier.
pub proof fn law_reserved_ranges_are_disjoint(
    first: RowId,
    first_count: u64,
    second: RowId,
    second_count: u64,
    id: RowId,
)
    requires
        second == first.wrapping_add(first_count),
        first + first_count + second_count <= u64::MAX,
        first <= id < first + first_count,
    ensures
        !(second <= id < second + second_count),
{
}

proof fn lemma_number_bytes(left: u64, right: u64)
    requires
        number_bytes(left) == number_bytes(right),
    ensures
        left == right,
{
    let l = number_bytes(left);
    let r = number_bytes(right);
    assert(l[0] == r[0] && l[1] == r[1] && l[2] == r[2] && l[3] == r[3] && l[4] == r[4] && l[5]
        == r[5] && l[6] == r[6] && l[7] == r[7]);
    assert(left == right) by (bit_vector)
        requires
            left as u8 == right as u8,
            (left >> 8) as u8 == (right >> 8) as u8,
            (left >> 16) as u8 == (right >> 16) as u8,
            (left >> 24) as u8 == (right >> 24) as u8,
            (left >> 32) as u8 == (right >> 32) as u8,
            (left >> 40) as u8 == (right >> 40) as u8,
            (left >> 48) as u8 == (right >> 48) as u8,
            (left >> 56) as u8 == (right >> 56) as u8,
    ;
}

/// Different values add different bytes to a hash.
pub proof fn law_values_add_their_own_bytes(left: ValueView, right: ValueView)
    requires
        value_bytes(left) == value_bytes(right),
        left matches ValueView::Bytes(bytes) ==> bytes.len() <= u64::MAX,
        left matches ValueView::Jsonb(bytes) ==> bytes.len() <= u64::MAX,
        right matches ValueView::Bytes(bytes) ==> bytes.len() <= u64::MAX,
        right matches ValueView::Jsonb(bytes) ==> bytes.len() <= u64::MAX,
    ensures
        left == right,
{
    let l = value_bytes(left);
    let r = value_bytes(right);
    assert(l[0] == r[0]);
    match (left, right) {
        (ValueView::Boolean(a), ValueView::Boolean(b)) => {
            assert(l[1] == r[1]);
        },
        (ValueView::Int32(a), ValueView::Int32(b)) => {
            assert(number_bytes(a as i64 as u64) =~= l.skip(1));
            assert(number_bytes(b as i64 as u64) =~= r.skip(1));
            lemma_number_bytes(a as i64 as u64, b as i64 as u64);
            assert(a == b) by (bit_vector)
                requires
                    a as i64 as u64 == b as i64 as u64,
            ;
        },
        (ValueView::Int64(a), ValueView::Int64(b)) => {
            assert(number_bytes(a as u64) =~= l.skip(1));
            assert(number_bytes(b as u64) =~= r.skip(1));
            lemma_number_bytes(a as u64, b as u64);
            assert(a == b) by (bit_vector)
                requires
                    a as u64 == b as u64,
            ;
        },
        (ValueView::Float64(a), ValueView::Float64(b)) => {
            assert(number_bytes(a) =~= l.skip(1));
            assert(number_bytes(b) =~= r.skip(1));
            lemma_number_bytes(a, b);
        },
        (ValueView::DateTime(a), ValueView::DateTime(b)) => {
            assert(number_bytes(a as u64) =~= l.skip(1));
            assert(number_bytes(b as u64) =~= r.skip(1));
            lemma_number_bytes(a as u64, b as u64);
            assert(a == b) by (bit_vector)
                requires
                    a as u64 == b as u64,
            ;
        },
        (ValueView::String(a), ValueView::String(b)) => {
            assert(encode_utf8(a) =~= l.skip(1).drop_last());
            assert(encode_utf8(b) =~= r.skip(1).drop_last());
            vstd::utf8::encode_utf8_decode_utf8(a);
            vstd::utf8::encode_utf8_decode_utf8(b);
        },
        (ValueView::Bytes(a), ValueView::Bytes(b)) => {
            assert(a =~= l.skip(9));
            assert(b =~= r.skip(9));
        },
        (ValueView::Jsonb(a), ValueView::Jsonb(b)) => {
            assert(a =~= l.skip(9));
            assert(b =~= r.skip(9));
        },
        _ => {},
    }
}

/// A derived identifier is never the dummy one, and keeps different hashes apart but for the one
/// that was moved away from it.
pub proof fn law_derived_ids_avoid_the_dummy(left: u64, right: u64)
    ensures
        derived_id(left) != DUMMY_ROW_ID,
        left != right && left != DUMMY_ROW_ID && right != DUMMY_ROW_ID ==> derived_id(left)
            != derived_id(right),
        left != DUMMY_ROW_ID ==> derived_id(left) == left,
{
}

} // verus!
