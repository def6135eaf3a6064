use cynos_database::row::{
    aggregate_group_row_id, join_row_id, left_join_null_row_id, next_row_id, reserve_row_ids,
    right_join_null_row_id, set_next_row_id, set_next_row_id_if_greater, Row, RowIdCounter,
    DUMMY_ROW_ID,
};
use cynos_database::value::Value;

#[test]
fn test_row_new() {
    let row = Row::new(1, vec![Value::Int64(42), Value::String("Alice".into())]);
    assert_eq!(row.id(), 1);
    assert_eq!(row.version(), 1);
    assert_eq!(row.len(), 2);
}

#[test]
fn test_row_get_value() {
    let row = Row::new(1, vec![Value::Int64(1), Value::String("Alice".into())]);
    assert_eq!(row.get(0), Some(&Value::Int64(1)));
    assert_eq!(row.get(1), Some(&Value::String("Alice".into())));
    assert_eq!(row.get(2), None);
}

#[test]
fn test_row_set_value() {
    let mut row = Row::new(1, vec![Value::Int64(1), Value::String("Alice".into())]);
    assert!(row.set(0, Value::Int64(100)));
    assert_eq!(row.get(0), Some(&Value::Int64(100)));
    assert!(!row.set(10, Value::Int64(999)));
}

#[test]
fn test_row_create() {
    let mut counter = RowIdCounter::new();
    set_next_row_id(&mut counter, 100);
    let row1 = Row::create(&mut counter, vec![Value::Int32(1)]);
    let row2 = Row::create(&mut counter, vec![Value::Int32(2)]);
    assert_eq!(row1.id(), 100);
    assert_eq!(row2.id(), 101);
}

#[test]
fn test_row_dummy() {
    let row = Row::dummy(vec![Value::Int32(1)]);
    assert!(row.is_dummy());
    assert_eq!(row.id(), DUMMY_ROW_ID);
}

#[test]
fn test_row_equality() {
    let row1 = Row::new(1, vec![Value::Int32(42)]);
    let row2 = Row::new(1, vec![Value::Int32(42)]);
    let row3 = Row::new(2, vec![Value::Int32(42)]);
    assert_eq!(row1, row2);
    assert_ne!(row1, row3);
}

#[test]
fn test_row_version() {
    let mut row = Row::new(1, vec![Value::Int32(42)]);
    assert_eq!(row.version(), 1);

    row.increment_version();
    assert_eq!(row.version(), 2);

    row.set_version(10);
    assert_eq!(row.version(), 10);
}

#[test]
fn test_row_dummy_with_version() {
    let row = Row::dummy_with_version(5, vec![Value::Int32(1)]);
    assert!(row.is_dummy());
    assert_eq!(row.version(), 5);
}

#[test]
fn test_join_row_id_is_deterministic() {
    assert_eq!(join_row_id(1, 2), join_row_id(1, 2));
    assert_ne!(join_row_id(1, 2), join_row_id(2, 1));
}

#[test]
fn test_derived_row_id_domains_do_not_collide_for_same_input() {
    let base = 42;
    assert_ne!(join_row_id(base, 7), left_join_null_row_id(base));
    assert_ne!(left_join_null_row_id(base), right_join_null_row_id(base));
}

#[test]
fn test_aggregate_group_row_id_depends_on_group_key() {
    assert_eq!(
        aggregate_group_row_id(&[Value::Int64(1), Value::String("A".into())]),
        aggregate_group_row_id(&[Value::Int64(1), Value::String("A".into())]),
    );
    assert_ne!(
        aggregate_group_row_id(&[Value::Int64(1)]),
        aggregate_group_row_id(&[Value::Int64(2)]),
    );
}

#[test]
fn versions_do_not_count_for_equality() {
    let row = Row::new_with_version(1, 3, vec![Value::Null]);
    let other = Row::new_with_version(1, 4, vec![Value::Null]);
    assert_eq!(row, other);
}

#[test]
fn versions_wrap_around() {
    let mut row = Row::new_with_version(1, u64::MAX, Vec::new());
    assert_eq!(row.increment_version(), 0);
    assert!(row.is_empty());
}

#[test]
fn reserved_identifiers_are_not_given_out_again() {
    let mut counter = RowIdCounter::new();
    set_next_row_id(&mut counter, 5);
    assert_eq!(reserve_row_ids(&mut counter, 3), 5);
    assert_eq!(next_row_id(&mut counter), 8);
    set_next_row_id_if_greater(&mut counter, 4);
    assert_eq!(next_row_id(&mut counter), 9);
    set_next_row_id_if_greater(&mut counter, 20);
    assert_eq!(next_row_id(&mut counter), 20);
}

/// FNV-1a over the bytes of both identifiers, started from the domain of joins.
#[test]
fn join_identifiers_are_hashes() {
    let mut state: u64 =
        0xcbf2_9ce4_8422_2325 ^ cynos_database::row::JOIN_ROW_ID_DOMAIN.rotate_left(7);
    for byte in 1u64.to_le_bytes().iter().chain(2u64.to_le_bytes().iter()) {
        state = (state ^ u64::from(*byte)).wrapping_mul(0x0000_0001_0000_01b3);
    }
    assert_eq!(join_row_id(1, 2), state);
}

#[test]
fn rows_are_changed_in_place() {
    let mut row = Row::new(1, vec![Value::Int32(1), Value::Int32(2)]);
    *row.get_mut(1).unwrap() = Value::Boolean(true);
    assert!(row.get_mut(2).is_none());
    row.values_mut().push(Value::Null);
    row.set_id(9);
    assert_eq!(row.id(), 9);
    assert_eq!(row.values(), &[Value::Int32(1), Value::Boolean(true), Value::Null]);
}
