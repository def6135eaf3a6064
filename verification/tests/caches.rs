use cynos_database::encode_cache::{
    prune_field_keys, prune_jsonb_js_cache, prune_shared, GraphqlJsEncodeCachePolicy,
    JsonbJsCachePolicy,
};
use cynos_database::rows_cache::{
    split_deltas, IvmBridgeCounts, IvmBridgeProfiler, JsSnapshotRowsCache,
};
use cynos_database::row::DUMMY_ROW_ID;

#[test]
fn test_graphql_js_encode_cache_prunes_jsonb_incrementally() {
    let sizes = vec![3usize; 5];
    let bytes: usize = sizes.iter().sum();
    let policy = JsonbJsCachePolicy {
        max_entries: 4,
        target_entries: 3,
        max_bytes: 12,
        target_bytes: 9,
    };
    assert!(policy.should_prune(sizes.len(), bytes));
    let (removed, bytes_left) = prune_jsonb_js_cache(&sizes, bytes, policy);

    assert!(sizes.len() - removed <= 3);
    assert!(bytes_left <= 9);
    assert!(removed < sizes.len());
    assert_eq!(bytes_left, (sizes.len() - removed) * 3);
}

#[test]
fn test_graphql_js_encode_cache_prunes_dead_shared_entries_without_full_clear() {
    // Five cached objects, of which one is still in use.
    let kept = prune_shared(5, 1, 0, 2, 1);
    assert_eq!(kept, Some((1, 0)));
    assert_eq!(prune_shared(2, 1, 0, 2, 1), None);
}

#[test]
fn live_entries_are_dropped_down_to_the_target() {
    assert_eq!(prune_shared(6, 3, 2, 4, 3), Some((1, 2)));
    assert_eq!(prune_shared(9, 1, 6, 4, 2), Some((1, 1)));
}

#[test]
fn test_snapshot_rows_cache_prunes_jsonb_entries_incrementally() {
    let policy = JsonbJsCachePolicy::standard();
    let sizes = vec![1024usize + 8; policy.target_entries() + 2_112];
    let bytes: usize = sizes.iter().sum();
    let (removed, bytes_left) = prune_jsonb_js_cache(&sizes, bytes, policy);

    assert!(sizes.len() - removed <= policy.target_entries());
    assert!(bytes_left <= policy.target_bytes());
}

#[test]
fn caches_below_their_limits_stay() {
    let policy = JsonbJsCachePolicy::standard();
    assert!(!policy.should_prune(policy.max_entries, policy.max_bytes));
    assert_eq!(prune_jsonb_js_cache(&[5, 6], 11, policy), (0, 11));
    let graphql = GraphqlJsEncodeCachePolicy::standard();
    assert_eq!(
        prune_field_keys(
            graphql.field_key_max_entries,
            graphql.field_key_max_entries,
            graphql.field_key_target_entries,
        ),
        0
    );
    assert_eq!(prune_field_keys(10, 9, 4), 6);
}

#[test]
fn test_snapshot_rows_cache_prunes_stale_rows_before_current_epoch() {
    let mut cache = JsSnapshotRowsCache::new();
    cache.begin_pass();
    for row_id in 0..4u64 {
        cache.use_row(row_id, 1);
    }
    cache.begin_pass();
    cache.use_row(0, 1);

    cache.prune_rows_with_limits(3, 2);

    assert!(cache.len() <= 2);
    assert!(cache.contains(0));
}

#[test]
fn rows_are_encoded_when_their_version_changes() {
    let mut cache = JsSnapshotRowsCache::new();
    assert_eq!(cache.materialize(&[(1, 1), (2, 1)], 10, 5), vec![false, false]);
    assert_eq!(cache.materialize(&[(1, 1), (2, 2), (3, 1)], 10, 5), vec![true, false, false]);
    assert_eq!(cache.len(), 3);
    cache.remove_row(2);
    assert!(!cache.contains(2));
    assert!(!cache.use_changed_row(2, 2));
    assert!(cache.use_changed_row(2, 2));
}

#[test]
fn rows_that_a_pass_leaves_out_are_dropped() {
    let mut cache = JsSnapshotRowsCache::new();
    cache.begin_pass();
    cache.use_row(1, 1);
    cache.use_row(2, 1);
    cache.end_pass();
    cache.begin_pass();
    cache.use_row(2, 1);
    cache.end_pass();
    assert!(cache.contains(2));
    assert!(!cache.contains(1));
}

#[test]
fn deltas_are_split_by_sign() {
    assert_eq!(split_deltas(&[1, -1, 0, 2]), (vec![0, 3], vec![1]));
}

#[test]
fn bridge_samples_are_summed_per_flush() {
    let mut profiler = IvmBridgeProfiler::new();
    let sample = IvmBridgeCounts { callback_count: 1, added_row_count: 2, removed_row_count: 3 };
    profiler.begin_flush();
    profiler.record_sample(&sample);
    profiler.record_sample(&sample);
    profiler.end_flush();
    let counts = profiler.take_last().unwrap();
    assert_eq!(counts.callback_count, 2);
    assert_eq!(counts.added_row_count, 4);
    assert_eq!(counts.removed_row_count, 6);
    assert!(profiler.take_last().is_none());
}

#[test]
fn rows_without_identity_are_encoded_each_time() {
    let mut cache = JsSnapshotRowsCache::new();
    let rows = [(DUMMY_ROW_ID, 1), (DUMMY_ROW_ID, 1), (7, 1), (7, 1)];
    assert_eq!(cache.materialize(&rows, 10, 5), vec![false, false, false, true]);
    assert_eq!(cache.materialize(&rows, 10, 5), vec![false, false, true, true]);
    assert!(!cache.contains(DUMMY_ROW_ID));
    assert_eq!(cache.len(), 1);
    assert!(!cache.use_changed_row(DUMMY_ROW_ID, 1));
    assert!(!cache.use_changed_row(DUMMY_ROW_ID, 1));
}
