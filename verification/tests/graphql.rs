use cynos_database::collections::RowIdSet;
use cynos_database::gql_observable::{
    complete_invalidation, DeltaAction, GraphqlAction, GraphqlDeltaObservable,
    GraphqlSubscriptionObservable, ResponseSource,
};
use cynos_database::gql_payload::{
    build_delta_batch_invalidation, build_snapshot_batch_invalidation,
    output_deltas_preserve_root_positions, root_field_has_relations, GraphqlBatchPlan,
    GraphqlPayloadChange, GraphqlRootListPatch, RelationEdgeKind, RelationEdgePlan, SelectedField,
};
use cynos_database::gql_response::{GraphqlResponse, ResponseField, ResponseValue};
use cynos_database::live_plan::{
    materialize_graphql_delta, materialize_graphql_snapshot, materialize_rows_delta,
    materialize_rows_snapshot,
};
use cynos_database::live_registry::{
    LiveDependencySet, LiveOutputKind, LivePlanDescriptor, LiveRegistry, RowDelta,
};
use cynos_database::requery::PatchOutcome;
use cynos_database::root_list::{
    contiguous_insert_groups, contiguous_remove_groups, root_list_slots, ListSlot,
};
use cynos_database::row::Row;
use cynos_database::summary::QueryResultSummary;
use cynos_database::tables::{IdTable, NameTable};
use cynos_database::value::Value;

fn splice(removed: Vec<usize>, inserted: Vec<usize>, updated: Vec<usize>) -> GraphqlRootListPatch {
    GraphqlRootListPatch::Splice {
        removed_positions: removed,
        inserted_positions: inserted,
        updated_positions: updated,
    }
}

#[test]
fn test_graphql_payload_change_describes_root_list_deltas() {
    let unknown = GraphqlPayloadChange::from_root_list_patch(None);
    assert_eq!(unknown.changed_hint(), None);
    assert!(GraphqlPayloadChange::from_root_list_patch(None).as_root_list_patch(None).is_none());

    let stable_empty = GraphqlRootListPatch::StablePositions(Vec::new());
    let stable_change = GraphqlPayloadChange::from_root_list_patch(Some(&stable_empty));
    assert_eq!(stable_change.changed_hint(), Some(false));
    let stable_change = GraphqlPayloadChange::from_root_list_patch(Some(&stable_empty));
    match stable_change.as_root_list_patch(Some(&stable_empty)) {
        Some(GraphqlRootListPatch::StablePositions(positions)) => assert!(positions.is_empty()),
        _ => panic!("the patch is handed on"),
    }

    let stable_updated = GraphqlRootListPatch::StablePositions(vec![2]);
    assert_eq!(
        GraphqlPayloadChange::from_root_list_patch(Some(&stable_updated)).changed_hint(),
        Some(true)
    );

    let splice_empty = splice(Vec::new(), Vec::new(), Vec::new());
    assert_eq!(
        GraphqlPayloadChange::from_root_list_patch(Some(&splice_empty)).changed_hint(),
        Some(false)
    );

    let splice_changed = splice(vec![1], Vec::new(), Vec::new());
    assert_eq!(
        GraphqlPayloadChange::from_root_list_patch(Some(&splice_changed)).changed_hint(),
        Some(true)
    );
}

fn graphql_users_posts_batch_plan() -> (GraphqlBatchPlan, IdTable<String>) {
    let mut edges_by_table = NameTable::new();
    edges_by_table.insert("posts".to_string(), vec![0]);
    let plan = GraphqlBatchPlan {
        edges: vec![RelationEdgePlan {
            kind: RelationEdgeKind::Reverse,
            parent_column_index: 0,
            child_column_index: 1,
        }],
        edges_by_table,
    };
    let mut table_names = IdTable::new();
    table_names.insert(1, "users".to_string());
    table_names.insert(2, "posts".to_string());
    (plan, table_names)
}

fn post(id: u64, author: i64, title: &str) -> Row {
    Row::new(
        id,
        vec![Value::Int64(id as i64), Value::Int64(author), Value::String(title.to_string())],
    )
}

fn changes(entries: &[(u64, &[u64])]) -> IdTable<RowIdSet> {
    let mut table = IdTable::new();
    for (id, rows) in entries {
        table.insert(*id, RowIdSet::from_list(rows));
    }
    table
}

#[test]
fn test_snapshot_batch_invalidation_uses_delta_relation_keys() {
    let (plan, table_names) = graphql_users_posts_batch_plan();
    let changes = changes(&[(2, &[10])]);
    let mut deltas = IdTable::new();
    deltas.insert(
        2,
        vec![RowDelta::delete(post(10, 1, "old")), RowDelta::insert(post(10, 2, "new"))],
    );

    let invalidation = build_snapshot_batch_invalidation(
        &plan,
        &table_names,
        &changes,
        &deltas,
        false,
        &RowIdSet::new(),
    )
    .unwrap();

    let edge_id = plan.edges_for_table("posts")[0];
    assert!(
        invalidation.changed_tables.is_empty(),
        "delta-backed snapshot invalidation should not fall back to coarse edge clearing"
    );
    let keys = invalidation.dirty_edge_keys.get(edge_id as u64).unwrap();
    assert_eq!(keys.values(), vec![Value::Int64(1), Value::Int64(2)]);
    assert!(keys.contains(&Value::Int64(1)));
    assert_eq!(invalidation.dirty_table_rows.get("posts").unwrap().sorted(), vec![10]);
}

#[test]
fn changes_without_deltas_clear_whole_tables() {
    let (plan, table_names) = graphql_users_posts_batch_plan();
    let invalidation = build_snapshot_batch_invalidation(
        &plan,
        &table_names,
        &changes(&[(2, &[10])]),
        &IdTable::new(),
        false,
        &RowIdSet::new(),
    )
    .unwrap();
    assert_eq!(invalidation.changed_tables, vec!["posts".to_string()]);
    assert_eq!(invalidation.dirty_edge_keys.len(), 0);
}

#[test]
fn unknown_tables_cannot_be_invalidated() {
    let (plan, table_names) = graphql_users_posts_batch_plan();
    assert!(build_snapshot_batch_invalidation(
        &plan,
        &table_names,
        &changes(&[(9, &[10])]),
        &IdTable::new(),
        false,
        &RowIdSet::new(),
    )
    .is_none());
    assert!(build_delta_batch_invalidation(&plan, &table_names, 9, &[], false).is_none());
}

#[test]
fn delta_invalidations_follow_the_output() {
    let (plan, table_names) = graphql_users_posts_batch_plan();
    let deltas = vec![RowDelta::insert(post(11, 3, "x"))];
    let mut invalidation =
        build_delta_batch_invalidation(&plan, &table_names, 2, &deltas, true).unwrap();
    assert!(invalidation.root_changed);
    assert_eq!(invalidation.dirty_table_rows.get("posts").unwrap().sorted(), vec![11]);
    let user = |name: &str| Row::new(5, vec![Value::Int64(5), Value::String(name.to_string())]);
    let output = vec![RowDelta::delete(user("a")), RowDelta::insert(user("b"))];
    assert!(output_deltas_preserve_root_positions(&output));
    assert!(!output_deltas_preserve_root_positions(&output[1..]));
    complete_invalidation(&mut invalidation, &output);
    assert_eq!(invalidation.dirty_root_rows.sorted(), vec![5]);
    assert!(invalidation.stable_root_positions);
}

#[test]
fn relations_are_seen_in_selections() {
    assert!(root_field_has_relations(Some(&[SelectedField::Plain, SelectedField::ReverseRelation])));
    assert!(!root_field_has_relations(Some(&[SelectedField::Plain])));
    assert!(!root_field_has_relations(None));
}

fn response(values: &[i64]) -> GraphqlResponse {
    let items = values.iter().map(|value| ResponseValue::Scalar(Value::Int64(*value))).collect();
    GraphqlResponse::new(ResponseValue::Object(vec![ResponseField {
        name: "users".to_string(),
        value: ResponseValue::List(items),
    }]))
}

fn root_row(id: u64, name: &str) -> Row {
    Row::new(id, vec![Value::Int64(id as i64), Value::String(name.to_string())])
}

#[test]
fn subscriptions_render_after_changes() {
    let rows = vec![root_row(1, "Ann")];
    let summary = QueryResultSummary::from_rows(&rows);
    let mut query =
        GraphqlSubscriptionObservable::new(RowIdSet::from_list(&[1]), rows, summary, None);
    assert!(matches!(query.on_change(&changes(&[(1, &[1])])), GraphqlAction::Finished));
    let keepalive = query.attach_keepalive();
    let listener = query.subscribe();
    assert_ne!(keepalive, listener);
    assert_eq!(query.subscription_count(), 2);
    assert_eq!(query.listener_count(), 1);
    assert!(query.rendered(Some(response(&[1])), false, None));
    assert!(matches!(query.response_source(), ResponseSource::Cached));

    match query.on_change(&changes(&[(1, &[1])])) {
        GraphqlAction::Patch { ids } => assert_eq!(ids, vec![1]),
        _ => panic!("a change of root rows alone patches them"),
    }
    match query.patched(PatchOutcome::Changed(vec![root_row(1, "Bea")])) {
        GraphqlAction::Invalidate { root_changed, dirty_root_rows, render } => {
            assert!(root_changed);
            assert!(render);
            assert_eq!(dirty_root_rows.sorted(), vec![1]);
        },
        _ => panic!("changed root rows change the response"),
    }
    assert_eq!(query.root_rows()[0].get(1), Some(&Value::String("Bea".to_string())));
    assert!(!query.rendered(Some(response(&[1])), false, None));
    assert!(!query.rendered(Some(response(&[2])), false, None));

    match query.on_change(&changes(&[(2, &[4])])) {
        GraphqlAction::Invalidate { root_changed, .. } => assert!(!root_changed),
        _ => panic!("a change behind a relation changes the response"),
    }
    assert!(!query.rendered(None, false, None));
    assert!(query.rendered(Some(response(&[2])), false, None));
    match query.on_change(&changes(&[(1, &[1]), (2, &[4])])) {
        GraphqlAction::RunQuery => {},
        _ => panic!("mixed changes run the query"),
    }
    let same = vec![root_row(1, "Bea")];
    let summary = QueryResultSummary::from_rows(&same);
    match query.query_rows(Some((same, summary))) {
        GraphqlAction::Invalidate { root_changed, .. } => assert!(!root_changed),
        _ => panic!("the change behind the relation is still to be rendered"),
    }
    assert!(query.unsubscribe(listener));
    assert!(query.unsubscribe(keepalive));
    assert!(!query.unsubscribe(keepalive));
}

#[test]
fn delta_subscriptions_pass_over_empty_outputs() {
    let mut plain = GraphqlDeltaObservable::new(false);
    plain.subscribe();
    assert!(plain.wants_changes());
    assert!(matches!(plain.on_table_change(&[]), DeltaAction::Finished));
    let delta = vec![RowDelta::insert(root_row(1, "Ann"))];
    assert!(matches!(plain.on_table_change(&delta), DeltaAction::Invalidate { render: true }));
    assert!(plain.rendered(Some(response(&[1])), false, None));
    assert!(plain.current_response().is_some());

    let mut nested = GraphqlDeltaObservable::new(true);
    assert!(matches!(nested.on_table_change(&[]), DeltaAction::Finished));
    nested.attach_keepalive();
    assert!(matches!(nested.on_table_change(&[]), DeltaAction::Invalidate { render: false }));
}

#[test]
fn batched_responses_trust_their_patches() {
    let rows = vec![root_row(1, "Ann")];
    let summary = QueryResultSummary::from_rows(&rows);
    let mut query =
        GraphqlSubscriptionObservable::new(RowIdSet::from_list(&[1]), rows, summary, None);
    query.subscribe();
    assert!(query.rendered(Some(response(&[1, 2])), true, None));
    let unchanged = GraphqlRootListPatch::StablePositions(Vec::new());
    query.on_change(&changes(&[(2, &[4])]));
    assert!(!query.rendered(Some(response(&[1, 2])), true, Some(&unchanged)));
    let changed = GraphqlRootListPatch::StablePositions(vec![1]);
    query.on_change(&changes(&[(2, &[4])]));
    assert!(query.rendered(Some(response(&[1, 3])), true, Some(&changed)));
}

#[test]
fn neighbouring_positions_form_groups() {
    assert_eq!(contiguous_remove_groups(&[1, 2, 5]), vec![(5, 1), (1, 2)]);
    assert_eq!(contiguous_remove_groups(&[5, 2, 1]), vec![(5, 1), (1, 2)]);
    assert_eq!(contiguous_insert_groups(&[0, 3, 4]), vec![(0, 1), (3, 5)]);
    assert!(contiguous_remove_groups(&[]).is_empty());
}

fn slots(previous: Option<usize>, next: usize, patch: Option<&GraphqlRootListPatch>) -> Vec<String> {
    root_list_slots(previous, next, patch)
        .iter()
        .map(|slot| match slot {
            ListSlot::Kept(position) => format!("kept {position}"),
            ListSlot::Fresh(position) => format!("fresh {position}"),
            ListSlot::Hole => "hole".to_string(),
        })
        .collect()
}

#[test]
fn encoded_lists_follow_patches() {
    assert_eq!(slots(None, 2, None), vec!["fresh 0", "fresh 1"]);
    let stable = GraphqlRootListPatch::StablePositions(vec![1]);
    assert_eq!(slots(Some(3), 3, Some(&stable)), vec!["kept 0", "fresh 1", "kept 2"]);
    let moved = splice(vec![0], vec![2], Vec::new());
    assert_eq!(slots(Some(3), 3, Some(&moved)), vec!["kept 1", "kept 2", "fresh 2"]);
}

fn descriptor(output: LiveOutputKind) -> LivePlanDescriptor {
    LivePlanDescriptor::new(output, LiveDependencySet::graphql(vec![1, 2], vec![1]))
}

#[test]
fn live_plans_are_registered() {
    let mut registry = LiveRegistry::new();
    let rows = vec![root_row(1, "Ann")];
    let summary = QueryResultSummary::from_rows(&rows);
    let snapshot = materialize_rows_snapshot(
        &mut registry,
        1,
        &descriptor(LiveOutputKind::RowsSnapshot),
        None,
        rows.clone(),
        summary,
        &[(1, "users".to_string()), (2, "posts".to_string())],
        None,
        None,
    );
    assert_eq!(snapshot.len(), 1);
    assert_eq!(registry.query_count(), 2);

    let start = materialize_rows_delta(
        &mut registry,
        2,
        &descriptor(LiveOutputKind::RowsDelta),
        &[],
        &rows,
    );
    assert_eq!(start.initial_row_count, 1);
    assert_eq!(start.source_table_count, 0);
    assert_eq!(registry.query_count(), 4);

    let graphql = materialize_graphql_snapshot(
        &mut registry,
        3,
        &descriptor(LiveOutputKind::GraphqlSnapshot),
        rows,
        summary,
        None,
    );
    assert_eq!(graphql.root_rows().len(), 1);
    let mut delta = materialize_graphql_delta(
        &mut registry,
        4,
        &descriptor(LiveOutputKind::GraphqlDelta),
        true,
    );
    assert_eq!(registry.query_count(), 8);
    delta.attach_keepalive();
    assert_eq!(delta.subscription_count(), 1);
    assert_eq!(delta.listener_count(), 0);
}
