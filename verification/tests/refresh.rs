use cynos_database::affected_roots::{
    scan_row_ids_by_column_values, AffectedRoots, AffectedStep, RowsSnapshotDependencyGraph,
    RowsSnapshotDirectedJoinEdge, RowsSnapshotLookupPrimitive, StoreReply,
};
use cynos_database::collections::RowIdSet;
use cynos_database::eval::Step;
use cynos_database::facts::{Comparison, EvalAnswer, EvalFacts, EvalRequest};
use cynos_database::partial_refresh::{
    slice_partial_visible_rows, PartialRefreshCandidateRow, RowsSnapshotOrderKey,
    RowsSnapshotPartialRefreshMetadata, SnapshotPartialRefreshRuntime,
};
use cynos_database::plan::SortOrder;
use cynos_database::refresh_policy::{
    PartialRefreshWindowPolicy, PartialRefreshWindowReason, RestrictedAccessMode,
    RootSubsetCostPolicy, RootSubsetDecisionReason, RootSubsetPlanVariant,
    SnapshotRefreshCostModel, SubsetExecutionMode,
};
use cynos_database::requery::{
    PatchOutcome, ReQueryObservable, RefreshAction, RefreshPath, SnapshotFlushCounts,
    SnapshotRefreshMode,
};
use cynos_database::root_subset::RootSubsetRefreshRuntime;
use cynos_database::row::{join_row_id, Row};
use cynos_database::subscriptions::Subscribers;
use cynos_database::summary::{query_results_equal, QueryResultSummary, QueryResultSummaryBuilder};
use cynos_database::tables::{IdTable, RootTable};
use cynos_database::value::Value;

const ISSUES: u64 = 1;
const PROJECTS: u64 = 2;
const COUNTERS: u64 = 3;

fn text(text: &str) -> Value {
    Value::String(text.to_string())
}

fn edge(
    source_column_index: usize,
    target_table_id: u32,
    target_table: &str,
    target_column_index: usize,
    lookup: RowsSnapshotLookupPrimitive,
) -> RowsSnapshotDirectedJoinEdge {
    RowsSnapshotDirectedJoinEdge {
        source_column_index,
        target_table_id,
        target_table: target_table.to_string(),
        target_column_index,
        lookup,
    }
}

fn names(entries: &[(u64, &str)]) -> IdTable<String> {
    let mut table = IdTable::new();
    for (id, name) in entries {
        table.insert(*id, name.to_string());
    }
    table
}

fn dependency_graph(issues_lookup: RowsSnapshotLookupPrimitive) -> RowsSnapshotDependencyGraph {
    let mut edges_by_source = IdTable::new();
    edges_by_source.insert(
        ISSUES,
        vec![edge(1, 2, "projects", 0, RowsSnapshotLookupPrimitive::PrimaryKey)],
    );
    edges_by_source.insert(
        PROJECTS,
        vec![
            edge(0, 1, "issues", 1, issues_lookup),
            edge(0, 3, "counters", 0, RowsSnapshotLookupPrimitive::PrimaryKey),
        ],
    );
    edges_by_source.insert(
        COUNTERS,
        vec![edge(0, 2, "projects", 0, RowsSnapshotLookupPrimitive::PrimaryKey)],
    );
    RowsSnapshotDependencyGraph {
        root_table_id: 1,
        table_names: names(&[(1, "issues"), (2, "projects"), (3, "counters")]),
        edges_by_source,
    }
}

fn partial_refresh_dependency_graph() -> RowsSnapshotDependencyGraph {
    dependency_graph(RowsSnapshotLookupPrimitive::SingleColumnIndex {
        index_name: "idx_issues_project_id".to_string(),
    })
}

fn root_subset_dependency_graph() -> RowsSnapshotDependencyGraph {
    dependency_graph(RowsSnapshotLookupPrimitive::ScanFallback)
}

struct TestStore {
    issues: Vec<Row>,
    projects: Vec<Row>,
    counters: Vec<Row>,
    limit: Option<usize>,
}

fn change_row(rows: &mut [Row], id: u64, values: Vec<Value>) {
    for row in rows {
        if row.id() == id {
            *row = Row::new_with_version(id, row.version().wrapping_add(1), values);
            return;
        }
    }
    panic!("the row is stored");
}

impl TestStore {
    fn filled(limit: Option<usize>) -> Self {
        let issues = [(1u64, 500i64), (2, 400), (3, 300), (4, 200), (5, 100)]
            .iter()
            .map(|(id, updated_at)| {
                Row::new(
                    *id,
                    vec![
                        Value::Int64(*id as i64),
                        Value::Int64(*id as i64),
                        Value::Int64(*updated_at),
                    ],
                )
            })
            .collect();
        let projects = (1..=5u64)
            .map(|id| Row::new(id, vec![Value::Int64(id as i64), text("active")]))
            .collect();
        let counters = (1..=5u64)
            .map(|id| Row::new(id, vec![Value::Int64(id as i64), Value::Int64(id as i64 * 10)]))
            .collect();
        TestStore { issues, projects, counters, limit }
    }

    fn table(&self, id: u64) -> &Vec<Row> {
        match id {
            ISSUES => &self.issues,
            PROJECTS => &self.projects,
            COUNTERS => &self.counters,
            _ => panic!("no such table"),
        }
    }

    fn issue_ids(&self) -> RootTable<u64> {
        let mut ids = RootTable::new();
        for row in &self.issues {
            ids.insert(vec![row.get(0).unwrap().clone()], row.id());
        }
        ids
    }

    // Issues with the state of their project and the counter of the project, for active projects.
    fn query(&self, roots: Option<&[u64]>) -> Vec<Row> {
        let mut rows: Vec<Row> = Vec::new();
        for issue in &self.issues {
            if let Some(roots) = roots {
                if !roots.contains(&issue.id()) {
                    continue;
                }
            }
            let project = self.projects.iter().find(|row| row.get(0) == issue.get(1));
            let project = match project {
                Some(row) if row.get(1) == Some(&text("active")) => row,
                _ => continue,
            };
            let counter = self.counters.iter().find(|row| row.get(0) == project.get(0));
            let joined = join_row_id(issue.id(), project.id());
            let version = issue.version().wrapping_add(project.version());
            let head = vec![
                issue.get(0).unwrap().clone(),
                issue.get(2).unwrap().clone(),
                project.get(1).unwrap().clone(),
            ];
            let (id, version, last) = match counter {
                Some(row) => (
                    join_row_id(joined, row.id()),
                    version.wrapping_add(row.version()),
                    row.get(1).unwrap().clone(),
                ),
                None => (joined, version, Value::Null),
            };
            let mut values = head;
            values.push(last);
            rows.push(Row::new_with_version(id, version, values));
        }
        if let Some(limit) = self.limit {
            rows.sort_by_key(|row| match row.get(1) {
                Some(Value::Int64(updated_at)) => -updated_at,
                _ => panic!("every issue has a time"),
            });
            rows.truncate(limit);
        }
        rows
    }

    fn affected(
        &self,
        graph: &RowsSnapshotDependencyGraph,
        changes: &IdTable<RowIdSet>,
        deltas: &IdTable<Vec<Row>>,
    ) -> Option<RowIdSet> {
        let mut search = AffectedRoots::new(changes, graph);
        let mut reply = StoreReply::Start;
        loop {
            reply = match search.advance(reply, graph, deltas) {
                AffectedStep::ReadRows { table, ids } => {
                    let rows = self.table(table as u64);
                    let found =
                        rows.iter().filter(|row| ids.contains(&row.id())).cloned().collect();
                    StoreReply::Rows(Some(found))
                },
                AffectedStep::FindRows { table, edge, values } => {
                    let join = &graph.edges_from(table)[edge];
                    let rows = self.table(join.target_table_id as u64);
                    let found = rows
                        .iter()
                        .filter(|row| match row.get(join.target_column_index) {
                            Some(value) => values.contains(value),
                            None => false,
                        })
                        .map(|row| row.id())
                        .collect();
                    StoreReply::Ids(Some(found))
                },
                AffectedStep::Done(affected) => return affected,
            };
        }
    }
}

fn answer(request: &EvalRequest) -> EvalAnswer {
    match request {
        EvalRequest::Compare { left: Value::Int64(left), right: Value::Int64(right) } => {
            EvalAnswer::Comparison(if left < right {
                Comparison::Less
            } else if left > right {
                Comparison::Greater
            } else {
                Comparison::Equal
            })
        },
        _ => panic!("only whole numbers are compared"),
    }
}

fn refresh(
    store: &TestStore,
    observable: &mut ReQueryObservable,
    graph: &RowsSnapshotDependencyGraph,
    changes: &IdTable<RowIdSet>,
    deltas: &IdTable<Vec<Row>>,
) -> bool {
    let mut facts = EvalFacts::new();
    let mut window: Vec<u64> = Vec::new();
    let mut action = observable.on_change(changes);
    loop {
        action = match action {
            RefreshAction::Finished { changed } => return changed,
            RefreshAction::Patch { .. } => observable.patched(PatchOutcome::Declined),
            RefreshAction::FindAffected { path: RefreshPath::Window } => {
                let affected = store.affected(graph, changes, deltas);
                observable.window_affected(affected.as_ref())
            },
            RefreshAction::FindAffected { path: RefreshPath::Roots } => {
                let affected = store.affected(graph, changes, deltas);
                let stored: Option<Vec<(u64, Option<Row>)>> = affected.as_ref().map(|ids| {
                    ids.sorted()
                        .iter()
                        .map(|id| {
                            (*id, store.issues.iter().find(|row| row.id() == *id).cloned())
                        })
                        .collect()
                });
                observable.roots_affected(
                    affected.as_ref(),
                    stored.as_deref(),
                    changes.contains_key(ISSUES),
                    store.issues.len(),
                )
            },
            RefreshAction::RunWindow { ids } => {
                let rows = store.query(Some(&ids));
                window = ids;
                observable.window_rows(
                    &RowIdSet::from_list(&window),
                    Some(&rows),
                    &store.issue_ids(),
                    &facts,
                )
            },
            RefreshAction::Compute { request } => {
                let found = answer(&request);
                facts.push(request, found);
                observable.window_rows(
                    &RowIdSet::from_list(&window),
                    Some(&store.query(Some(&window))),
                    &store.issue_ids(),
                    &facts,
                )
            },
            RefreshAction::RunRoots { ids, keys, .. } => {
                let rows = store.query(Some(&ids));
                observable.roots_rows(&keys, Some(&rows))
            },
            RefreshAction::RunQuery => {
                let rows = store.query(None);
                let summary = QueryResultSummary::from_rows(&rows);
                observable.query_rows(Some((rows, summary)), &store.issue_ids())
            },
        };
    }
}

fn changes(entries: &[(u64, &[u64])]) -> IdTable<RowIdSet> {
    let mut table = IdTable::new();
    for (id, rows) in entries {
        table.insert(*id, RowIdSet::from_list(rows));
    }
    table
}

fn partial_refresh_test_observable() -> (TestStore, ReQueryObservable) {
    let store = TestStore::filled(Some(4));
    let candidates = store.query(None);
    let visible = candidates[..2].to_vec();
    let summary = QueryResultSummary::from_rows(&visible);
    let metadata = RowsSnapshotPartialRefreshMetadata {
        root_table: "issues".to_string(),
        root_pk_output_indices: vec![0],
        order_keys: vec![RowsSnapshotOrderKey { output_index: 1, order: SortOrder::Desc }],
        visible_offset: 0,
        visible_limit: 2,
        overscan: 1,
        candidate_limit: 4,
    };
    let window = SnapshotPartialRefreshRuntime::new(metadata, &store.issue_ids(), &candidates);
    let observable = ReQueryObservable::new_with_summary(
        None,
        visible,
        summary,
        names(&[(1, "issues"), (2, "projects"), (3, "counters")]),
        window,
        None,
    );
    (store, observable)
}

fn root_subset_test_observable() -> (TestStore, ReQueryObservable) {
    let store = TestStore::filled(None);
    let rows = store.query(None);
    let summary = QueryResultSummary::from_rows(&rows);
    let roots = RootSubsetRefreshRuntime::new(vec![0], vec![0], &store.issues, &rows);
    assert!(roots.is_some());
    let observable = ReQueryObservable::new_with_summary(
        None,
        rows,
        summary,
        names(&[(1, "issues"), (2, "projects"), (3, "counters")]),
        None,
        roots,
    );
    (store, observable)
}

fn issue_ids_of(rows: &[Row]) -> Vec<i64> {
    rows.iter()
        .map(|row| match row.get(0) {
            Some(Value::Int64(id)) => *id,
            _ => panic!("every row has an issue"),
        })
        .collect()
}

fn visible_issue_ids(observable: &ReQueryObservable) -> Vec<i64> {
    issue_ids_of(observable.result())
}

fn patch_test_observable() -> ReQueryObservable {
    ReQueryObservable::new(
        Some("users".to_string()),
        vec![Row::new(1, vec![Value::Int64(1), Value::Int32(42)])],
        names(&[(1, "users"), (2, "orders")]),
    )
}

#[test]
fn test_patch_table_changed_ids_accepts_exact_patch_table_changes() {
    let observable = patch_test_observable();
    let changes = changes(&[(1, &[1])]);

    let changed_ids = observable
        .patch_table_changed_ids(&changes)
        .expect("patch table change should be eligible for reactive patching");
    assert!(changed_ids.contains(1));
}

#[test]
fn test_patch_table_changed_ids_rejects_unrelated_or_mixed_table_changes() {
    let observable = patch_test_observable();

    let unrelated = changes(&[(2, &[1])]);
    assert!(
        observable.patch_table_changed_ids(&unrelated).is_none(),
        "unrelated table changes must not be routed into the patch fast-path",
    );

    let mixed = changes(&[(1, &[1]), (2, &[1])]);
    assert!(
        observable.patch_table_changed_ids(&mixed).is_none(),
        "mixed-table changes must fall back to full requery so we keep table provenance intact",
    );
}

#[test]
fn test_partial_refresh_propagates_multi_hop_join_changes() {
    let (mut store, mut observable) = partial_refresh_test_observable();
    observable.subscribe();

    change_row(&mut store.counters, 1, vec![Value::Int64(1), Value::Int64(99)]);
    let changed = refresh(
        &store,
        &mut observable,
        &partial_refresh_dependency_graph(),
        &changes(&[(COUNTERS, &[1])]),
        &IdTable::new(),
    );

    assert!(changed);
    let first_row = observable.result().first().expect("visible row");
    assert_eq!(first_row.get(0), Some(&Value::Int64(1)));
    assert_eq!(first_row.get(3), Some(&Value::Int64(99)));
    let profile = observable.profile();
    assert_eq!(profile.refresh_mode, SnapshotRefreshMode::CandidateWindowPartialRefresh);
    assert!(profile.partial_refresh_hit);
}

#[test]
fn test_partial_refresh_falls_back_when_shadow_window_is_depleted() {
    let (mut store, mut observable) = partial_refresh_test_observable();
    let graph = partial_refresh_dependency_graph();
    observable.subscribe();

    change_row(&mut store.projects, 1, vec![Value::Int64(1), text("paused")]);
    refresh(&store, &mut observable, &graph, &changes(&[(PROJECTS, &[1])]), &IdTable::new());
    assert_eq!(visible_issue_ids(&observable), vec![2, 3]);

    change_row(&mut store.projects, 2, vec![Value::Int64(2), text("paused")]);
    refresh(&store, &mut observable, &graph, &changes(&[(PROJECTS, &[2])]), &IdTable::new());

    assert_eq!(visible_issue_ids(&observable), vec![3, 4]);
    assert_eq!(observable.profile().refresh_mode, SnapshotRefreshMode::FullRequery);
    let partial_refresh = observable.partial_refresh().expect("partial refresh runtime");
    let candidates: Vec<Row> =
        partial_refresh.candidate_rows.iter().map(|entry| entry.row.clone()).collect();
    assert_eq!(issue_ids_of(&candidates), vec![3, 4, 5]);
}

#[test]
fn test_root_subset_refresh_updates_multi_hop_join_without_full_requery() {
    let (mut store, mut observable) = root_subset_test_observable();
    observable.subscribe();

    change_row(&mut store.counters, 3, vec![Value::Int64(3), Value::Int64(300)]);
    refresh(
        &store,
        &mut observable,
        &root_subset_dependency_graph(),
        &changes(&[(COUNTERS, &[3])]),
        &IdTable::new(),
    );

    let profile = observable.profile();
    assert_eq!(profile.refresh_mode, SnapshotRefreshMode::RootSubsetRefresh);
    assert!(profile.root_subset_hit);
    let updated_row = observable
        .result()
        .iter()
        .find(|row| row.get(0) == Some(&Value::Int64(3)))
        .expect("issue 3 should still be visible");
    assert_eq!(updated_row.get(3), Some(&Value::Int64(300)));
}

#[test]
fn test_root_subset_refresh_keeps_fast_path_for_deleted_intermediate_rows() {
    let (mut store, mut observable) = root_subset_test_observable();
    observable.subscribe();

    let project = store.projects.remove(2);
    assert_eq!(project.id(), 3);
    let mut deltas = IdTable::new();
    deltas.insert(PROJECTS, vec![project]);
    refresh(
        &store,
        &mut observable,
        &root_subset_dependency_graph(),
        &changes(&[(PROJECTS, &[3])]),
        &deltas,
    );

    let profile = observable.profile();
    assert_eq!(profile.refresh_mode, SnapshotRefreshMode::RootSubsetRefresh);
    assert!(profile.root_subset_hit);
    assert_eq!(visible_issue_ids(&observable), vec![1, 2, 4, 5]);
}

#[test]
fn deleted_intermediate_rows_without_deltas_need_the_whole_query() {
    let (mut store, mut observable) = root_subset_test_observable();
    observable.subscribe();
    store.projects.remove(2);
    refresh(
        &store,
        &mut observable,
        &root_subset_dependency_graph(),
        &changes(&[(PROJECTS, &[3])]),
        &IdTable::new(),
    );
    let profile = observable.profile();
    assert_eq!(profile.refresh_mode, SnapshotRefreshMode::FullRequery);
    assert!(profile.root_subset_attempted);
    assert!(!profile.root_subset_hit);
    assert_eq!(visible_issue_ids(&observable), vec![1, 2, 4, 5]);
}

#[test]
fn changes_of_other_tables_leave_the_result() {
    let (store, mut observable) = root_subset_test_observable();
    observable.subscribe();
    let changed = refresh(
        &store,
        &mut observable,
        &root_subset_dependency_graph(),
        &changes(&[(9, &[3])]),
        &IdTable::new(),
    );
    assert!(!changed);
    assert_eq!(visible_issue_ids(&observable), vec![1, 2, 3, 4, 5]);
}

#[test]
fn results_without_subscribers_are_not_refreshed() {
    let (mut store, mut observable) = root_subset_test_observable();
    let id = observable.subscribe();
    assert_eq!(observable.subscription_count(), 1);
    assert!(observable.unsubscribe(id));
    assert!(!observable.unsubscribe(id));
    store.issues.clear();
    assert!(!refresh(
        &store,
        &mut observable,
        &root_subset_dependency_graph(),
        &changes(&[(ISSUES, &[1])]),
        &IdTable::new(),
    ));
    assert_eq!(observable.len(), 5);
    assert!(!observable.is_empty());
}

#[test]
fn patched_rows_become_the_result() {
    let mut observable = patch_test_observable();
    let first = observable.subscribe();
    let second = observable.subscribe();
    match observable.on_change(&changes(&[(1, &[3, 1])])) {
        RefreshAction::Patch { ids } => assert_eq!(ids, vec![1, 3]),
        _ => panic!("a change of the table patches the result"),
    }
    let patched = vec![Row::new_with_version(1, 1, vec![Value::Int64(1), Value::Int32(43)])];
    let finished = observable.patched(PatchOutcome::Changed(patched));
    match finished {
        RefreshAction::Finished { changed } => assert!(changed),
        _ => panic!("a patch ends the refresh"),
    }
    assert_eq!(observable.subscribers_to_call(&finished), &[first, second]);
    assert_eq!(observable.result()[0].get(1), Some(&Value::Int32(43)));
    let profile = observable.profile();
    assert!(profile.reactive_patch_attempted && profile.reactive_patch_hit);

    observable.on_change(&changes(&[(1, &[1])]));
    match observable.patched(PatchOutcome::Declined) {
        RefreshAction::RunQuery => {},
        _ => panic!("the query is run where a patch is declined"),
    }
    assert!(observable.subscribers_to_call(&RefreshAction::RunQuery).is_empty());
    let failed = observable.query_rows(None, &RootTable::new());
    match failed {
        RefreshAction::Finished { changed } => assert!(!changed),
        _ => panic!("a failed query ends the refresh"),
    }
    assert!(observable.subscribers_to_call(&failed).is_empty());
    assert_eq!(observable.len(), 1);
}

#[test]
fn refreshes_are_counted() {
    let mut counts = SnapshotFlushCounts {
        rows_query_count: 0,
        reactive_patch_attempt_count: 0,
        reactive_patch_hit_count: 0,
        partial_refresh_attempt_count: 0,
        partial_refresh_hit_count: 0,
        root_subset_attempt_count: 0,
        root_subset_hit_count: 0,
        full_requery_count: 0,
    };
    let (mut store, mut observable) = root_subset_test_observable();
    observable.subscribe();
    change_row(&mut store.counters, 3, vec![Value::Int64(3), Value::Int64(300)]);
    refresh(
        &store,
        &mut observable,
        &root_subset_dependency_graph(),
        &changes(&[(COUNTERS, &[3])]),
        &IdTable::new(),
    );
    counts.record_rows_query(&observable.profile(), false);
    assert_eq!(counts.rows_query_count, 1);
    assert_eq!(counts.root_subset_attempt_count, 1);
    assert_eq!(counts.root_subset_hit_count, 1);
    assert_eq!(counts.full_requery_count, 0);
    assert_eq!(counts.partial_refresh_attempt_count, 0);
}

#[test]
fn refreshed_roots_keep_their_place() {
    let store = TestStore::filled(None);
    let rows = store.query(None);
    let mut roots =
        RootSubsetRefreshRuntime::new(vec![0], vec![0], &store.issues, &rows).unwrap();
    let mut changed = store.issues[1].clone();
    changed.set(2, Value::Int64(7));
    let affected = vec![(2, Some(changed))];
    let keys = roots.collect_affected_root_keys(&affected, true).unwrap();
    assert!(keys.contains(&[Value::Int64(2)]));
    let replacement = vec![Row::new(77, vec![Value::Int64(2), text("first")])];
    let result = roots.apply_subset_rows(&keys, &replacement).unwrap();
    assert_eq!(issue_ids_of(&result), vec![1, 2, 3, 4, 5]);
    assert_eq!(result[1].id(), 77);
    let result = roots.apply_subset_rows(&keys, &[]).unwrap();
    assert_eq!(issue_ids_of(&result), vec![1, 3, 4, 5]);
    assert!(roots.apply_subset_rows(&keys, &[Row::new(78, Vec::new())]).is_none());
}

#[test]
fn scattered_groups_cannot_be_refreshed_by_roots() {
    let row = |id: u64, key: i64| Row::new(id, vec![Value::Int64(key)]);
    let scattered = vec![row(1, 1), row(2, 2), row(3, 1)];
    assert!(RootSubsetRefreshRuntime::new(vec![0], vec![0], &[], &scattered).is_none());
    let together = vec![row(1, 1), row(3, 1), row(2, 2)];
    assert!(RootSubsetRefreshRuntime::new(vec![0], vec![0], &[], &together).is_some());
}

#[test]
fn windows_are_sliced() {
    let metadata = RowsSnapshotPartialRefreshMetadata {
        root_table: "issues".to_string(),
        root_pk_output_indices: vec![0],
        order_keys: Vec::new(),
        visible_offset: 1,
        visible_limit: 2,
        overscan: 3,
        candidate_limit: 6,
    };
    assert_eq!(metadata.min_shadow_window(), 6);
    let rows: Vec<PartialRefreshCandidateRow> = (1..=4)
        .map(|id| PartialRefreshCandidateRow {
            row: Row::new(id, vec![Value::Int64(id as i64)]),
            root_row_id: id,
        })
        .collect();
    assert_eq!(issue_ids_of(&slice_partial_visible_rows(&rows, &metadata)), vec![2, 3]);
    assert!(slice_partial_visible_rows(&rows[..1], &metadata).is_empty());
}

#[test]
fn test_projection_query_preserves_version_and_live_query_detects_update() {
    let project_name = |row: &Row| {
        Row::new_with_version(row.id(), row.version(), vec![row.get(1).unwrap().clone()])
    };
    let old_row = Row::new_with_version(
        1,
        5,
        vec![Value::Int64(1), text("Alice"), Value::Int32(25)],
    );
    let old_rows = vec![project_name(&old_row)];
    let new_row = Row::new_with_version(
        1,
        6,
        vec![Value::Int64(1), text("Alicia"), Value::Int32(25)],
    );
    let new_rows = vec![project_name(&new_row)];

    assert_eq!(old_rows[0].version(), 5);
    assert_eq!(new_rows[0].version(), 6);

    let old_summary = QueryResultSummary::from_rows(&old_rows);
    let new_summary = QueryResultSummary::from_rows(&new_rows);
    assert!(
        !query_results_equal(&old_summary, &new_summary, &old_rows, &new_rows),
        "Projected value changed from Alice to Alicia, so live query comparison should detect a change",
    );
}

#[test]
fn test_result_comparison_falls_back_to_exact_rows_when_summary_matches() {
    let old_rows = vec![Row::new_with_version(1, 5, vec![text("Alice")])];
    let new_rows = vec![Row::new_with_version(1, 5, vec![text("Alicia")])];

    let colliding_summary = QueryResultSummary { len: 1, fingerprint: 42 };

    assert!(
        !query_results_equal(&colliding_summary, &colliding_summary, &old_rows, &new_rows),
        "Row comparison must remain deterministic even if two summaries collide",
    );
    assert!(query_results_equal(&colliding_summary, &colliding_summary, &old_rows, &old_rows));
}

#[test]
fn summaries_are_built_row_by_row() {
    let rows = TestStore::filled(None).query(None);
    let mut builder = QueryResultSummaryBuilder::new();
    for row in &rows {
        builder.push(row);
    }
    let summary = builder.finish();
    assert_eq!(summary, QueryResultSummary::from_rows(&rows));
    assert_eq!(summary.len, 5);
    let mut turned = rows;
    turned.swap(0, 1);
    assert_ne!(QueryResultSummary::from_rows(&turned).fingerprint, summary.fingerprint);
}

#[test]
fn subscribers_never_share_a_number() {
    let mut subscribers = Subscribers::new();
    assert!(subscribers.is_empty());
    let first = subscribers.subscribe();
    assert!(subscribers.unsubscribe(first));
    let second = subscribers.subscribe();
    assert_ne!(first, second);
    assert_eq!(subscribers.len(), 1);
    assert_eq!(subscribers.ids(), &[second]);
}

#[test]
fn small_subsets_drive_the_query() {
    let model = SnapshotRefreshCostModel::standard();
    let few = model.decide_root_subset_refresh(1, 100_000);
    assert_eq!(few.variant, RootSubsetPlanVariant::Small);
    assert_eq!(few.reason, RootSubsetDecisionReason::WithinAbsoluteSubsetCeiling);
    assert_eq!(few.preferred_access_mode, RestrictedAccessMode::SubsetDriven);
    let many = model.decide_root_subset_refresh(90_000, 100_000);
    assert_eq!(many.variant, RootSubsetPlanVariant::Large);
    assert_eq!(many.preferred_access_mode, RestrictedAccessMode::IndexDrivenIntersect);
    let planned = model.root_subset_planning_decision(RootSubsetPlanVariant::Small, 4096).unwrap();
    assert_eq!(planned.effective_subset_rows, 1024);
    assert!(model.root_subset_planning_decision(RootSubsetPlanVariant::Large, 0).is_none());
    let policy = RootSubsetCostPolicy::standard();
    assert_eq!(
        SubsetExecutionMode::choose_mode(policy.max_subset_driven_rows, 1 << 30),
        SubsetExecutionMode::SubsetDriven
    );
    assert_eq!(
        SubsetExecutionMode::choose_mode(policy.max_subset_driven_rows + 1, policy.max_subset_driven_rows + 1),
        SubsetExecutionMode::IndexDrivenIntersect
    );
}

#[test]
fn overscan_stays_within_its_bounds() {
    let policy = PartialRefreshWindowPolicy::standard();
    let small = policy.decide(1);
    assert_eq!(small.overscan, policy.min_overscan);
    assert_eq!(small.reason, PartialRefreshWindowReason::MinimumFloor);
    let large = policy.decide(1_000_000);
    assert_eq!(large.overscan, policy.max_overscan);
    assert_eq!(large.reason, PartialRefreshWindowReason::MaximumCeiling);
}

#[test]
fn scans_find_rows_by_their_values() {
    let rows = vec![
        Row::new(1, vec![Value::Int64(10), text("a")]),
        Row::new(2, vec![Value::Int64(20)]),
        Row::new(3, vec![Value::Int64(30), text("b")]),
        Row::new(4, vec![Value::Int64(40), text("a")]),
    ];
    let values = vec![text("a"), text("c")];
    let mut facts = EvalFacts::new();
    let mut asked: usize = 0;
    let found = loop {
        match scan_row_ids_by_column_values(&rows, 1, &values, &facts) {
            Step::Done(ids) => break ids,
            Step::Need(request) => {
                let equal = match &request {
                    EvalRequest::Equals { left, right } => left == right,
                    other => panic!("unexpected request {:?}", other),
                };
                asked += 1;
                facts.push(request, EvalAnswer::Truth(equal));
            },
        }
    };
    assert_eq!(found, vec![1, 4]);
    assert_eq!(asked, 3);
    assert!(matches!(
        scan_row_ids_by_column_values(&rows, 7, &values, &EvalFacts::new()),
        Step::Done(ids) if ids.is_empty()
    ));
    assert!(matches!(
        scan_row_ids_by_column_values(&rows, 1, &[], &EvalFacts::new()),
        Step::Done(ids) if ids.is_empty()
    ));
}
