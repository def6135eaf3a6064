use cynos_database::bootstrap::{
    collect_trace_bootstrap_source_bindings, source_filter_coverage, source_table_count,
    trace_bootstrap_slot_capacity_hint, trace_bootstrap_sql_point_lookup_keys, BootstrapVisit,
    StoreQuery, TraceBootstrapAccessPath, TraceBootstrapSourceBinding,
};
use cynos_database::collections::RowIdSet;
use cynos_database::expr::{BinaryOp, Expr};
use cynos_database::live_registry::{
    LiveDependencySet, LiveEngineKind, LiveOutputKind, LivePlanDescriptor, LiveQuery,
    LiveQueryKind, LiveRegistry, RowDelta,
};
use cynos_database::plan::{IndexBounds, JoinType, KeyRange, PhysicalPlan};
use cynos_database::row::Row;
use cynos_database::schema::{
    Column, DataType, IndexDef, IndexType, SchemaCatalog, Table, TableIdMap,
};
use cynos_database::tables::IdTable;
use cynos_database::value::Value;

fn column(name: &str, data_type: DataType) -> Column {
    Column { name: name.to_string(), data_type, nullable: false }
}

fn index(name: &str, columns: &[&str], index_type: IndexType, unique: bool) -> IndexDef {
    IndexDef {
        name: name.to_string(),
        normalized_name: name.to_string(),
        columns: columns.iter().map(|name| name.to_string()).collect(),
        index_type,
        unique,
        gin_paths: None,
    }
}

fn text(text: &str) -> Value {
    Value::String(text.to_string())
}

fn users_table() -> Table {
    Table {
        name: "users".to_string(),
        columns: vec![column("id", DataType::Int64), column("team_id", DataType::Int64)],
        indices: vec![index("idx_users_team_id", &["team_id"], IndexType::BTree, false)],
        primary_key: Some(index("pk_users", &["id"], IndexType::BTree, true)),
    }
}

fn issues_table() -> Table {
    let mut metadata = index("idx_issues_metadata_status", &["metadata"], IndexType::Gin, false);
    metadata.gin_paths = Some(vec!["status".to_string()]);
    Table {
        name: "issues".to_string(),
        columns: vec![
            column("id", DataType::Int64),
            column("user_id", DataType::Int64),
            column("metadata", DataType::Jsonb),
        ],
        indices: vec![metadata],
        primary_key: Some(index("pk_issues", &["id"], IndexType::BTree, true)),
    }
}

fn build_trace_source_test_schemas() -> SchemaCatalog {
    let mut schemas = SchemaCatalog::new();
    schemas.insert("users".to_string(), users_table());
    schemas.insert("issues".to_string(), issues_table());
    schemas
}

fn ids(list: &[u64]) -> RowIdSet {
    RowIdSet::from_list(list)
}

fn rows_query(id: u64) -> LiveQuery {
    LiveQuery { id, kind: LiveQueryKind::Rows }
}

fn graphql_query(id: u64) -> LiveQuery {
    LiveQuery { id, kind: LiveQueryKind::Graphql }
}

#[test]
fn test_delta_flush_moves_single_delta_query_without_clone_when_snapshot_does_not_need_deltas() {
    let mut registry = LiveRegistry::new();
    registry.register_delta(rows_query(1), &LiveDependencySet::new(vec![1], Vec::new()));

    let mut delta_changes: IdTable<Vec<RowDelta>> = IdTable::new();
    delta_changes.insert(1, vec![RowDelta::insert(Row::new(1, vec![Value::Int64(10)]))]);
    let flush = registry.flush_delta_lane(delta_changes, &ids(&[1]));

    assert_eq!(flush.counts.delta_table_count, 1);
    assert_eq!(flush.counts.delta_query_count, 1);
    assert_eq!(flush.counts.clone_count, 0);
    let observed: usize = flush.dispatches.iter().map(|dispatch| dispatch.deltas.len()).sum();
    assert_eq!(observed, 1);
    assert!(!flush.left.contains_key(1));
}

#[test]
fn deltas_are_copied_for_all_queries_but_the_last() {
    let mut registry = LiveRegistry::new();
    let dependencies = LiveDependencySet::new(vec![1], Vec::new());
    registry.register_delta(rows_query(1), &dependencies);
    registry.register_delta(graphql_query(2), &dependencies);

    let mut deltas: IdTable<Vec<RowDelta>> = IdTable::new();
    deltas.insert(1, vec![
        RowDelta::delete(Row::new(7, vec![Value::Int64(1)])),
        RowDelta::insert(Row::new(7, vec![Value::Int64(2)])),
    ]);
    let flush = registry.flush_delta_lane(deltas, &ids(&[1, 2]));

    assert_eq!(flush.counts.delta_query_count, 2);
    assert_eq!(flush.counts.rows_query_count, 1);
    assert_eq!(flush.counts.graphql_query_count, 1);
    assert_eq!(flush.counts.clone_count, 1);
    assert_eq!(flush.dispatches.len(), 2);
    for dispatch in &flush.dispatches {
        assert_eq!(dispatch.table, 1);
        let diffs: Vec<i32> = dispatch.deltas.iter().map(|delta| delta.diff).collect();
        assert_eq!(diffs, vec![-1, 1]);
    }
}

#[test]
fn deltas_stay_for_snapshot_queries() {
    let mut registry = LiveRegistry::new();
    let dependencies = LiveDependencySet::new(vec![1], Vec::new());
    registry.register_delta(rows_query(1), &dependencies);
    registry.register_snapshot(rows_query(2), &dependencies);

    let mut deltas: IdTable<Vec<RowDelta>> = IdTable::new();
    deltas.insert(1, vec![RowDelta::insert(Row::new(1, vec![Value::Int64(10)]))]);
    let flush = registry.flush_delta_lane(deltas, &ids(&[1, 2]));

    assert_eq!(flush.dispatches.len(), 1);
    assert!(flush.left.contains_key(1));
}

#[test]
fn changes_are_gathered_until_they_are_taken() {
    let mut registry = LiveRegistry::new();
    assert_eq!(registry.query_count(), 0);
    let dependencies = LiveDependencySet::snapshot(vec![2, 1, 2]);
    assert_eq!(dependencies.tables, vec![1, 2]);
    registry.register_snapshot(rows_query(1), &dependencies);
    assert_eq!(registry.query_count(), 2);
    assert!(!registry.has_pending_changes());

    assert!(registry.on_table_change(1, &ids(&[5])));
    assert!(!registry.on_table_change(1, &ids(&[4])));
    assert!(!registry.on_table_change_delta(
        2,
        vec![RowDelta::insert(Row::new(9, Vec::new()))],
        &ids(&[9]),
    ));
    assert!(registry.has_pending_changes());

    let (changes, deltas) = registry.take_pending();
    assert_eq!(changes.get(1).unwrap().sorted(), vec![4, 5]);
    assert_eq!(changes.get(2).unwrap().sorted(), vec![9]);
    assert_eq!(deltas.get(2).unwrap().len(), 1);
    assert!(!registry.has_pending_changes());
    assert!(registry.on_table_change(1, &ids(&[6])));
}

#[test]
fn snapshot_queries_see_the_changes_of_their_tables() {
    let mut registry = LiveRegistry::new();
    registry.register_snapshot(rows_query(1), &LiveDependencySet::snapshot(vec![1, 2]));
    registry.register_snapshot(graphql_query(2), &LiveDependencySet::snapshot(vec![2]));

    let mut changes: IdTable<RowIdSet> = IdTable::new();
    changes.insert(1, ids(&[10]));
    changes.insert(2, ids(&[20, 21]));
    let (rows, graphql) = registry.flush_snapshot_lane(&changes);

    let first = rows.get(1).unwrap();
    assert_eq!(first.get(1).unwrap().sorted(), vec![10]);
    assert_eq!(first.get(2).unwrap().sorted(), vec![20, 21]);
    let second = graphql.get(2).unwrap();
    assert!(second.get(1).is_none());
    assert_eq!(second.get(2).unwrap().sorted(), vec![20, 21]);
}

#[test]
fn queries_without_subscribers_are_dropped() {
    let mut registry = LiveRegistry::new();
    let dependencies = LiveDependencySet::snapshot(vec![1]);
    registry.register_snapshot(rows_query(1), &dependencies);
    registry.register_snapshot(rows_query(2), &dependencies);
    registry.register_delta(graphql_query(3), &dependencies);
    assert_eq!(registry.query_count(), 3);
    assert!(registry.has_active_snapshot_queries(1, &ids(&[2])));
    assert!(!registry.has_active_snapshot_queries(1, &ids(&[3])));
    registry.gc_dead_queries(&ids(&[2]));
    assert_eq!(registry.query_count(), 1);
}

#[test]
fn outputs_tell_their_engine() {
    let dependencies = || LiveDependencySet::graphql(vec![3, 1, 3], vec![3]);
    assert_eq!(dependencies().tables, vec![1, 3]);
    assert_eq!(dependencies().root_tables, vec![3]);
    let snapshot = LivePlanDescriptor::new(LiveOutputKind::GraphqlSnapshot, dependencies());
    assert!(matches!(snapshot.engine, LiveEngineKind::Snapshot));
    let delta = LivePlanDescriptor::new(LiveOutputKind::RowsDelta, dependencies());
    assert!(matches!(delta.engine, LiveEngineKind::Delta));
}

fn equal(left: Expr, right: Expr) -> Expr {
    Expr::binary(left, BinaryOp::Eq, right)
}

#[test]
fn test_collect_trace_bootstrap_source_bindings_preserves_source_order_and_access_paths() {
    let table_schemas = build_trace_source_test_schemas();
    let mut table_ids = TableIdMap::new();
    table_ids.insert("users".to_string(), 1);
    table_ids.insert("issues".to_string(), 2);

    let plan = PhysicalPlan::HashJoin {
        left: Box::new(PhysicalPlan::IndexGet {
            table: "users".to_string(),
            index: "pk_users".to_string(),
            key: Value::Int64(7),
            limit: None,
        }),
        right: Box::new(PhysicalPlan::GinIndexScan {
            table: "issues".to_string(),
            index: "idx_issues_metadata_status".to_string(),
            key: "status".to_string(),
            value: Some("open".to_string()),
            query_type: "eq".to_string(),
            recheck: Some(equal(
                Expr::Function {
                    name: "JSONB_EXTRACT".to_string(),
                    args: vec![
                        Expr::column("issues", "metadata", 2),
                        Expr::literal(text("$.status")),
                    ],
                },
                Expr::literal(text("open")),
            )),
        }),
        condition: equal(Expr::column("users", "id", 0), Expr::column("issues", "user_id", 1)),
        join_type: JoinType::Inner,
        output_tables: vec!["users".to_string(), "issues".to_string()],
    };

    let bindings = collect_trace_bootstrap_source_bindings(&plan, &table_ids, &table_schemas);
    assert_eq!(bindings.len(), 2);
    assert_eq!(bindings[0].source_index, 0);
    assert_eq!(bindings[0].table_id, 1);
    assert_eq!(bindings[0].table_name, "users");
    assert!(matches!(bindings[0].access_path, TraceBootstrapAccessPath::IndexGet { .. }));
    assert!(bindings[0].covers_source_filter);
    assert_eq!(bindings[1].source_index, 1);
    assert_eq!(bindings[1].table_id, 2);
    assert_eq!(bindings[1].table_name, "issues");
    assert!(matches!(bindings[1].access_path, TraceBootstrapAccessPath::GinKeyValue { .. }));
    assert!(bindings[1].covers_source_filter);
    assert_eq!(source_filter_coverage(&bindings), vec![true, true]);
    assert_eq!(source_table_count(&bindings), 2);
}

#[test]
fn test_collect_trace_bootstrap_source_bindings_keeps_per_source_bindings_for_same_table() {
    let table_schemas = build_trace_source_test_schemas();
    let mut table_ids = TableIdMap::new();
    table_ids.insert("users".to_string(), 1);

    let plan = PhysicalPlan::HashJoin {
        left: Box::new(PhysicalPlan::TableScan { table: "users".to_string() }),
        right: Box::new(PhysicalPlan::IndexGet {
            table: "users".to_string(),
            index: "pk_users".to_string(),
            key: Value::Int64(42),
            limit: None,
        }),
        condition: equal(Expr::column("users", "id", 0), Expr::column("users", "team_id", 1)),
        join_type: JoinType::Inner,
        output_tables: vec!["users".to_string(), "users".to_string()],
    };

    let bindings = collect_trace_bootstrap_source_bindings(&plan, &table_ids, &table_schemas);
    assert_eq!(bindings.len(), 2);
    assert_eq!(bindings[0].table_id, 1);
    assert_eq!(bindings[1].table_id, 1);
    assert_eq!(bindings[0].source_index, 0);
    assert_eq!(bindings[1].source_index, 1);
    assert!(matches!(bindings[0].access_path, TraceBootstrapAccessPath::FullScan));
    assert!(!bindings[0].covers_source_filter);
    assert!(matches!(bindings[1].access_path, TraceBootstrapAccessPath::IndexGet { .. }));
    assert!(bindings[1].covers_source_filter);
    assert_eq!(source_table_count(&bindings), 1);
}

#[test]
fn test_collect_trace_bootstrap_source_bindings_does_not_mark_index_join_fallback_scan_as_covered()
{
    let table_schemas = build_trace_source_test_schemas();
    let mut table_ids = TableIdMap::new();
    table_ids.insert("users".to_string(), 1);

    let plan = PhysicalPlan::IndexNestedLoopJoin {
        outer: Box::new(PhysicalPlan::IndexGet {
            table: "users".to_string(),
            index: "pk_users".to_string(),
            key: Value::Int64(42),
            limit: None,
        }),
        inner_table: "users".to_string(),
        inner_index: "idx_users_team_id".to_string(),
        condition: equal(Expr::column("users", "id", 0), Expr::column("users", "team_id", 1)),
        join_type: JoinType::Inner,
        outer_is_left: true,
        output_tables: vec!["users".to_string(), "users".to_string()],
    };

    let bindings = collect_trace_bootstrap_source_bindings(&plan, &table_ids, &table_schemas);
    assert_eq!(bindings.len(), 2);
    assert!(matches!(bindings[0].access_path, TraceBootstrapAccessPath::IndexGet { .. }));
    assert!(bindings[0].covers_source_filter);
    assert!(matches!(bindings[1].access_path, TraceBootstrapAccessPath::FullScan));
    assert!(!bindings[1].covers_source_filter);
}

fn jsonb(json: &str) -> Value {
    Value::Jsonb(json.as_bytes().to_vec())
}

struct TestStore {
    table: Table,
    rows: Vec<Row>,
}

impl TestStore {
    fn column_of(&self, index: &str) -> usize {
        let definition = self.table.find_index(index).expect("index of the table");
        self.table.get_column_index(definition.columns[0].as_str()).expect("column of the table")
    }

    fn answer(&self, query: &StoreQuery) -> Vec<Row> {
        match query {
            StoreQuery::All => self.rows.clone(),
            StoreQuery::Scan { index, range: Some(KeyRange::Only(key)), .. } => {
                let column = self.column_of(index);
                self.rows.iter().filter(|row| row.get(column) == Some(key)).cloned().collect()
            },
            StoreQuery::GinKeyValue { index, key, value } => {
                let column = self.column_of(index);
                let member = jsonb(&format!("{{\"{key}\":\"{value}\"}}"));
                self.rows.iter().filter(|row| row.get(column) == Some(&member)).cloned().collect()
            },
            _ => panic!("a query that the store does not answer"),
        }
    }
}

fn visited_rows(store: &TestStore, binding: TraceBootstrapSourceBinding) -> Vec<u64> {
    let mut visit = BootstrapVisit::new(binding.access_path);
    while let Some(query) = visit.next_query() {
        visit.feed(store.answer(&query));
    }
    let mut slot = vec![Row::new(1000, Vec::new())];
    visit.append_to(&mut slot);
    assert_eq!(slot[0].id(), 1000);
    assert_eq!(slot.len(), 1 + visit.rows().len());
    slot[1..].iter().map(|row| row.id()).collect()
}

#[test]
fn test_visit_trace_bootstrap_binding_rows_uses_index_and_gin_access_paths() {
    let users = TestStore {
        table: users_table(),
        rows: vec![
            Row::new(1, vec![Value::Int64(1), Value::Int64(10)]),
            Row::new(2, vec![Value::Int64(2), Value::Int64(20)]),
        ],
    };
    let issues = TestStore {
        table: issues_table(),
        rows: vec![
            Row::new(
                11,
                vec![Value::Int64(11), Value::Int64(1), jsonb("{\"status\":\"open\"}")],
            ),
            Row::new(
                12,
                vec![Value::Int64(12), Value::Int64(2), jsonb("{\"status\":\"closed\"}")],
            ),
        ],
    };

    let index_binding = TraceBootstrapSourceBinding {
        source_index: 0,
        table_id: 1,
        table_name: "users".to_string(),
        access_path: TraceBootstrapAccessPath::IndexGet {
            index: "pk_users".to_string(),
            key: Value::Int64(2),
            limit: None,
        },
        covers_source_filter: true,
    };
    assert_eq!(visited_rows(&users, index_binding), vec![2]);

    let gin_binding = TraceBootstrapSourceBinding {
        source_index: 1,
        table_id: 2,
        table_name: "issues".to_string(),
        access_path: TraceBootstrapAccessPath::GinKeyValue {
            index: "idx_issues_metadata_status".to_string(),
            key: "status".to_string(),
            value: "open".to_string(),
        },
        covers_source_filter: true,
    };
    assert_eq!(visited_rows(&issues, gin_binding), vec![11]);
}

#[test]
fn rows_found_under_several_keys_are_visited_once() {
    let path = TraceBootstrapAccessPath::IndexInGet {
        index: "pk_users".to_string(),
        keys: vec![Value::Int64(2), Value::Int64(2), Value::Int64(1)],
    };
    let users = TestStore {
        table: users_table(),
        rows: vec![
            Row::new(1, vec![Value::Int64(1), Value::Int64(10)]),
            Row::new(2, vec![Value::Int64(2), Value::Int64(20)]),
        ],
    };
    let binding = TraceBootstrapSourceBinding {
        source_index: 0,
        table_id: 1,
        table_name: "users".to_string(),
        access_path: path,
        covers_source_filter: true,
    };
    assert_eq!(visited_rows(&users, binding), vec![2, 1]);
}

#[test]
fn integer_keys_are_looked_up_in_both_integer_types() {
    assert_eq!(
        trace_bootstrap_sql_point_lookup_keys(&Value::Int32(7)),
        vec![Value::Int32(7), Value::Int64(7)]
    );
    assert_eq!(
        trace_bootstrap_sql_point_lookup_keys(&Value::Int64(7)),
        vec![Value::Int64(7), Value::Int32(7)]
    );
    assert_eq!(
        trace_bootstrap_sql_point_lookup_keys(&Value::Int64(1 << 40)),
        vec![Value::Int64(1 << 40)]
    );
    assert_eq!(trace_bootstrap_sql_point_lookup_keys(&text("x")), vec![text("x")]);
}

#[test]
fn capacity_hints_follow_the_access_path() {
    assert_eq!(
        trace_bootstrap_slot_capacity_hint(&TraceBootstrapAccessPath::FullScan, 12, &[]),
        Some(12)
    );
    let pairs = || vec![("a".to_string(), "1".to_string()), ("b".to_string(), "2".to_string())];
    let all = TraceBootstrapAccessPath::GinMulti {
        index: "idx".to_string(),
        pairs: pairs(),
        match_all: true,
    };
    assert_eq!(trace_bootstrap_slot_capacity_hint(&all, 12, &[5, 3]), Some(3));
    let any = TraceBootstrapAccessPath::GinMulti {
        index: "idx".to_string(),
        pairs: pairs(),
        match_all: false,
    };
    assert_eq!(trace_bootstrap_slot_capacity_hint(&any, 12, &[5, 3]), Some(8));
}

#[test]
fn scans_of_composite_indexes_keep_their_bounds() {
    let mut schemas = SchemaCatalog::new();
    let mut users = users_table();
    users.indices.push(index("idx_pair", &["team_id", "id"], IndexType::BTree, false));
    schemas.insert("users".to_string(), users);
    let mut table_ids = TableIdMap::new();
    table_ids.insert("users".to_string(), 4);
    let plan = PhysicalPlan::IndexScan {
        table: "users".to_string(),
        index: "idx_pair".to_string(),
        bounds: IndexBounds::Composite(KeyRange::Only(vec![Value::Int64(1), Value::Int64(2)])),
        limit: Some(3),
        offset: None,
        reverse: false,
    };
    let bindings = collect_trace_bootstrap_source_bindings(&plan, &table_ids, &schemas);
    assert_eq!(bindings.len(), 1);
    assert_eq!(bindings[0].table_id, 4);
    match &bindings[0].access_path {
        TraceBootstrapAccessPath::IndexScanComposite { range, limit, offset, reverse, .. } => {
            match range {
                Some(KeyRange::Only(key)) => {
                    assert_eq!(*key, vec![Value::Int64(1), Value::Int64(2)])
                },
                _ => panic!("the key is kept"),
            }
            assert_eq!(*limit, Some(3));
            assert_eq!(*offset, 0);
            assert!(!*reverse);
        },
        _ => panic!("a composite index is scanned by tuples"),
    }
}

#[test]
fn lookups_take_rows_once_and_up_to_their_limit() {
    let row = |id: u64| Row::new(id, Vec::new());
    let path = |limit: Option<usize>| TraceBootstrapAccessPath::IndexGet {
        index: "idx".to_string(),
        key: Value::Int64(1),
        limit,
    };
    let mut visit = BootstrapVisit::new(path(Some(3)));
    let mut asked = Vec::new();
    for rows in [vec![row(1), row(2)], vec![row(2), row(3), row(4)]] {
        match visit.next_query() {
            Some(StoreQuery::Scan { limit, .. }) => asked.push(limit),
            Some(other) => panic!("unexpected read {:?}", other),
            None => break,
        }
        visit.feed(rows);
    }
    assert_eq!(asked, vec![Some(3), Some(1)]);
    assert!(visit.next_query().is_none());
    let ids: Vec<u64> = visit.rows().iter().map(|row| row.id()).collect();
    assert_eq!(ids, vec![1, 2, 3]);
    let mut slot = Vec::new();
    BootstrapVisit::new(path(None)).append_to(&mut slot);
    assert!(slot.is_empty());
}
