use cynos_database::collections::RowIdSet;
use cynos_database::column_names::{joined_column_names, projected_column_names, without_table};
use cynos_database::database::{
    build_graphql_dependency_bindings, build_graphql_dependency_set, check_executable,
    check_subscription, compile_graphql_live_plan, notify_graphql_changes, Database,
    GraphqlRootPlan, OperationKind, RootFieldInfo, RowChange, TableChange,
};
use cynos_database::js_convert::{JsInput, JsNumber, JsProperty};
use cynos_database::live_registry::{
    LiveDependencySet, LiveEngineKind, LiveQuery, LiveQueryKind, LiveRegistry, RowDelta,
};
use cynos_database::expr::{BinaryOp, Expr};
use cynos_database::plan::{JoinType, PhysicalPlan, SortOrder};
use cynos_database::row::Row;
use cynos_database::schema::{Column, DataType, IndexDef, IndexType, SchemaCatalog, Table};
use cynos_database::tables::IdTable;
use cynos_database::transaction::{
    collect_candidate_rows, collect_point_equalities, find_single_column_index,
    lookup_rows_for_predicate, update_rows, JsTransaction, RowFilter, RowLookup, TransactionError,
};
use cynos_database::value::Value;

fn index(name: &str, columns: &[&str], index_type: IndexType) -> IndexDef {
    IndexDef {
        name: name.to_string(),
        normalized_name: name.to_string(),
        columns: columns.iter().map(|column| column.to_string()).collect(),
        index_type,
        unique: false,
        gin_paths: None,
    }
}

fn table(name: &str, columns: &[(&str, DataType)]) -> Table {
    Table {
        name: name.to_string(),
        columns: columns
            .iter()
            .map(|(column, data_type)| Column {
                name: column.to_string(),
                data_type: *data_type,
                nullable: false,
            })
            .collect(),
        indices: Vec::new(),
        primary_key: Some(index("pk", &["id"], IndexType::BTree)),
    }
}

fn users() -> Table {
    let mut users = table(
        "users",
        &[("id", DataType::Int64), ("name", DataType::String), ("age", DataType::Int32)],
    );
    users.indices.push(index("idx_age", &["age"], IndexType::BTree));
    users
}

fn number(value: f64) -> JsProperty {
    JsProperty {
        value: JsInput::Number(JsNumber {
            bits: value.to_bits(),
            int32: value as i32,
            int64: value as i64,
            whole: value.fract() == 0.0,
            fits_int32: true,
        }),
        json: None,
    }
}

fn text(text: &str) -> JsProperty {
    JsProperty { value: JsInput::Text(text.to_string()), json: None }
}

fn equals(column: &str, value: JsProperty) -> RowFilter {
    RowFilter::Equals { table: None, column: column.to_string(), value }
}

fn both(left: RowFilter, right: RowFilter) -> RowFilter {
    RowFilter::And { left: Box::new(left), right: Box::new(right) }
}

fn user(id: u64, name: &str, age: i32) -> Row {
    Row::new(
        id,
        vec![Value::Int64(id as i64), Value::String(name.to_string()), Value::Int32(age)],
    )
}

#[test]
fn equalities_on_keys_are_looked_up() {
    let schema = users();
    match lookup_rows_for_predicate(&schema, &[0], Some(&equals("id", number(7.0)))) {
        Ok(RowLookup::PrimaryKey(key)) => assert_eq!(key, vec![Value::Int64(7)]),
        _ => panic!("the primary key is used"),
    }
    match lookup_rows_for_predicate(&schema, &[0], Some(&equals("age", number(30.0)))) {
        Ok(RowLookup::Index { name, value }) => {
            assert_eq!(name, "idx_age");
            assert_eq!(value, Value::Int32(30));
        },
        _ => panic!("the index is used"),
    }
    let filter = both(equals("age", number(30.0)), equals("id", number(7.0)));
    assert!(matches!(
        lookup_rows_for_predicate(&schema, &[0], Some(&filter)),
        Ok(RowLookup::PrimaryKey(_))
    ));
    let filter = both(equals("id", number(7.0)), RowFilter::Other);
    assert!(matches!(
        lookup_rows_for_predicate(&schema, &[0], Some(&filter)),
        Ok(RowLookup::All)
    ));
    assert!(matches!(lookup_rows_for_predicate(&schema, &[0], None), Ok(RowLookup::All)));
    let error = lookup_rows_for_predicate(&schema, &[0], Some(&equals("id", text("x"))));
    assert_eq!(error.unwrap_err().message(), "Expected number or BigInt value");
}

#[test]
fn conflicting_equalities_are_not_looked_up() {
    let schema = users();
    let mut found = IdTable::new();
    let filter = both(equals("id", number(7.0)), equals("id", number(8.0)));
    assert!(matches!(collect_point_equalities(&schema, &filter, &mut found), Ok(false)));
    let mut found = IdTable::new();
    let filter = both(equals("id", number(7.0)), equals("id", number(7.0)));
    assert!(matches!(collect_point_equalities(&schema, &filter, &mut found), Ok(true)));
    assert_eq!(found.get(0), Some(&Value::Int64(7)));
    assert_eq!(find_single_column_index(&schema, 2), Some("idx_age".to_string()));
    assert_eq!(find_single_column_index(&schema, 1), None);
}

#[test]
fn candidate_rows_meet_the_condition() {
    let rows = vec![user(1, "Ann", 30), user(2, "Bea", 31), user(3, "Cid", 32)];
    let ids = |rows: &[Row]| rows.iter().map(|row| row.id()).collect::<Vec<u64>>();
    let kept = collect_candidate_rows(&rows, Some(&[true, false, true]));
    assert_eq!(ids(&kept), vec![1, 3]);
    assert_eq!(kept[1].get(1), Some(&Value::String("Cid".to_string())));
    assert_eq!(ids(&collect_candidate_rows(&rows, None)), vec![1, 2, 3]);
    assert!(collect_candidate_rows(&[], Some(&[])).is_empty());
}

#[test]
fn updates_make_new_versions() {
    let schema = users();
    let rows = vec![user(1, "Ann", 30)];
    let updates = vec![("name".to_string(), text("Bea")), ("other".to_string(), text("x"))];
    let updated = update_rows(&rows, &schema, &updates).unwrap();
    assert_eq!(updated[0].id(), 1);
    assert_eq!(updated[0].version(), rows[0].version() + 1);
    assert_eq!(updated[0].get(1), Some(&Value::String("Bea".to_string())));
    assert_eq!(updated[0].get(2), Some(&Value::Int32(30)));
    let error = update_rows(&rows, &schema, &[("name".to_string(), number(1.0))]).unwrap_err();
    assert_eq!(error.message(), "Expected string value");
}

fn registry() -> LiveRegistry {
    let mut registry = LiveRegistry::new();
    registry.register_snapshot(
        LiveQuery { id: 1, kind: LiveQueryKind::Rows },
        &LiveDependencySet::snapshot(vec![1]),
    );
    registry
}

#[test]
fn commits_hand_changes_to_live_queries() {
    let mut registry = registry();
    let mut transaction = JsTransaction::new();
    assert!(transaction.active());
    assert_eq!(transaction.state(), "active");
    transaction.record_inserted(Some(1), &[user(1, "Ann", 30), user(2, "Bea", 31)]);
    transaction.record_updated(Some(1), &[user(1, "Ann", 30)], &[user(1, "Ann", 32)]);
    transaction.record_deleted(Some(1), &[user(2, "Bea", 31)]);
    transaction.record_deleted(None, &[user(3, "Cid", 31)]);
    let counts = match transaction.commit(None, &mut registry) {
        Ok(counts) => counts,
        Err(error) => panic!("{}", error.message()),
    };
    assert_eq!(counts.changed_table_count, 1);
    assert_eq!(counts.changed_row_count, 2);
    assert_eq!(counts.delta_row_count, 5);
    assert!(registry.flush_is_scheduled());
    assert!(!transaction.active());
    let (changes, deltas) = registry.take_pending();
    assert_eq!(changes.get(1).unwrap().sorted(), vec![1, 2]);
    let diffs: Vec<i32> = deltas.get(1).unwrap().iter().map(|delta| delta.diff).collect();
    assert_eq!(diffs, vec![1, 1, -1, 1, -1]);

    let again = transaction.commit(None, &mut registry);
    assert_eq!(again.unwrap_err().message(), "Transaction already completed");
}

#[test]
fn rollbacks_hand_over_nothing_but_the_rows_to_read_again() {
    let mut registry = registry();
    let mut transaction = JsTransaction::new();
    transaction.record_pending_change(
        Some(1),
        &RowIdSet::from_list(&[4]),
        vec![RowDelta::insert(user(4, "Dan", 1))],
    );
    assert!(transaction.rollback(None, &mut registry).is_ok());
    assert!(!transaction.active());
    let (_, deltas) = registry.take_pending();
    assert!(deltas.get(1).is_none());
    assert_eq!(
        transaction.rollback(None, &mut registry).unwrap_err().message(),
        "Transaction already completed"
    );
}

#[test]
fn failed_commits_report_the_storage() {
    let mut registry = registry();
    let mut transaction = JsTransaction::new();
    let failed = transaction.commit(Some("duplicate key".to_string()), &mut registry);
    assert_eq!(failed.unwrap_err().message(), "duplicate key");
    assert!(!transaction.active());
}

#[test]
fn completed_transactions_refuse_every_call() {
    let schema = users();
    for commits in [true, false] {
        let mut registry = registry();
        let mut transaction = JsTransaction::new();
        if commits {
            assert!(transaction.commit(None, &mut registry).is_ok());
        } else {
            assert!(transaction.rollback(None, &mut registry).is_ok());
        }
        let item = Some(vec![Some(number(1.0)), Some(text("Ann")), Some(number(30.0))]);
        let inserted = transaction.insert("users", Some(&schema), Some(&[item]), 5);
        let updated = transaction.update("users", Some(&schema), &[0], true, None);
        let deleted = transaction.delete("ghosts", None, &[0], None);
        let committed = transaction.commit(Some("late".to_string()), &mut registry);
        let rolled_back = transaction.rollback(None, &mut registry);
        let errors = [
            inserted.err().unwrap().message(),
            updated.err().unwrap().message(),
            deleted.err().unwrap().message(),
            committed.err().unwrap().message(),
            rolled_back.err().unwrap().message(),
        ];
        for message in errors {
            assert_eq!(message, "Transaction already completed");
        }
        assert_eq!(transaction.state(), "completed");
        assert!(!registry.has_pending_changes());
    }
}

#[test]
fn operations_need_their_table() {
    let transaction = JsTransaction::new();
    let schema = users();
    let message = |error: TransactionError| error.message();
    assert_eq!(
        message(transaction.delete("ghosts", None, &[0], None).unwrap_err()),
        "Table not found: ghosts"
    );
    assert_eq!(
        message(transaction.update("users", Some(&schema), &[0], false, None).unwrap_err()),
        "set_values must be an object"
    );
    assert_eq!(
        message(transaction.insert("users", Some(&schema), None, 1).unwrap_err()),
        "Expected array value"
    );
    let item = Some(vec![Some(number(1.0)), Some(text("Ann")), Some(number(30.0))]);
    let rows = match transaction.insert("users", Some(&schema), Some(&[item]), 5) {
        Ok(rows) => rows,
        Err(error) => panic!("{}", error.message()),
    };
    assert_eq!(rows[0].id(), 5);
    assert_eq!(rows[0].get(2), Some(&Value::Int32(30)));
}

#[test]
fn tables_get_fresh_identifiers() {
    let mut database = Database::new("app");
    assert_eq!(database.name(), "app");
    let users = database.register_table("users".to_string(), None).ok().unwrap();
    let posts = database.register_table("posts".to_string(), None).ok().unwrap();
    assert_ne!(users, posts);
    assert_eq!(database.get_table_id("users"), Some(users));
    let epoch = database.schema_epoch();
    let failed = database.register_table("users".to_string(), Some("exists".to_string()));
    assert_eq!(failed.unwrap_err().message(), "exists");
    assert_eq!(database.schema_epoch(), epoch);
    assert!(database.drop_table("users", None).is_ok());
    assert_eq!(database.get_table_id("users"), None);
    assert!(database.schema_epoch() > epoch);
    let again = database.register_table("users".to_string(), None).ok().unwrap();
    assert!(again != users && again != posts);
}

fn field(is_typename: bool, delta_capable: bool) -> RootFieldInfo {
    RootFieldInfo { is_typename, delta_capable }
}

#[test]
fn operations_are_checked() {
    assert!(check_executable(OperationKind::Query).is_ok());
    assert!(check_executable(OperationKind::Mutation).is_ok());
    assert_eq!(
        check_executable(OperationKind::Subscription).unwrap_err().message(),
        "subscription operations must use subscribeGraphql() or PreparedGraphqlQuery.subscribe()"
    );
    let message = |kind: OperationKind, fields: &[RootFieldInfo]| {
        check_subscription(kind, fields).err().unwrap().message()
    };
    let kind = OperationKind::Subscription;
    assert!(check_subscription(kind, &[field(false, true)]).is_ok());
    assert_eq!(
        message(OperationKind::Query, &[field(false, true)]),
        "subscribeGraphql() only accepts subscription operations"
    );
    assert_eq!(message(kind, &[]), "GraphQL subscriptions must select exactly one root field");
    assert_eq!(
        message(kind, &[field(true, true)]),
        "GraphQL subscriptions must select a concrete root field"
    );
}

fn names(names: &[&str]) -> Vec<String> {
    names.iter().map(|name| name.to_string()).collect()
}

#[test]
fn subscriptions_depend_on_their_tables() {
    let mut database = Database::new("app");
    let users = database.register_table("users".to_string(), None).ok().unwrap();
    let posts = database.register_table("posts".to_string(), None).ok().unwrap();
    let bindings =
        build_graphql_dependency_bindings(database.table_ids(), &names(&["posts", "users"]));
    let bindings = bindings.ok().unwrap();
    let set =
        build_graphql_dependency_set(database.table_ids(), &bindings, &names(&["users"])).ok().unwrap();
    assert_eq!(set.tables, vec![users, posts]);
    assert_eq!(set.root_tables, vec![users]);
    assert_eq!(
        build_graphql_dependency_bindings(database.table_ids(), &names(&["ghosts"]))
            .err()
            .unwrap()
            .message(),
        "Table ID not found: ghosts"
    );
}

fn catalog(tables: Vec<Table>) -> SchemaCatalog {
    let mut schemas = SchemaCatalog::new();
    for table in tables {
        schemas.insert(table.name.clone(), table);
    }
    schemas
}

fn root_plan(schema: Option<Table>, plan: PhysicalPlan) -> GraphqlRootPlan {
    GraphqlRootPlan {
        table: "users".to_string(),
        schemas: catalog(schema.into_iter().collect()),
        plan_tables: names(&["users"]),
        dependency_tables: names(&["users"]),
        plan,
    }
}

fn scan() -> PhysicalPlan {
    PhysicalPlan::TableScan { table: "users".to_string() }
}

#[test]
fn maintainable_subscriptions_are_maintained() {
    let mut database = Database::new("app");
    database.register_table("users".to_string(), None).ok().unwrap();
    let compile = |field: RootFieldInfo, root: GraphqlRootPlan| {
        compile_graphql_live_plan(database.table_ids(), field, root)
    };
    let delta = compile(field(false, true), root_plan(Some(users()), scan())).ok().unwrap();
    assert_eq!(delta.descriptor.engine, LiveEngineKind::Delta);
    assert!(delta.delta.is_some());
    let snapshot = compile(field(false, false), root_plan(Some(users()), scan())).ok().unwrap();
    assert_eq!(snapshot.descriptor.engine, LiveEngineKind::Snapshot);
    assert!(snapshot.delta.is_none());
    let sorted = PhysicalPlan::Sort {
        input: Box::new(scan()),
        order_by: vec![(cynos_database::expr::Expr::column("users", "id", 0), SortOrder::Asc)],
    };
    let snapshot = compile(field(false, true), root_plan(Some(users()), sorted)).ok().unwrap();
    assert_eq!(snapshot.descriptor.engine, LiveEngineKind::Snapshot);
    let missing = compile(field(false, true), root_plan(None, scan()));
    assert_eq!(missing.err().unwrap().message(), "Table not found: users");
}

fn table_scan(table: &str) -> PhysicalPlan {
    PhysicalPlan::TableScan { table: table.to_string() }
}

fn at_least(table: &str, column: &str, index: usize, value: i32) -> Expr {
    Expr::binary(
        Expr::column(table, column, index),
        BinaryOp::Ge,
        Expr::Literal(Value::Int32(value)),
    )
}

fn joined(left: PhysicalPlan, right: PhysicalPlan, condition: Expr, tables: &[&str]) -> PhysicalPlan {
    PhysicalPlan::HashJoin {
        left: Box::new(left),
        right: Box::new(right),
        condition,
        join_type: JoinType::Inner,
        output_tables: names(tables),
    }
}

fn issue_tables() -> Vec<Table> {
    vec![
        table(
            "issues",
            &[
                ("id", DataType::Int64),
                ("projectId", DataType::Int64),
                ("title", DataType::String),
                ("status", DataType::String),
            ],
        ),
        table("projects", &[("id", DataType::Int64), ("healthScore", DataType::Int32)]),
        table(
            "projectCounters",
            &[("projectId", DataType::Int64), ("openIssueCount", DataType::Int32)],
        ),
        table(
            "projectSnapshots",
            &[("projectId", DataType::Int64), ("velocity", DataType::Int32)],
        ),
    ]
}

fn filtered(table: &str, column: &str, value: i32) -> PhysicalPlan {
    PhysicalPlan::Filter {
        input: Box::new(table_scan(table)),
        predicate: at_least(table, column, 1, value),
    }
}

fn issue_feed() -> PhysicalPlan {
    let equal = |left: Expr, right: Expr| Expr::binary(left, BinaryOp::Eq, right);
    let open = PhysicalPlan::Filter {
        input: Box::new(table_scan("issues")),
        predicate: equal(
            Expr::column("issues", "status", 3),
            Expr::Literal(Value::String("open".to_string())),
        ),
    };
    let with_projects = joined(
        open,
        filtered("projects", "healthScore", 45),
        equal(Expr::column("issues", "projectId", 1), Expr::column("projects", "id", 0)),
        &["issues", "projects"],
    );
    let with_counters = joined(
        with_projects,
        filtered("projectCounters", "openIssueCount", 5),
        equal(
            Expr::column("projects", "id", 0),
            Expr::column("projectCounters", "projectId", 0),
        ),
        &["issues", "projects", "projectCounters"],
    );
    joined(
        with_counters,
        filtered("projectSnapshots", "velocity", 18),
        equal(
            Expr::column("projects", "id", 0),
            Expr::column("projectSnapshots", "projectId", 0),
        ),
        &["issues", "projects", "projectCounters", "projectSnapshots"],
    )
}

#[test]
fn subscriptions_filtered_through_relations_are_maintained() {
    let mut database = Database::new("app");
    let all = names(&["issues", "projects", "projectCounters", "projectSnapshots"]);
    for table in &all {
        database.register_table(table.clone(), None).ok().unwrap();
    }
    let root = |schemas: SchemaCatalog| GraphqlRootPlan {
        table: "issues".to_string(),
        schemas,
        plan_tables: all.clone(),
        dependency_tables: all.clone(),
        plan: issue_feed(),
    };
    let live = compile_graphql_live_plan(
        database.table_ids(),
        field(false, true),
        root(catalog(issue_tables())),
    );
    let live = live.ok().unwrap();
    assert_eq!(live.descriptor.engine, LiveEngineKind::Delta);
    let sources: Vec<String> = live
        .delta
        .unwrap()
        .source_bindings
        .iter()
        .map(|source| source.table_name.clone())
        .collect();
    assert_eq!(sources, all);
    let partly = compile_graphql_live_plan(
        database.table_ids(),
        field(false, true),
        root(catalog(issue_tables().into_iter().take(2).collect())),
    );
    assert_eq!(partly.ok().unwrap().descriptor.engine, LiveEngineKind::Snapshot);
}

#[test]
fn mutations_notify_live_queries() {
    let mut database = Database::new("app");
    let id = database.register_table("users".to_string(), None).ok().unwrap();
    let mut registry = LiveRegistry::new();
    registry.register_delta(
        LiveQuery { id: 1, kind: LiveQueryKind::Rows },
        &LiveDependencySet::snapshot(vec![id]),
    );
    let changes = vec![
        TableChange {
            table_name: "users".to_string(),
            row_changes: vec![
                RowChange::Insert(user(1, "Ann", 30)),
                RowChange::Update { old_row: user(2, "Bea", 1), new_row: user(2, "Bea", 2) },
                RowChange::Delete(user(3, "Cid", 3)),
            ],
        },
        TableChange {
            table_name: "ghosts".to_string(),
            row_changes: vec![RowChange::Insert(user(9, "Dan", 30))],
        },
    ];
    assert!(!registry.flush_is_scheduled());
    notify_graphql_changes(&mut registry, database.table_ids(), &changes);
    assert!(registry.flush_is_scheduled());
    let (changed, deltas) = registry.take_pending();
    assert_eq!(changed.len(), 1);
    assert_eq!(changed.get(id as u64).unwrap().sorted(), vec![1, 2, 3]);
    let diffs: Vec<i32> = deltas.get(id as u64).unwrap().iter().map(|delta| delta.diff).collect();
    assert_eq!(diffs, vec![1, -1, 1, -1]);
    assert!(!registry.flush_is_scheduled());
}

#[test]
fn column_names_stay_apart() {
    assert_eq!(without_table(&"users.name".to_string()), "name");
    assert_eq!(
        projected_column_names(&names(&["users.id", "posts.id", "users.name"])),
        names(&["users.id", "posts.id", "name"])
    );
    let posts = table("posts", &[("id", DataType::Int64), ("title", DataType::String)]);
    let joined = joined_column_names(&[users(), posts]);
    assert_eq!(joined, names(&["users.id", "name", "age", "posts.id", "title"]));
}
