use cynos_database::collections::RowIdSet;
use cynos_database::data_source::{
    index_point_scan, index_range_scan, scalar_range, RowScope, TableSubsetDataSource,
};
use cynos_database::expr::{BinaryOp, Expr};
use cynos_database::gin_cost::{
    extract_gin_cost_request, extract_literal_string, gin_cost_keys, normalize_gin_path,
    number_text, GinOperand, JsonPath, LogicalPlan,
};
use cynos_database::plan::KeyRange;
use cynos_database::query_context::{
    build_execution_context_for_plan, build_execution_context_for_plan_with_profile,
    CompilePlanProfile, ExecutionContext, TableContext, TableInfo,
};
use cynos_database::refresh_policy::{RestrictedAccessMode, RootSubsetPlanVariant};
use cynos_database::schema::{Column, DataType, IndexDef, IndexType, Table};
use cynos_database::tables::NameTable;
use cynos_database::value::{Float64Bits, Value};

fn index(name: &str, column: &str, index_type: IndexType, unique: bool) -> IndexDef {
    IndexDef {
        name: name.to_string(),
        normalized_name: name.to_string(),
        columns: vec![column.to_string()],
        index_type,
        unique,
        gin_paths: None,
    }
}

fn table(name: &str, columns: &[(&str, DataType)], indices: Vec<IndexDef>) -> Table {
    Table {
        name: name.to_string(),
        columns: columns
            .iter()
            .map(|(column, data_type)| Column {
                name: column.to_string(),
                data_type: *data_type,
                nullable: false,
            })
            .collect(),
        indices,
        primary_key: Some(index(&format!("pk_{name}"), "id", IndexType::BTree, true)),
    }
}

fn join_test_stores() -> NameTable<TableInfo> {
    let users = table("users", &[("id", DataType::Int64), ("name", DataType::String)], Vec::new());
    let orders = table(
        "orders",
        &[("id", DataType::Int64), ("user_id", DataType::Int64), ("amount", DataType::Int64)],
        vec![index("idx_user_id", "user_id", IndexType::BTree, false)],
    );
    let mut stores = NameTable::new();
    stores.insert("users".to_string(), TableInfo { schema: users, row_count: 32 });
    stores.insert("orders".to_string(), TableInfo { schema: orders, row_count: 4096 });
    stores
}

fn join_plan(left: (&str, &str, usize), right: (&str, &str, usize)) -> LogicalPlan {
    LogicalPlan::Join {
        left: Box::new(LogicalPlan::Source),
        right: Box::new(LogicalPlan::Source),
        condition: Expr::binary(
            Expr::column(left.0, left.1, left.2),
            BinaryOp::Eq,
            Expr::column(right.0, right.1, right.2),
        ),
    }
}

fn context_of<'a>(context: &'a ExecutionContext, table: &str) -> &'a TableContext {
    context.tables.iter().find(|known| known.table == table).expect("a table of the plan")
}

fn plan_tables(tables: &[&str]) -> Vec<String> {
    tables.iter().map(|table| table.to_string()).collect()
}

#[test]
fn test_build_execution_context_for_plan_includes_join_tables() {
    let stores = join_test_stores();
    let plan = join_plan(("users", "id", 0), ("orders", "user_id", 1));

    let context = build_execution_context_for_plan(
        &stores,
        "users",
        &plan_tables(&["users", "orders"]),
        &plan,
    );

    assert_eq!(context_of(&context, "users").row_count, 32);
    assert_eq!(context_of(&context, "orders").row_count, 4096);
    let found = context_of(&context, "orders")
        .indexes
        .iter()
        .find(|index| index.columns == vec!["user_id".to_string()]);
    assert!(found.is_some());
    assert_eq!(context.tables.len(), 2);
    assert!(context.intent.is_none());
}

#[test]
fn test_root_subset_profile_registers_effective_row_count_and_intent() {
    let stores = join_test_stores();
    let plan = join_plan(("orders", "user_id", 1), ("users", "id", 0));

    let context = build_execution_context_for_plan_with_profile(
        &stores,
        "orders",
        &plan_tables(&["orders", "users"]),
        &plan,
        CompilePlanProfile::RootSubset(RootSubsetPlanVariant::Small),
    );

    assert_eq!(context_of(&context, "orders").row_count, 4096);
    let intent = context.intent.as_ref().unwrap();
    assert_eq!(intent.exact_subset_rows, 1024);
    assert_eq!(intent.restricted_table, "orders");
    assert_eq!(intent.table_rows, 4096);
    assert_eq!(intent.preferred_access_mode, RestrictedAccessMode::SubsetDriven);
    assert!(intent.allow_global_fallback);
}

#[test]
fn test_execution_context_registers_gin_costs_for_literal_predicates() {
    let mut gin = index("idx_metadata_gin", "metadata", IndexType::Gin, false);
    gin.gin_paths = Some(vec!["$.tags".to_string(), "$.category".to_string()]);
    let documents = table(
        "documents",
        &[("id", DataType::Int64), ("metadata", DataType::Jsonb)],
        vec![gin],
    );
    let mut stores = NameTable::new();
    stores.insert("documents".to_string(), TableInfo { schema: documents, row_count: 3 });
    let plan = LogicalPlan::Filter {
        input: Box::new(LogicalPlan::Source),
        predicate: Expr::Function {
            name: "JSONB_PATH_EQ".to_string(),
            args: vec![
                Expr::column("documents", "metadata", 1),
                Expr::literal(Value::String("$.category".to_string())),
                Expr::literal(Value::String("tech".to_string())),
            ],
        },
    };

    let context = build_execution_context_for_plan(
        &stores,
        "documents",
        &plan_tables(&["documents"]),
        &plan,
    );
    let gin_index = context_of(&context, "documents")
        .indexes
        .iter()
        .find(|index| index.index_type == IndexType::Gin)
        .expect("expected registered GIN index on metadata column");
    assert_eq!(gin_index.columns, vec!["metadata".to_string()]);
    let candidate = &context.gin_candidates[0];
    assert_eq!(candidate.table, "documents");
    assert_eq!(candidate.column, "metadata");
    assert_eq!(candidate.path, "$.category");
    let path = JsonPath::Field {
        parent: Box::new(JsonPath::Root),
        field: "category".to_string(),
    };
    let key = normalize_gin_path(Some(&path)).unwrap();
    let costs = gin_cost_keys(&candidate.operand, &key, "", &[]);
    assert!(
        costs
            .iter()
            .any(|cost| cost.key == "category" && cost.value == Some("tech".to_string())),
        "expected registered GIN posting cost entry"
    );
}

#[test]
fn paths_become_index_keys() {
    let tags = JsonPath::Field { parent: Box::new(JsonPath::Root), field: "tags".to_string() };
    let third = JsonPath::Index { parent: Box::new(tags), index: 12 };
    assert_eq!(normalize_gin_path(Some(&third)), Some("tags.12".to_string()));
    assert_eq!(normalize_gin_path(Some(&JsonPath::Root)), None);
    assert_eq!(normalize_gin_path(Some(&JsonPath::Other)), None);
    assert_eq!(normalize_gin_path(None), None);
}

#[test]
fn numbers_are_written_in_digits() {
    assert_eq!(number_text(0), "0");
    assert_eq!(number_text(-1207), "-1207");
    assert_eq!(number_text(i64::MIN), "-9223372036854775808");
    assert_eq!(number_text(i64::MAX), "9223372036854775807");
}

#[test]
fn literals_have_texts() {
    let text = |value: Value| extract_literal_string(&value, "1.5");
    assert_eq!(text(Value::Int32(-3)), Some("-3".to_string()));
    assert_eq!(text(Value::Boolean(false)), Some("false".to_string()));
    let number = Value::Float64(Float64Bits { bits: 1.5f64.to_bits() });
    assert_eq!(text(number), Some("1.5".to_string()));
    assert_eq!(text(Value::Null), None);
}

#[test]
fn needles_have_the_costs_of_their_pairs() {
    let pairs = vec![("tags".to_string(), "por".to_string()), ("tags".to_string(), "ort".to_string())];
    let operand = GinOperand::Needle("port".to_string());
    let costs = gin_cost_keys(&operand, &"tags".to_string(), "", &pairs);
    let values: Vec<Option<String>> = costs.into_iter().map(|cost| cost.value).collect();
    assert_eq!(values, vec![None, Some("por".to_string()), Some("ort".to_string())]);
}

#[test]
fn function_names_are_matched_without_case() {
    let args = || {
        vec![
            Expr::column("documents", "metadata", 1),
            Expr::literal(Value::String("$.tags".to_string())),
        ]
    };
    let found = extract_gin_cost_request("jsonb_exists", &args()).unwrap();
    assert_eq!(found.path, "$.tags");
    assert!(matches!(found.operand, GinOperand::Nothing));
    assert!(extract_gin_cost_request("UPPER", &args()).is_none());
}

#[test]
fn subsets_are_known_by_their_table() {
    let rows = RowIdSet::from_list(&[9, 2, 5]);
    let source = TableSubsetDataSource::try_new("users", Some(100), &rows).unwrap();
    assert!(source.is_subset_table("users"));
    assert!(!source.is_subset_table("orders"));
    assert_eq!(source.restricted_row_ids(), &[2, 5, 9]);
    assert!(matches!(source.index_scope("users", true), Ok(RowScope::SubsetDriven)));
    assert!(matches!(source.index_scope("orders", true), Ok(RowScope::Table)));
    let missing = source.index_scope("orders", false).unwrap_err();
    assert_eq!(missing.table, "orders");
    let missing = source.table_scope("orders", false).unwrap_err();
    assert_eq!(missing.table, "orders");
}

#[test]
fn subsets_need_their_table() {
    let rows = RowIdSet::from_list(&[1]);
    match TableSubsetDataSource::try_new("users", None, &rows) {
        Err(error) => assert_eq!(error.table, "users"),
        Ok(_) => panic!("the table does not exist"),
    }
}

#[test]
fn bounds_become_ranges() {
    let low = Value::Int64(1);
    let high = Value::Int64(9);
    match scalar_range(Some(&low), Some(&high), true, false) {
        Some(KeyRange::Bound { lower, upper, lower_exclusive, upper_exclusive }) => {
            assert_eq!(lower, low);
            assert_eq!(upper, high);
            assert!(!lower_exclusive);
            assert!(upper_exclusive);
        },
        _ => panic!("two bounds make a range"),
    }
    match scalar_range(Some(&low), None, false, true) {
        Some(KeyRange::LowerBound { value, exclusive }) => {
            assert_eq!(value, low);
            assert!(exclusive);
        },
        _ => panic!("one bound makes a range"),
    }
    assert!(scalar_range(None, None, true, true).is_none());
    let scan =
        index_range_scan(RowScope::Table, None, Some(&high), true, true, Some(4), 2, true);
    assert!(matches!(scan.range, Some(KeyRange::UpperBound { exclusive: false, .. })));
    assert_eq!(scan.limit, Some(4));
    assert_eq!(scan.offset, 2);
    assert!(scan.reverse);
    let point = index_point_scan(RowScope::SubsetDriven, &low, None);
    assert!(matches!(point.range, Some(KeyRange::Only(Value::Int64(1)))));
}
