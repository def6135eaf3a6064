use cynos_database::dataflow::{
    compile_to_dataflow, AggregateType, DataflowNode, IvmJoinType, JoinKeySpec,
};
use cynos_database::eval::{eval_expr_with, Step};
use cynos_database::expr::{AggregateFunc, BinaryOp, Expr, UnaryOp};
use cynos_database::facts::{Comparison, EvalAnswer, EvalFacts, EvalRequest};
use cynos_database::json::{parse_json_bytes, JsonbValue};
use cynos_database::plan::{IndexBounds, JoinType, KeyRange, PhysicalPlan, SortOrder};
use cynos_database::row::{join_row_id, left_join_null_row_id, Row};
use cynos_database::schema::{
    Column, DataType, IndexDef, IndexType, SchemaCatalog, Table, TableIdMap,
};
use cynos_database::trace_predicate::{eval_predicate, CompiledTracePredicate};
use cynos_database::value::{Float64Bits, Value};

fn table(name: &str, columns: &[(&str, DataType)], key: Option<&str>) -> Table {
    Table {
        name: name.to_string(),
        columns: columns
            .iter()
            .map(|(column, data_type)| Column {
                name: column.to_string(),
                data_type: *data_type,
                nullable: false,
            })
            .collect(),
        indices: Vec::new(),
        primary_key: key.map(|column| IndexDef {
            name: format!("pk_{}", name),
            normalized_name: format!("{}.pk_{}", name, name),
            columns: vec![column.to_string()],
            index_type: IndexType::BTree,
            unique: true,
            gin_paths: None,
        }),
    }
}

fn table_schemas(entries: &[(&str, &[&str])]) -> SchemaCatalog {
    let mut catalog = SchemaCatalog::new();
    for (name, columns) in entries {
        let columns: Vec<(&str, DataType)> = columns
            .iter()
            .map(|column| (*column, DataType::String))
            .collect();
        catalog.insert(name.to_string(), table(name, &columns, None));
    }
    catalog
}

fn table_ids(entries: &[(&str, u32)]) -> TableIdMap {
    let mut ids = TableIdMap::new();
    for (name, id) in entries {
        ids.insert(name.to_string(), *id);
    }
    ids
}

fn scan(name: &str) -> PhysicalPlan {
    PhysicalPlan::TableScan { table: name.to_string() }
}

fn filter(input: PhysicalPlan, predicate: Expr) -> PhysicalPlan {
    PhysicalPlan::Filter { input: Box::new(input), predicate }
}

fn hash_join(
    left: PhysicalPlan,
    right: PhysicalPlan,
    condition: Expr,
    join_type: JoinType,
    output_tables: &[&str],
) -> PhysicalPlan {
    PhysicalPlan::HashJoin {
        left: Box::new(left),
        right: Box::new(right),
        condition,
        join_type,
        output_tables: output_tables.iter().map(|name| name.to_string()).collect(),
    }
}

fn binary(left: Expr, op: BinaryOp, right: Expr) -> Expr {
    Expr::binary(left, op, right)
}

fn jsonb_path_eq(column: Expr, path: &str, value: Value) -> Expr {
    Expr::Function {
        name: "JSONB_PATH_EQ".to_string(),
        args: vec![
            column,
            Expr::literal(Value::String(path.to_string())),
            Expr::literal(value),
        ],
    }
}

fn jsonb_value(json: &str) -> Value {
    Value::Jsonb(json.as_bytes().to_vec())
}

fn text(value: &str) -> Value {
    Value::String(value.to_string())
}

// Answers to what the evaluator asks for.

fn like(text: &[char], pattern: &[char]) -> bool {
    match pattern.first() {
        None => text.is_empty(),
        Some('%') => (0..=text.len()).any(|k| like(&text[k..], &pattern[1..])),
        Some('_') => !text.is_empty() && like(&text[1..], &pattern[1..]),
        Some(c) => text.first() == Some(c) && like(&text[1..], &pattern[1..]),
    }
}

fn regex(text: &str, pattern: &str) -> bool {
    match pattern {
        "\\d+" => text.chars().any(|c| c.is_ascii_digit()),
        "^[A-Z]" => text.chars().next().map_or(false, |c| c.is_ascii_uppercase()),
        other => panic!("unexpected pattern {}", other),
    }
}

fn segments(path: &str) -> Vec<String> {
    path.trim_start_matches('$')
        .replace('[', ".")
        .replace(']', "")
        .split('.')
        .filter(|segment| !segment.is_empty())
        .map(|segment| segment.to_string())
        .collect()
}

fn select(node: JsonbValue, segments: &[String]) -> Option<JsonbValue> {
    let Some(segment) = segments.first() else {
        return Some(node);
    };
    match node {
        JsonbValue::Object(members) => members
            .into_iter()
            .find(|(name, _)| name == segment)
            .and_then(|(_, value)| select(value, &segments[1..])),
        JsonbValue::Array(items) => segment
            .parse::<usize>()
            .ok()
            .and_then(|index| items.into_iter().nth(index))
            .and_then(|value| select(value, &segments[1..])),
        _ => None,
    }
}

fn escaped(text: &str) -> String {
    text.replace('\\', "\\\\").replace('"', "\\\"").replace('\n', "\\n")
}

fn raw(node: &JsonbValue) -> String {
    match node {
        JsonbValue::Null => "null".to_string(),
        JsonbValue::Bool(truth) => format!("{}", truth),
        JsonbValue::Number(text) => text.clone(),
        JsonbValue::String(text) => format!("\"{}\"", escaped(text)),
        _ => "[]".to_string(),
    }
}

fn answer(request: &EvalRequest) -> EvalAnswer {
    match request {
        EvalRequest::Like { text, pattern } => EvalAnswer::Truth(like(
            &text.chars().collect::<Vec<_>>(),
            &pattern.chars().collect::<Vec<_>>(),
        )),
        EvalRequest::Regex { text, pattern } => EvalAnswer::Truth(regex(text, pattern)),
        EvalRequest::JsonQuery { document, path } => EvalAnswer::Node(
            parse_json_bytes(document).and_then(|node| select(node, &segments(path))),
        ),
        EvalRequest::SimplePath { .. } => EvalAnswer::Truth(true),
        EvalRequest::SimpleExtract { document, path } => EvalAnswer::Raw(
            parse_json_bytes(document)
                .and_then(|node| select(node, &segments(path)))
                .map(|node| raw(&node).into_bytes()),
        ),
        EvalRequest::DecodeString { literal } => {
            EvalAnswer::Decoded(match parse_json_bytes(literal) {
                Some(JsonbValue::String(text)) => Some(text),
                _ => None,
            })
        }
        EvalRequest::Equals { left, right } => EvalAnswer::Truth(left == right),
        EvalRequest::Compare { .. } => EvalAnswer::Comparison(Comparison::Unordered),
        EvalRequest::Arithmetic { .. } => EvalAnswer::Number(3.5f64.to_bits()),
        EvalRequest::NumberMatches { text, value } => {
            let number: f64 = text.parse().unwrap();
            EvalAnswer::Truth(match value {
                Value::Int32(expected) => number == f64::from(*expected),
                Value::Int64(expected) => number == *expected as f64,
                _ => false,
            })
        }
        EvalRequest::JsonNodeText { document, path } => EvalAnswer::Text(
            parse_json_bytes(document)
                .and_then(|node| select(node, &segments(path)))
                .map(|node| raw(&node))
                .unwrap_or_default(),
        ),
    }
}

fn eval_expr(expr: &Expr, row: &Row) -> Value {
    let mut facts = EvalFacts::new();
    loop {
        match eval_expr_with(expr, row.values(), &facts) {
            Step::Done(value) => return value,
            Step::Need(request) => {
                let reply = answer(&request);
                facts.push(request, reply);
            }
        }
    }
}

fn compile_predicate(expr: &Expr) -> CompiledTracePredicate {
    let mut facts = EvalFacts::new();
    loop {
        match CompiledTracePredicate::compile(expr, &facts) {
            Step::Done(predicate) => return predicate,
            Step::Need(request) => {
                let reply = answer(&request);
                facts.push(request, reply);
            }
        }
    }
}

fn holds(predicate: &CompiledTracePredicate, row: &Row) -> bool {
    let mut facts = EvalFacts::new();
    loop {
        match predicate.eval(row.values(), &facts) {
            Step::Done(truth) => return truth,
            Step::Need(request) => {
                let reply = answer(&request);
                facts.push(request, reply);
            }
        }
    }
}

fn passes(predicate: &Expr, row: &Row) -> bool {
    let mut facts = EvalFacts::new();
    loop {
        match eval_predicate(predicate, row.values(), &facts) {
            Step::Done(truth) => return truth,
            Step::Need(request) => {
                let reply = answer(&request);
                facts.push(request, reply);
            }
        }
    }
}

// The rows that a graph stands for.

fn key_of(key: &JoinKeySpec, row: &Row) -> Vec<Value> {
    match key {
        JoinKeySpec::Columns(columns) => {
            columns.iter().map(|column| row.get(*column).unwrap().clone()).collect()
        }
        JoinKeySpec::Dynamic => row.values().to_vec(),
        JoinKeySpec::Constant(values) => values.iter().map(|value| value.clone()).collect(),
    }
}

fn rows_of(node: &DataflowNode, tables: &[(u32, Vec<Row>)]) -> Vec<Row> {
    match node {
        DataflowNode::Source { table_id } => tables
            .iter()
            .filter(|(id, _)| id == table_id)
            .flat_map(|(_, rows)| rows.iter().cloned())
            .collect(),
        DataflowNode::Filter { input, predicate } => rows_of(input, tables)
            .into_iter()
            .filter(|row| passes(predicate, row))
            .collect(),
        DataflowNode::Project { input, columns } => rows_of(input, tables)
            .into_iter()
            .map(|row| {
                Row::new(
                    row.id(),
                    columns.iter().map(|column| row.get(*column).unwrap().clone()).collect(),
                )
            })
            .collect(),
        DataflowNode::Compute { input, exprs } => rows_of(input, tables)
            .into_iter()
            .map(|row| {
                Row::new(row.id(), exprs.iter().map(|expr| eval_expr(expr, &row)).collect())
            })
            .collect(),
        DataflowNode::Join {
            left,
            right,
            left_key,
            right_key,
            join_type,
            right_width,
            ..
        } => {
            let left_rows = rows_of(left, tables);
            let right_rows = rows_of(right, tables);
            let mut joined = Vec::new();
            for left_row in &left_rows {
                let mut matched = false;
                for right_row in &right_rows {
                    if key_of(left_key, left_row) == key_of(right_key, right_row) {
                        matched = true;
                        let mut values = left_row.values().to_vec();
                        values.extend(right_row.values().iter().cloned());
                        joined.push(Row::new(join_row_id(left_row.id(), right_row.id()), values));
                    }
                }
                if !matched && *join_type == IvmJoinType::LeftOuter {
                    let mut values = left_row.values().to_vec();
                    values.resize(values.len() + right_width, Value::Null);
                    joined.push(Row::new(left_join_null_row_id(left_row.id()), values));
                }
            }
            joined
        }
        DataflowNode::Aggregate { .. } => panic!("unexpected aggregate"),
    }
}

#[test]
fn test_compile_table_scan() {
    let plan = scan("users");
    let table_ids = table_ids(&[("users", 1)]);
    let table_schemas = table_schemas(&[("users", &["id", "name"])]);

    let result = compile_to_dataflow(&plan, &table_ids, &table_schemas).unwrap();
    assert!(matches!(result.dataflow, DataflowNode::Source { table_id: 1 }));
    assert_eq!(result.table_ids.get("users"), Some(1));
}

#[test]
fn test_compile_filter() {
    let plan = filter(
        scan("users"),
        binary(
            Expr::column("users", "age", 1),
            BinaryOp::Gt,
            Expr::literal(Value::Int64(18)),
        ),
    );
    let table_ids = table_ids(&[("users", 1)]);
    let table_schemas = table_schemas(&[("users", &["id", "age"])]);

    let result = compile_to_dataflow(&plan, &table_ids, &table_schemas).unwrap();
    match result.dataflow {
        DataflowNode::Filter { predicate, .. } => {
            let compiled = compile_predicate(&predicate);
            assert!(holds(&compiled, &Row::new(1, vec![Value::Int64(1), Value::Int64(19)])));
            assert!(!holds(&compiled, &Row::new(1, vec![Value::Int64(1), Value::Int64(18)])));
        }
        _ => panic!("Expected Filter node"),
    }
}

#[test]
fn test_compile_index_get_lowers_to_filtered_source() {
    let users = table(
        "users",
        &[("id", DataType::Int64), ("name", DataType::String)],
        Some("id"),
    );
    let pk_name = users.primary_key.as_ref().unwrap().name.clone();
    let mut table_schemas = SchemaCatalog::new();
    table_schemas.insert("users".to_string(), users);

    let plan = PhysicalPlan::IndexGet {
        table: "users".to_string(),
        index: pk_name,
        key: Value::Int64(1),
        limit: None,
    };
    let table_ids = table_ids(&[("users", 1)]);

    let result = compile_to_dataflow(&plan, &table_ids, &table_schemas).unwrap();
    assert!(matches!(result.dataflow, DataflowNode::Filter { .. }));

    let rows = rows_of(
        &result.dataflow,
        &[(
            1,
            vec![
                Row::new(1, vec![Value::Int64(1), text("Alice")]),
                Row::new(2, vec![Value::Int64(2), text("Bob")]),
            ],
        )],
    );
    assert_eq!(rows.len(), 1);
    assert_eq!(rows[0].get(0), Some(&Value::Int64(1)));
}

#[test]
fn test_compile_reverse_index_scan_is_not_incrementalizable() {
    let users = table("users", &[("id", DataType::Int64)], Some("id"));
    let pk_name = users.primary_key.as_ref().unwrap().name.clone();
    let mut table_schemas = SchemaCatalog::new();
    table_schemas.insert("users".to_string(), users);

    let plan = PhysicalPlan::IndexScan {
        table: "users".to_string(),
        index: pk_name,
        bounds: IndexBounds::Unbounded,
        limit: None,
        offset: None,
        reverse: true,
    };
    let table_ids = table_ids(&[("users", 1)]);

    assert!(compile_to_dataflow(&plan, &table_ids, &table_schemas).is_none());
}

#[test]
fn test_compile_non_incrementalizable() {
    let plan = PhysicalPlan::Sort {
        input: Box::new(scan("users")),
        order_by: vec![(Expr::column("users", "id", 0), SortOrder::Asc)],
    };
    let table_ids = table_ids(&[]);
    let table_schemas = table_schemas(&[("users", &["id"])]);
    assert!(compile_to_dataflow(&plan, &table_ids, &table_schemas).is_none());
}

#[test]
fn test_compile_hash_join() {
    let plan = hash_join(
        scan("employees"),
        scan("departments"),
        binary(
            Expr::column("employees", "dept_id", 2),
            BinaryOp::Eq,
            Expr::column("departments", "id", 0),
        ),
        JoinType::LeftOuter,
        &["employees", "departments"],
    );
    let table_ids = table_ids(&[("employees", 1), ("departments", 2)]);
    let table_schemas = table_schemas(&[
        ("employees", &["id", "name", "dept_id"]),
        ("departments", &["id", "name"]),
    ]);

    let result = compile_to_dataflow(&plan, &table_ids, &table_schemas).unwrap();
    match &result.dataflow {
        DataflowNode::Join { join_type, left_width, right_width, .. } => {
            assert_eq!(*join_type, IvmJoinType::LeftOuter);
            assert_eq!((*left_width, *right_width), (3, 2));
        }
        _ => panic!("Expected Join node"),
    }
}

#[test]
fn test_compile_computed_project_includes_trace_mapper() {
    let plan = PhysicalPlan::Project {
        input: Box::new(scan("users")),
        columns: vec![
            Expr::column("users", "id", 0),
            Expr::Function {
                name: "UPPER".to_string(),
                args: vec![Expr::column("users", "name", 1)],
            },
        ],
    };
    let table_ids = table_ids(&[("users", 1)]);
    let table_schemas = table_schemas(&[("users", &["id", "name"])]);

    let result = compile_to_dataflow(&plan, &table_ids, &table_schemas).unwrap();
    match &result.dataflow {
        DataflowNode::Compute { exprs, .. } => assert_eq!(exprs.len(), 2),
        _ => panic!("Expected Map node"),
    }
    let rows = rows_of(
        &result.dataflow,
        &[(1, vec![Row::new(1, vec![Value::Int64(1), text("straße")])])],
    );
    assert_eq!(rows[0].values(), &[Value::Int64(1), text("STRASSE")]);
}

#[test]
fn test_compile_reordered_join_wraps_join_with_projection() {
    let plan = hash_join(
        scan("departments"),
        scan("employees"),
        binary(
            Expr::column("employees", "dept_id", 1),
            BinaryOp::Eq,
            Expr::column("departments", "id", 0),
        ),
        JoinType::Inner,
        &["employees", "departments"],
    );
    let table_ids = table_ids(&[("employees", 1), ("departments", 2)]);
    let table_schemas = table_schemas(&[
        ("employees", &["id", "dept_id"]),
        ("departments", &["id", "name"]),
    ]);

    let result = compile_to_dataflow(&plan, &table_ids, &table_schemas).unwrap();
    match &result.dataflow {
        DataflowNode::Project { input, columns } => {
            assert_eq!(columns, &[2, 3, 0, 1]);
            assert!(matches!(input.as_ref(), DataflowNode::Join { .. }));
        }
        _ => panic!("Expected Project over Join"),
    }
}

#[test]
fn test_compile_aggregate() {
    let plan = PhysicalPlan::HashAggregate {
        input: Box::new(scan("orders")),
        group_by: vec![Expr::column("orders", "customer_id", 0)],
        aggregates: vec![
            (AggregateFunc::Count, Expr::column("orders", "id", 1)),
            (AggregateFunc::Sum, Expr::column("orders", "amount", 2)),
        ],
    };
    let table_ids = table_ids(&[("orders", 1)]);
    let table_schemas = table_schemas(&[("orders", &["customer_id", "id", "amount"])]);

    let result = compile_to_dataflow(&plan, &table_ids, &table_schemas).unwrap();
    match &result.dataflow {
        DataflowNode::Aggregate { group_by, functions, .. } => {
            assert_eq!(group_by, &[0]);
            assert_eq!(functions.len(), 2);
            assert_eq!(functions[0].1, AggregateType::Count);
            assert_eq!(functions[1].1, AggregateType::Sum);
        }
        _ => panic!("Expected Aggregate node"),
    }
}

#[test]
fn test_eval_in_expr() {
    let row = Row::new(1, vec![Value::Int64(3), text("Alice")]);
    let expr = Expr::In {
        expr: Box::new(Expr::column("t", "id", 0)),
        list: vec![
            Expr::literal(Value::Int64(1)),
            Expr::literal(Value::Int64(3)),
            Expr::literal(Value::Int64(5)),
        ],
    };
    assert_eq!(eval_expr(&expr, &row), Value::Boolean(true));

    let expr_miss = Expr::In {
        expr: Box::new(Expr::column("t", "id", 0)),
        list: vec![Expr::literal(Value::Int64(2)), Expr::literal(Value::Int64(4))],
    };
    assert_eq!(eval_expr(&expr_miss, &row), Value::Boolean(false));
}

#[test]
fn test_eval_not_in_expr() {
    let row = Row::new(1, vec![Value::Int64(3)]);
    let expr = Expr::NotIn {
        expr: Box::new(Expr::column("t", "id", 0)),
        list: vec![Expr::literal(Value::Int64(1)), Expr::literal(Value::Int64(3))],
    };
    assert_eq!(eval_expr(&expr, &row), Value::Boolean(false));
}

#[test]
fn test_eval_between_expr() {
    let row = Row::new(1, vec![Value::Int64(15)]);
    let expr = Expr::Between {
        expr: Box::new(Expr::column("t", "v", 0)),
        low: Box::new(Expr::literal(Value::Int64(10))),
        high: Box::new(Expr::literal(Value::Int64(20))),
    };
    assert_eq!(eval_expr(&expr, &row), Value::Boolean(true));

    let row_out = Row::new(2, vec![Value::Int64(25)]);
    assert_eq!(eval_expr(&expr, &row_out), Value::Boolean(false));
}

#[test]
fn test_eval_like_expr() {
    let row = Row::new(1, vec![text("Alice")]);
    let expr = Expr::Like {
        expr: Box::new(Expr::column("t", "name", 0)),
        pattern: "Al%".to_string(),
    };
    assert_eq!(eval_expr(&expr, &row), Value::Boolean(true));

    let expr2 = Expr::Like {
        expr: Box::new(Expr::column("t", "name", 0)),
        pattern: "Bo%".to_string(),
    };
    assert_eq!(eval_expr(&expr2, &row), Value::Boolean(false));

    // underscore wildcard
    let expr3 = Expr::Like {
        expr: Box::new(Expr::column("t", "name", 0)),
        pattern: "A_ice".to_string(),
    };
    assert_eq!(eval_expr(&expr3, &row), Value::Boolean(true));
}

#[test]
fn test_eval_match_expr() {
    let row = Row::new(1, vec![text("abc123")]);
    let expr = Expr::Match {
        expr: Box::new(Expr::column("t", "v", 0)),
        pattern: "\\d+".to_string(),
    };
    assert_eq!(eval_expr(&expr, &row), Value::Boolean(true));

    let expr2 = Expr::Match {
        expr: Box::new(Expr::column("t", "v", 0)),
        pattern: "^[A-Z]".to_string(),
    };
    assert_eq!(eval_expr(&expr2, &row), Value::Boolean(false));
}

#[test]
fn test_in_filter_via_compile() {
    let plan = filter(
        scan("users"),
        Expr::In {
            expr: Box::new(Expr::column("users", "id", 0)),
            list: vec![Expr::literal(Value::Int64(1)), Expr::literal(Value::Int64(3))],
        },
    );
    let table_ids = table_ids(&[("users", 1)]);
    let table_schemas = table_schemas(&[("users", &["id", "name"])]);

    let result = compile_to_dataflow(&plan, &table_ids, &table_schemas).unwrap();

    // Insert rows: id=1 (match), id=2 (no match), id=3 (match)
    let rows = rows_of(
        &result.dataflow,
        &[(
            1,
            vec![
                Row::new(1, vec![Value::Int64(1), text("Alice")]),
                Row::new(2, vec![Value::Int64(2), text("Bob")]),
                Row::new(3, vec![Value::Int64(3), text("Carol")]),
            ],
        )],
    );

    assert_eq!(rows.len(), 2); // only id=1 and id=3
    let ids: Vec<&Value> = rows.iter().filter_map(|row| row.get(0)).collect();
    assert!(ids.contains(&&Value::Int64(1)));
    assert!(ids.contains(&&Value::Int64(3)));
    assert!(!ids.contains(&&Value::Int64(2)));
}

#[test]
fn test_filter_over_reordered_join_uses_logical_output_layout() {
    let join = hash_join(
        scan("departments"),
        scan("employees"),
        binary(
            Expr::column("employees", "dept_id", 1),
            BinaryOp::Eq,
            Expr::column("departments", "id", 0),
        ),
        JoinType::Inner,
        &["employees", "departments"],
    );
    let plan = filter(
        join,
        binary(
            Expr::column("employees", "id", 0),
            BinaryOp::Eq,
            Expr::literal(Value::Int64(1)),
        ),
    );

    let table_ids = table_ids(&[("employees", 1), ("departments", 2)]);
    let table_schemas = table_schemas(&[
        ("employees", &["id", "dept_id"]),
        ("departments", &["id", "name"]),
    ]);

    let result = compile_to_dataflow(&plan, &table_ids, &table_schemas).unwrap();
    let rows = rows_of(
        &result.dataflow,
        &[
            (
                1,
                vec![
                    Row::new(1, vec![Value::Int64(1), Value::Int64(10)]),
                    Row::new(2, vec![Value::Int64(2), Value::Int64(20)]),
                ],
            ),
            (
                2,
                vec![
                    Row::new(10, vec![Value::Int64(10), text("Engineering")]),
                    Row::new(20, vec![Value::Int64(20), text("Sales")]),
                ],
            ),
        ],
    );

    assert_eq!(rows.len(), 1);
    assert_eq!(rows[0].get(0), Some(&Value::Int64(1)));
    assert_eq!(rows[0].get(2), Some(&Value::Int64(10)));
    assert_eq!(rows[0].get(3), Some(&text("Engineering")));
}

#[test]
fn test_filter_with_json_function_propagates_updates() {
    let projects = table(
        "projects",
        &[
            ("id", DataType::Int64),
            ("healthScore", DataType::Int32),
            ("metadata", DataType::Jsonb),
        ],
        Some("id"),
    );
    let mut table_schemas = SchemaCatalog::new();
    table_schemas.insert("projects".to_string(), projects);

    let plan = filter(
        scan("projects"),
        binary(
            binary(
                Expr::column("projects", "healthScore", 1),
                BinaryOp::Ge,
                Expr::literal(Value::Int32(45)),
            ),
            BinaryOp::And,
            jsonb_path_eq(
                Expr::column("projects", "metadata", 2),
                "$.risk.bucket",
                text("high"),
            ),
        ),
    );
    let table_ids = table_ids(&[("projects", 1)]);
    let result = compile_to_dataflow(&plan, &table_ids, &table_schemas).unwrap();

    let initial_row = Row::new(
        1,
        vec![
            Value::Int64(1),
            Value::Int32(61),
            jsonb_value(r#"{"risk":{"bucket":"high"}}"#),
        ],
    );
    let updated_row = Row::new(
        1,
        vec![
            Value::Int64(1),
            Value::Int32(12),
            jsonb_value(r#"{"risk":{"bucket":"high"}}"#),
        ],
    );

    assert_eq!(rows_of(&result.dataflow, &[(1, vec![])]).len(), 0);
    assert_eq!(rows_of(&result.dataflow, &[(1, vec![initial_row])]).len(), 1);
    assert_eq!(rows_of(&result.dataflow, &[(1, vec![updated_row])]).len(), 0);
}

#[test]
fn test_compiled_trace_json_predicate_matches_generic_eval() {
    let expr = binary(
        binary(
            Expr::column("projects", "healthScore", 1),
            BinaryOp::Ge,
            Expr::literal(Value::Int32(45)),
        ),
        BinaryOp::And,
        jsonb_path_eq(
            Expr::column("projects", "metadata", 2),
            "$.risk.bucket",
            text("high"),
        ),
    );
    let compiled = compile_predicate(&expr);

    let matching = Row::new(
        1,
        vec![
            Value::Int64(1),
            Value::Int32(61),
            jsonb_value(r#"{"risk":{"bucket":"high"}}"#),
        ],
    );
    let low_score = Row::new(
        2,
        vec![
            Value::Int64(2),
            Value::Int32(12),
            jsonb_value(r#"{"risk":{"bucket":"high"}}"#),
        ],
    );
    let different_bucket = Row::new(
        3,
        vec![
            Value::Int64(3),
            Value::Int32(61),
            jsonb_value(r#"{"risk":{"bucket":"low"}}"#),
        ],
    );

    assert!(holds(&compiled, &matching));
    assert!(!holds(&compiled, &low_score));
    assert!(!holds(&compiled, &different_bucket));
    for row in [&matching, &low_score, &different_bucket] {
        assert_eq!(Value::Boolean(holds(&compiled, row)), eval_expr(&expr, row));
    }
}

#[test]
fn test_compiled_trace_json_exists_supports_array_index_path() {
    let expr = Expr::Function {
        name: "JSONB_EXISTS".to_string(),
        args: vec![
            Expr::column("projects", "metadata", 0),
            Expr::literal(text("$.risk.history[1]")),
        ],
    };
    let compiled = compile_predicate(&expr);

    let matching = Row::new(1, vec![jsonb_value(r#"{"risk":{"history":["low","high"]}}"#)]);
    let missing = Row::new(2, vec![jsonb_value(r#"{"risk":{"history":["low"]}}"#)]);

    assert!(holds(&compiled, &matching));
    assert!(!holds(&compiled, &missing));
}

#[test]
fn test_compiled_trace_json_predicate_matches_generic_escaped_value() {
    let expr = jsonb_path_eq(
        Expr::column("projects", "metadata", 0),
        "$.risk.label",
        text("hi\nthere"),
    );
    let compiled = compile_predicate(&expr);

    let matching = Row::new(1, vec![jsonb_value(r#"{"risk":{"label":"hi\nthere"}}"#)]);
    let different = Row::new(2, vec![jsonb_value(r#"{"risk":{"label":"hi there"}}"#)]);

    assert!(holds(&compiled, &matching));
    assert!(!holds(&compiled, &different));
}

#[test]
fn test_filter_with_json_function_over_multi_join_propagates_updates() {
    let mut table_schemas = SchemaCatalog::new();
    for schema in [
        table(
            "projects",
            &[
                ("id", DataType::Int64),
                ("organizationId", DataType::Int64),
                ("healthScore", DataType::Int32),
                ("metadata", DataType::Jsonb),
            ],
            Some("id"),
        ),
        table(
            "organizations",
            &[("id", DataType::Int64), ("name", DataType::String)],
            Some("id"),
        ),
        table(
            "projectCounters",
            &[("projectId", DataType::Int64), ("openIssueCount", DataType::Int32)],
            Some("projectId"),
        ),
        table(
            "projectSnapshots",
            &[("projectId", DataType::Int64), ("velocity", DataType::Int32)],
            Some("projectId"),
        ),
    ] {
        table_schemas.insert(schema.name.clone(), schema);
    }

    let project_org_join = hash_join(
        scan("projects"),
        scan("organizations"),
        binary(
            Expr::column("projects", "organizationId", 1),
            BinaryOp::Eq,
            Expr::column("organizations", "id", 0),
        ),
        JoinType::LeftOuter,
        &["projects", "organizations"],
    );
    let with_counters = hash_join(
        project_org_join,
        scan("projectCounters"),
        binary(
            Expr::column("projects", "id", 0),
            BinaryOp::Eq,
            Expr::column("projectCounters", "projectId", 0),
        ),
        JoinType::LeftOuter,
        &["projects", "organizations", "projectCounters"],
    );
    let with_snapshots = hash_join(
        with_counters,
        scan("projectSnapshots"),
        binary(
            Expr::column("projects", "id", 0),
            BinaryOp::Eq,
            Expr::column("projectSnapshots", "projectId", 0),
        ),
        JoinType::LeftOuter,
        &["projects", "organizations", "projectCounters", "projectSnapshots"],
    );
    let plan = filter(
        with_snapshots,
        binary(
            binary(
                binary(
                    binary(
                        Expr::column("projects", "healthScore", 2),
                        BinaryOp::Ge,
                        Expr::literal(Value::Int32(45)),
                    ),
                    BinaryOp::And,
                    jsonb_path_eq(
                        Expr::column("projects", "metadata", 3),
                        "$.risk.bucket",
                        text("high"),
                    ),
                ),
                BinaryOp::And,
                binary(
                    Expr::column("projectCounters", "openIssueCount", 1),
                    BinaryOp::Ge,
                    Expr::literal(Value::Int32(4)),
                ),
            ),
            BinaryOp::And,
            binary(
                Expr::column("projectSnapshots", "velocity", 1),
                BinaryOp::Ge,
                Expr::literal(Value::Int32(20)),
            ),
        ),
    );

    let table_ids = table_ids(&[
        ("projects", 1),
        ("organizations", 2),
        ("projectCounters", 3),
        ("projectSnapshots", 4),
    ]);
    let result = compile_to_dataflow(&plan, &table_ids, &table_schemas).unwrap();

    let project = |score: i32| {
        Row::new(
            1,
            vec![
                Value::Int64(1),
                Value::Int64(10),
                Value::Int32(score),
                jsonb_value(r#"{"risk":{"bucket":"high"}}"#),
            ],
        )
    };
    let with_projects = |projects: Vec<Row>| {
        vec![
            (1, projects),
            (2, vec![Row::new(10, vec![Value::Int64(10), text("Org")])]),
            (3, vec![Row::new(1, vec![Value::Int64(1), Value::Int32(7)])]),
            (4, vec![Row::new(1, vec![Value::Int64(1), Value::Int32(35)])]),
        ]
    };

    assert_eq!(rows_of(&result.dataflow, &with_projects(vec![])).len(), 0);
    assert_eq!(rows_of(&result.dataflow, &with_projects(vec![project(61)])).len(), 1);
    assert_eq!(rows_of(&result.dataflow, &with_projects(vec![project(12)])).len(), 0);
}

#[test]
fn unregistered_tables_get_fresh_identifiers() {
    let plan = PhysicalPlan::CrossProduct {
        left: Box::new(scan("known")),
        right: Box::new(scan("other")),
    };
    let ids = table_ids(&[("known", 7)]);
    let schemas = table_schemas(&[("known", &["a"]), ("other", &["b", "c"])]);
    let result = compile_to_dataflow(&plan, &ids, &schemas).unwrap();
    assert_eq!(result.table_ids.get("known"), Some(7));
    assert_eq!(result.table_ids.get("other"), Some(8));
    match result.dataflow {
        DataflowNode::Join { left_key: JoinKeySpec::Constant(_), left_width, right_width, .. } => {
            assert_eq!((left_width, right_width), (1, 2));
        }
        _ => panic!("Expected Join node"),
    }
}

#[test]
fn tables_without_schema_cannot_be_maintained() {
    let ids = table_ids(&[("users", 1)]);
    assert!(compile_to_dataflow(&scan("users"), &ids, &SchemaCatalog::new()).is_none());
}

#[test]
fn index_ranges_become_predicates() {
    let users = table("users", &[("id", DataType::Int64)], Some("id"));
    let mut schemas = SchemaCatalog::new();
    schemas.insert("users".to_string(), users);
    let plan = PhysicalPlan::IndexScan {
        table: "users".to_string(),
        index: "pk_users".to_string(),
        bounds: IndexBounds::Scalar(KeyRange::Bound {
            lower: Value::Int64(2),
            upper: Value::Int64(4),
            lower_exclusive: true,
            upper_exclusive: false,
        }),
        limit: None,
        offset: Some(0),
        reverse: false,
    };
    let ids = table_ids(&[("users", 1)]);
    let result = compile_to_dataflow(&plan, &ids, &schemas).unwrap();
    let rows: Vec<Row> = (1..=5).map(|id| Row::new(id, vec![Value::Int64(id as i64)])).collect();
    let found: Vec<u64> =
        rows_of(&result.dataflow, &[(1, rows)]).iter().map(|row| row.id()).collect();
    assert_eq!(found, [3, 4]);
}

#[test]
fn nulls_fail_comparisons_and_divisions_by_zero_give_zero() {
    let row = Row::new(1, vec![Value::Null, Value::Int64(4), Value::Int64(0)]);
    let less = binary(Expr::column("t", "a", 0), BinaryOp::Lt, Expr::column("t", "b", 1));
    assert_eq!(eval_expr(&less, &row), Value::Boolean(false));
    let ratio = binary(Expr::column("t", "b", 1), BinaryOp::Div, Expr::column("t", "c", 2));
    assert_eq!(eval_expr(&ratio, &row), Value::Float64(Float64Bits { bits: 0 }));
    let sum = binary(Expr::column("t", "b", 1), BinaryOp::Add, Expr::column("t", "c", 2));
    assert_eq!(
        eval_expr(&sum, &row),
        Value::Float64(Float64Bits { bits: 3.5f64.to_bits() })
    );
    let missing = Expr::UnaryOp { op: UnaryOp::IsNull, expr: Box::new(Expr::column("t", "x", 9)) };
    assert_eq!(eval_expr(&missing, &row), Value::Boolean(true));
}

#[test]
fn functions_on_texts() {
    let row = Row::new(1, vec![text("ÄBC")]);
    let lower = Expr::Function {
        name: "lower".to_string(),
        args: vec![Expr::column("t", "a", 0)],
    };
    assert_eq!(eval_expr(&lower, &row), text("äbc"));
    let upper = Expr::Function {
        name: "Upper".to_string(),
        args: vec![Expr::literal(text("straße"))],
    };
    assert_eq!(eval_expr(&upper, &row), text("STRASSE"));
    let length = Expr::Function {
        name: "LENGTH".to_string(),
        args: vec![Expr::column("t", "a", 0)],
    };
    assert_eq!(eval_expr(&length, &row), Value::Int64(4));
}
