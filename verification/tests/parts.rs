use cynos_database::bootstrap::collect_trace_bootstrap_source_bindings;
use cynos_database::dataflow::{compile_to_dataflow, DataflowNode};
use cynos_database::expr::{BinaryOp, Expr};
use cynos_database::facts::{Comparison, EvalFacts};
use cynos_database::eval::Step;
use cynos_database::json::{parse_json_bytes, JsonbValue};
use cynos_database::json_text::{
    check_float_text, find_json_colon, same_ignoring_case, split_json_top_level, trim_text,
    unescape_json,
};
use cynos_database::layout::CompileLayout;
use cynos_database::order::{compare_bytes, compare_chars, compare_plain};
use cynos_database::partial_refresh::{
    sort_candidates, PartialRefreshCandidateRow, RowsSnapshotOrderKey,
};
use cynos_database::plan::{JoinType, PhysicalPlan, SortOrder};
use cynos_database::root_key::encode_key;
use cynos_database::row::Row;
use cynos_database::schema::{Column, DataType, SchemaCatalog, Table, TableIdMap};
use cynos_database::value::{Float64Bits, Value};

fn chars(text: &str) -> Vec<char> {
    text.chars().collect()
}

fn text(text: &str) -> Value {
    Value::String(text.to_string())
}

#[test]
fn split_parts_join_to_the_text() {
    let source = chars("\"a,b\":[1,2],\"c\":{\"d\":\"}\"},3");
    let parts = split_json_top_level(&source, ',');
    let texts: Vec<String> = parts.iter().map(|part| part.iter().collect()).collect();
    assert_eq!(texts, vec!["\"a,b\":[1,2]", "\"c\":{\"d\":\"}\"}", "3"]);
    let joined: Vec<String> = texts;
    assert_eq!(chars(&joined.join(",")), source);
    assert_eq!(find_json_colon(parts[0]), Some(5));
    assert_eq!(find_json_colon(parts[2]), None);
}

#[test]
fn plain_texts_are_their_own_unescaped_form() {
    assert_eq!(unescape_json(&chars("plain")), chars("plain"));
    assert_eq!(unescape_json(&chars("a\\n\\\"b\\\\")), chars("a\n\"b\\"));
    assert_eq!(trim_text(&chars(" \t x \n")), &chars("x")[..]);
    assert!(same_ignoring_case(&chars("TrUe"), &chars("tRUE")));
    assert!(check_float_text(&chars("-1.5e3")));
    assert!(!check_float_text(&chars("1.5x")));
}

#[test]
fn documents_are_parsed() {
    let parsed = parse_json_bytes("{\"é\": [true, null, \"x\"], \"n\": 1.5}".as_bytes()).unwrap();
    match parsed {
        JsonbValue::Object(fields) => {
            assert_eq!(fields[0].0, "é");
            match &fields[0].1 {
                JsonbValue::Array(items) => {
                    assert!(matches!(items[0], JsonbValue::Bool(true)));
                    assert!(matches!(items[1], JsonbValue::Null));
                    assert!(matches!(&items[2], JsonbValue::String(text) if text == "x"));
                },
                _ => panic!("a list"),
            }
            assert!(matches!(&fields[1].1, JsonbValue::Number(text) if text == "1.5"));
        },
        _ => panic!("an object"),
    }
    assert!(parse_json_bytes(&[0xff, 0xfe]).is_none());
    assert!(parse_json_bytes(b"nonsense").is_none());
}

#[test]
fn equal_order_means_equal_values() {
    assert_eq!(compare_chars(&chars("ab"), &chars("abc")), Comparison::Less);
    assert_eq!(compare_bytes(&[2], &[1, 9]), Comparison::Greater);
    assert_eq!(compare_plain(&text("b"), &text("b")), Some(Comparison::Equal));
    assert_eq!(compare_plain(&Value::Int64(3), &Value::Int64(-3)), Some(Comparison::Greater));
    let number = |value: f64| Value::Float64(Float64Bits { bits: value.to_bits() });
    assert_eq!(compare_plain(&number(1.0), &number(2.0)), None);
}

#[test]
fn different_keys_have_different_codes() {
    let keys = vec![
        vec![Value::Int64(1)],
        vec![Value::Int32(1)],
        vec![Value::Boolean(true)],
        vec![text("1")],
        vec![text("a"), text("b")],
        vec![text("ab")],
        vec![text("a"), Value::Null, text("b")],
        vec![Value::Bytes(vec![1])],
        vec![Value::Jsonb(vec![1])],
        Vec::new(),
    ];
    for (i, left) in keys.iter().enumerate() {
        for (j, right) in keys.iter().enumerate() {
            assert_eq!(encode_key(left) == encode_key(right), i == j);
        }
    }
}

fn candidate(id: u64, rank: i64) -> PartialRefreshCandidateRow {
    PartialRefreshCandidateRow {
        row: Row::new(id, vec![Value::Int64(id as i64), Value::Int64(rank)]),
        root_row_id: id,
    }
}

#[test]
fn windows_are_sorted_with_all_their_rows() {
    let rows = vec![candidate(1, 10), candidate(2, 30), candidate(3, 20), candidate(4, 30)];
    let keys = vec![RowsSnapshotOrderKey { output_index: 1, order: SortOrder::Desc }];
    match sort_candidates(&rows, &keys, &EvalFacts::new()) {
        Step::Done(sorted) => {
            let ids: Vec<u64> = sorted.iter().map(|entry| entry.root_row_id).collect();
            assert_eq!(ids, vec![2, 4, 3, 1]);
        },
        Step::Need(_) => panic!("whole numbers are compared at once"),
    }
}

#[test]
fn columns_keep_their_places_in_joins() {
    let users = CompileLayout::table("users", 3);
    let posts = CompileLayout::table("posts", 2);
    let joined = CompileLayout::combined(&users, &posts);
    assert_eq!(joined.total_width(), 5);
    assert_eq!(joined.resolve_column_index("users", 2), 2);
    assert_eq!(joined.resolve_column_index("posts", 1), 4);
    let order = vec!["posts".to_string(), "users".to_string()];
    let turned = CompileLayout::join(&joined, &CompileLayout::empty(), &order);
    let picked = joined.projection_indices_for(&order);
    assert_eq!(picked, vec![3, 4, 0, 1, 2]);
    assert_eq!(
        picked[turned.resolve_column_index("users", 1)],
        joined.resolve_column_index("users", 1)
    );
    let same = vec!["users".to_string(), "posts".to_string()];
    assert_eq!(joined.projection_indices_for(&same), vec![0, 1, 2, 3, 4]);
    assert_eq!(joined.resolve_column_index("users", 9), users.resolve_column_index("users", 9));
    assert_eq!(
        joined.resolve_column_index("posts", 9),
        users.total_width() + posts.resolve_column_index("posts", 9)
    );
}

fn table(name: &str, columns: &[&str]) -> Table {
    Table {
        name: name.to_string(),
        columns: columns
            .iter()
            .map(|column| Column {
                name: column.to_string(),
                data_type: DataType::Int64,
                nullable: false,
            })
            .collect(),
        indices: Vec::new(),
        primary_key: None,
    }
}

fn graph_sources(node: &DataflowNode) -> Vec<u32> {
    match node {
        DataflowNode::Source { table_id } => vec![*table_id],
        DataflowNode::Filter { input, .. }
        | DataflowNode::Project { input, .. }
        | DataflowNode::Compute { input, .. }
        | DataflowNode::Aggregate { input, .. } => graph_sources(input),
        DataflowNode::Join { left, right, .. } => {
            let mut sources = graph_sources(left);
            sources.extend(graph_sources(right));
            sources
        },
    }
}

#[test]
fn sources_follow_the_graph() {
    let mut schemas = SchemaCatalog::new();
    schemas.insert("a".to_string(), table("a", &["id"]));
    schemas.insert("b".to_string(), table("b", &["id", "a_id"]));
    let mut ids = TableIdMap::new();
    ids.insert("a".to_string(), 7);
    ids.insert("b".to_string(), 3);
    let equal = || {
        Expr::binary(Expr::column("a", "id", 0), BinaryOp::Eq, Expr::column("b", "a_id", 1))
    };
    for outer_is_left in [true, false] {
        let plan = PhysicalPlan::CrossProduct {
            left: Box::new(PhysicalPlan::IndexNestedLoopJoin {
                outer: Box::new(PhysicalPlan::TableScan { table: "b".to_string() }),
                inner_table: "a".to_string(),
                inner_index: "pk_a".to_string(),
                condition: equal(),
                join_type: JoinType::Inner,
                outer_is_left,
                output_tables: vec!["a".to_string(), "b".to_string()],
            }),
            right: Box::new(PhysicalPlan::TableScan { table: "b".to_string() }),
        };
        let compiled = compile_to_dataflow(&plan, &ids, &schemas).unwrap();
        let bound: Vec<u32> = collect_trace_bootstrap_source_bindings(&plan, &ids, &schemas)
            .iter()
            .map(|binding| binding.table_id)
            .collect();
        assert_eq!(graph_sources(&compiled.dataflow), bound);
        assert_eq!(bound, if outer_is_left { vec![3, 7, 3] } else { vec![7, 3, 3] });
    }
}
