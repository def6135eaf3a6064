use cynos_database::gql_response::{GraphqlResponse, ResponseField, ResponseValue};
use cynos_database::js_convert::{
    infer_type, js_array_to_rows, js_to_gql_input_value, js_to_gql_variables, js_to_row,
    js_to_value, parse_integer, ConvertError, InputValue, JsInput, JsNumber, JsObject,
    JsObjectKind, JsProperty,
};
use cynos_database::js_output::{
    gql_response_to_js, joined_rows_to_js_array, projected_rows_to_js_array, row_to_js,
    rows_to_js_array, value_to_js, JsOutput,
};
use cynos_database::profiling::{
    commit_profile_to_js_value, ivm_bridge_profile_to_js_value, CommitProfile, IvmBridgeProfile,
    ProfileLog,
};
use cynos_database::row::Row;
use cynos_database::schema::{Column, DataType, Table};
use cynos_database::value::{Float64Bits, Value};

fn number(value: f64) -> JsInput {
    JsInput::Number(JsNumber {
        bits: value.to_bits(),
        int32: value as i32,
        int64: value as i64,
        whole: value.fract() == 0.0,
        fits_int32: value >= i32::MIN as f64 && value <= i32::MAX as f64,
    })
}

fn text(text: &str) -> JsInput {
    JsInput::Text(text.to_string())
}

fn object(kind: JsObjectKind) -> JsInput {
    JsInput::Object(JsObject { kind, fields: Vec::new(), bytes: Vec::new() })
}

fn convert(js: JsInput, data_type: DataType) -> Result<Value, ConvertError> {
    js_to_value(&js, data_type, &None)
}

fn failure(js: JsInput, data_type: DataType) -> String {
    convert(js, data_type).unwrap_err().message()
}

#[test]
fn js_to_value_boolean() {
    assert_eq!(convert(JsInput::Boolean(true), DataType::Boolean).unwrap(), Value::Boolean(true));
    assert_eq!(failure(number(1.0), DataType::Boolean), "Expected boolean value");
}

#[test]
fn js_to_value_numbers() {
    assert_eq!(convert(number(42.0), DataType::Int32).unwrap(), Value::Int32(42));
    assert_eq!(convert(number(42.0), DataType::Int64).unwrap(), Value::Int64(42));
    let float = Value::Float64(Float64Bits { bits: 3.14f64.to_bits() });
    assert_eq!(convert(number(3.14), DataType::Float64).unwrap(), float);
    assert_eq!(failure(text("x"), DataType::Int32), "Expected number value");
    assert_eq!(failure(text("x"), DataType::Float64), "Expected number value");
    assert_eq!(failure(text("x"), DataType::Int64), "Expected number or BigInt value");
}

#[test]
fn js_to_value_big_integers() {
    let big = |digits: &str| JsInput::BigInt(digits.to_string());
    assert_eq!(
        convert(big("-9223372036854775808"), DataType::Int64).unwrap(),
        Value::Int64(i64::MIN)
    );
    assert_eq!(failure(big("9223372036854775808"), DataType::Int64), "BigInt out of i64 range");
    assert_eq!(parse_integer("+12"), Some(12));
    assert_eq!(parse_integer(""), None);
    assert_eq!(parse_integer("-"), None);
    assert_eq!(parse_integer("1x"), None);
}

#[test]
fn js_to_value_texts_dates_and_bytes() {
    assert_eq!(
        convert(text("héllo"), DataType::String).unwrap(),
        Value::String("héllo".to_string())
    );
    assert_eq!(failure(number(1.0), DataType::String), "Expected string value");
    assert_eq!(
        convert(object(JsObjectKind::Date(1700)), DataType::DateTime).unwrap(),
        Value::DateTime(1700)
    );
    assert_eq!(convert(number(5.0), DataType::DateTime).unwrap(), Value::DateTime(5));
    assert_eq!(failure(text("now"), DataType::DateTime), "Expected number or Date value");
    let bytes = JsInput::Object(JsObject {
        kind: JsObjectKind::Bytes,
        fields: Vec::new(),
        bytes: vec![1, 2],
    });
    assert_eq!(convert(bytes, DataType::Bytes).unwrap(), Value::Bytes(vec![1, 2]));
    assert_eq!(failure(text("x"), DataType::Bytes), "Expected Uint8Array value");
    assert_eq!(convert(JsInput::Undefined, DataType::Bytes).unwrap(), Value::Null);
}

#[test]
fn js_to_value_documents() {
    let json = Some("{\"é\":1}".to_string());
    let value = js_to_value(&object(JsObjectKind::Plain), DataType::Jsonb, &json).unwrap();
    assert_eq!(value, Value::Jsonb("{\"é\":1}".as_bytes().to_vec()));
    assert_eq!(
        failure(object(JsObjectKind::Plain), DataType::Jsonb),
        "Failed to stringify JSON"
    );
}

#[test]
fn types_are_inferred() {
    assert_eq!(infer_type(&number(42.0)), Some(DataType::Int32));
    assert_eq!(infer_type(&number(3.14)), Some(DataType::Float64));
    assert_eq!(infer_type(&JsInput::Boolean(true)), Some(DataType::Boolean));
    assert_eq!(infer_type(&text("x")), Some(DataType::String));
    assert_eq!(infer_type(&JsInput::Null), None);
}

fn users() -> Table {
    let column = |name: &str, data_type: DataType, nullable: bool| Column {
        name: name.to_string(),
        data_type,
        nullable,
    };
    Table {
        name: "users".to_string(),
        columns: vec![
            column("id", DataType::Int64, false),
            column("name", DataType::String, true),
        ],
        indices: Vec::new(),
        primary_key: None,
    }
}

fn property(value: JsInput) -> Option<JsProperty> {
    Some(JsProperty { value, json: None })
}

#[test]
fn objects_become_rows() {
    let row = js_to_row(Some(&[property(number(7.0)), property(text("Ann"))]), &users(), 3).unwrap();
    assert_eq!(row.id(), 3);
    assert_eq!(row.values(), &[Value::Int64(7), Value::String("Ann".to_string())]);
    let row = js_to_row(Some(&[property(number(7.0)), property(JsInput::Null)]), &users(), 3);
    assert_eq!(row.unwrap().get(1), Some(&Value::Null));
    let message = |properties: Option<&[Option<JsProperty>]>| {
        js_to_row(properties, &users(), 3).unwrap_err().message()
    };
    assert_eq!(message(None), "Expected object value");
    assert_eq!(message(Some(&[property(number(7.0)), None])), "Missing column: name");
    assert_eq!(
        message(Some(&[property(JsInput::Undefined), property(text("Ann"))])),
        "Column id is not nullable"
    );
}

#[test]
fn arrays_become_rows_with_successive_identifiers() {
    let item = |id: f64| Some(vec![property(number(id)), property(JsInput::Null)]);
    let rows = js_array_to_rows(Some(&[item(1.0), item(2.0)]), &users(), 10).unwrap();
    let ids: Vec<u64> = rows.iter().map(|row| row.id()).collect();
    assert_eq!(ids, vec![10, 11]);
    assert_eq!(
        js_array_to_rows(None, &users(), 10).unwrap_err().message(),
        "Expected array value"
    );
}

#[test]
fn variables_are_converted() {
    let fields = vec![
        ("count".to_string(), number(2.0)),
        ("share".to_string(), number(0.5)),
        ("names".to_string(), object(JsObjectKind::List(vec![text("a"), JsInput::Null]))),
    ];
    let js = JsInput::Object(JsObject { kind: JsObjectKind::Plain, fields, bytes: Vec::new() });
    let variables = js_to_gql_variables(Some(&js)).unwrap();
    assert_eq!(variables.len(), 3);
    assert!(matches!(variables.get("count"), Some(InputValue::Int(2))));
    assert!(matches!(variables.get("share"), Some(InputValue::Float(_))));
    match variables.get("names") {
        Some(InputValue::List(items)) => {
            assert_eq!(items.len(), 2);
            assert!(matches!(&items[0], InputValue::String(name) if name == "a"));
            assert!(matches!(items[1], InputValue::Null));
        },
        _ => panic!("a list stays a list"),
    }
    assert_eq!(js_to_gql_variables(None).unwrap().len(), 0);
    assert_eq!(
        js_to_gql_variables(Some(&number(1.0))).err().unwrap().message(),
        "GraphQL variables must be an object"
    );
    assert_eq!(
        js_to_gql_input_value(&JsInput::Other).unwrap_err().message(),
        "Unsupported GraphQL input value"
    );
}

#[test]
fn values_become_script_values() {
    assert!(matches!(value_to_js(&Value::Int32(5)), JsOutput::Integer(5)));
    assert!(matches!(value_to_js(&Value::DateTime(9)), JsOutput::Date(9)));
    match value_to_js(&Value::Jsonb("{\"é\":1}".as_bytes().to_vec())) {
        JsOutput::Json(json) => assert_eq!(json, "{\"é\":1}"),
        _ => panic!("a document is parsed by the script"),
    }
    assert!(matches!(value_to_js(&Value::Jsonb(vec![0xff])), JsOutput::Null));
}

fn property_names(output: JsOutput) -> Vec<String> {
    match output {
        JsOutput::List(items) => match &items[0] {
            JsOutput::Object(fields) => fields.iter().map(|field| field.0.clone()).collect(),
            _ => panic!("a row becomes an object"),
        },
        _ => panic!("rows become an array"),
    }
}

#[test]
fn rows_become_objects() {
    let alice = Row::new(1, vec![Value::Int64(1), Value::String("Alice".to_string())]);
    let bob = Row::new(2, vec![Value::Int64(2), Value::String("Bob".to_string())]);
    match rows_to_js_array(&[alice.clone(), bob], &users()) {
        JsOutput::List(items) => assert_eq!(items.len(), 2),
        _ => panic!("rows become an array"),
    }
    match row_to_js(&alice, &users()) {
        JsOutput::Object(fields) => {
            assert_eq!(fields.len(), 2);
            assert_eq!(fields[1].0, "name");
            assert!(matches!(&fields[1].1, JsOutput::Text(name) if name == "Alice"));
        },
        _ => panic!("a row becomes an object"),
    }
}

#[test]
fn joined_rows_have_qualified_properties() {
    let row = Row::new(1, vec![Value::Int64(1), Value::Null, Value::Int64(2), Value::Null]);
    let mut posts = users();
    posts.name = "posts".to_string();
    posts.columns[1].name = "title".to_string();
    assert_eq!(
        property_names(joined_rows_to_js_array(&[row.clone()], &[users(), posts])),
        vec!["users.id", "name", "posts.id", "title"]
    );
    let names = vec!["users.id".to_string(), "users.name".to_string()];
    assert_eq!(
        property_names(projected_rows_to_js_array(&[row], &names)),
        vec!["id", "name"]
    );
}

#[test]
fn responses_become_objects() {
    let response = GraphqlResponse::new(ResponseValue::Object(vec![ResponseField {
        name: "users".to_string(),
        value: ResponseValue::List(vec![ResponseValue::Scalar(Value::Boolean(true))]),
    }]));
    let root = match gql_response_to_js(&response) {
        JsOutput::Object(fields) => fields,
        _ => panic!("a response is an object"),
    };
    assert_eq!(root[0].0, "data");
    match &root[0].1 {
        JsOutput::Object(fields) => {
            assert_eq!(fields[0].0, "users");
            assert!(matches!(&fields[0].1, JsOutput::List(items) if items.len() == 1));
        },
        _ => panic!("the data is an object"),
    }
}

fn time(milliseconds: f64) -> Float64Bits {
    Float64Bits { bits: milliseconds.to_bits() }
}

fn property_of(output: JsOutput, name: &str) -> JsOutput {
    match output {
        JsOutput::Object(fields) => {
            fields.into_iter().find(|field| field.0 == name).expect("a property of the object").1
        },
        _ => panic!("a measurement is an object"),
    }
}

#[test]
fn measurements_become_objects() {
    let commit = CommitProfile {
        storage_commit_ms: time(1.5),
        registry_flush_ms: time(2.0),
        total_commit_ms: time(3.5),
        changed_table_count: 1,
        changed_row_count: 2,
        delta_row_count: 3,
    };
    match property_of(commit_profile_to_js_value(commit), "totalCommitMs") {
        JsOutput::Number(bits) => assert_eq!(f64::from_bits(bits), 3.5),
        _ => panic!("a time is a number"),
    }
    let count = property_of(commit_profile_to_js_value(commit), "deltaRowCount");
    assert!(matches!(count, JsOutput::Count(3)));
    let bridge = IvmBridgeProfile {
        callback_count: 4,
        added_row_count: 5,
        removed_row_count: 6,
        serialize_added_ms: time(0.0),
        serialize_removed_ms: time(0.0),
        assemble_delta_ms: time(0.0),
        callback_call_ms: time(0.0),
        total_ms: time(0.25),
    };
    let count = property_of(ivm_bridge_profile_to_js_value(bridge), "removedRowCount");
    assert!(matches!(count, JsOutput::Count(6)));
    let mut log = ProfileLog::new();
    assert!(matches!(log.take_last_commit_profile(), JsOutput::Null));
    log.record_commit_profile(commit);
    assert!(matches!(log.take_last_ivm_bridge_profile(), JsOutput::Null));
    assert!(matches!(log.take_last_commit_profile(), JsOutput::Object(_)));
    assert!(matches!(log.take_last_commit_profile(), JsOutput::Null));
}
