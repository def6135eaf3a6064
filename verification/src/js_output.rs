//! The script values that results are handed out as.
use vstd::prelude::*;
use vstd::utf8::{decode_utf8, valid_utf8};

use crate::column_names::{
    joined_column_names, joined_columns, joined_names, projected_column_names, projected_names,
};
use crate::gql_response::{GraphqlResponse, ResponseValue, ResponseView};
use crate::js_convert::{value_of, JsInput, JsObjectKind};
use crate::json::utf8_text;
use crate::row::{rows_view, Row, RowView};
use crate::schema::{column_names, DataType, Table};
use crate::text::names_view;
use crate::value::{Value, ValueView};

verus! {

/// A script value to be made.
#[derive(Debug)]
pub enum JsOutput {
    Null,
    Boolean(bool),
    /// A number with an integral value.
    Integer(i64),
    /// A number that counts something.
    Count(u64),
    /// A number, by the bits of its double precision form.
    Number(u64),
    Text(String),
    /// A date, in milliseconds.
    Date(i64),
    Bytes(Vec<u8>),
    /// The value that a JSON text stands for, null if it stands for none.
    Json(String),
    List(Vec<JsOutput>),
    Object(Vec<(String, JsOutput)>),
}

/// What a script value holds.
pub enum OutputView {
    Null,
    Boolean(bool),
    Integer(i64),
    Count(u64),
    Number(u64),
    Text(Seq<char>),
    Date(i64),
    Bytes(Seq<u8>),
    Json(Seq<char>),
    List(Seq<OutputView>),
    Object(Seq<(Seq<char>, OutputView)>),
}

impl JsOutput {
    /// What the script value holds.
    pub open spec fn view(&self) -> OutputView
        decreases self,
    {
        match self {
            JsOutput::Null => OutputView::Null,
            JsOutput::Boolean(truth) => OutputView::Boolean(*truth),
            JsOutput::Integer(number) => OutputView::Integer(*number),
            JsOutput::Count(count) => OutputView::Count(*count),
            JsOutput::Number(bits) => OutputView::Number(*bits),
            JsOutput::Text(text) => OutputView::Text(text@),
            JsOutput::Date(time) => OutputView::Date(*time),
            JsOutput::Bytes(bytes) => OutputView::Bytes(bytes@),
            JsOutput::Json(text) => OutputView::Json(text@),
            JsOutput::List(items) => OutputView::List(
                Seq::new(
                    items@.len(),
                    |i: int|
                        if 0 <= i < items@.len() {
                            items@[i].view()
                        } else {
                            OutputView::Null
                        },
                ),
            ),
            JsOutput::Object(fields) => OutputView::Object(
                Seq::new(
                    fields@.len(),
                    |i: int|
                        if 0 <= i < fields@.len() {
                            (fields@[i].0@, fields@[i].1.view())
                        } else {
                            (Seq::empty(), OutputView::Null)
                        },
                ),
            ),
        }
    }
}

/// The script value of a value. A document that is no text is null.
pub open spec fn output_of(value: ValueView) -> OutputView {
    match value {
        ValueView::Null => OutputView::Null,
        ValueView::Boolean(truth) => OutputView::Boolean(truth),
        ValueView::Int32(number) => OutputView::Integer(number as i64),
        ValueView::Int64(number) => OutputView::Integer(number),
        ValueView::Float64(bits) => OutputView::Number(bits),
        ValueView::String(text) => OutputView::Text(text),
        ValueView::DateTime(time) => OutputView::Date(time),
        ValueView::Bytes(bytes) => OutputView::Bytes(bytes),
        ValueView::Jsonb(bytes) => if valid_utf8(bytes) {
            OutputView::Json(decode_utf8(bytes))
        } else {
            OutputView::Null
        },
    }
}

/// The script value of a value.
pub fn value_to_js(value: &Value) -> (output: JsOutput)
    ensures
        output.view() == output_of(value@),
{
    match value {
        Value::Null => JsOutput::Null,
        Value::Boolean(truth) => JsOutput::Boolean(*truth),
        Value::Int32(number) => JsOutput::Integer(*number as i64),
        Value::Int64(number) => JsOutput::Integer(*number),
        Value::Float64(number) => JsOutput::Number(number.bits),
        Value::String(text) => JsOutput::Text(text.clone()),
        Value::DateTime(time) => JsOutput::Date(*time),
        Value::Bytes(bytes) => JsOutput::Bytes(crate::eval::clone_bytes(bytes)),
        Value::Jsonb(bytes) => match utf8_text(bytes.as_slice()) {
            Some(text) => JsOutput::Json(text),
            None => JsOutput::Null,
        },
    }
}

/// The properties of the object of a row: one for each name that has a value.
pub open spec fn row_fields(row: RowView, names: Seq<Seq<char>>) -> Seq<(Seq<char>, OutputView)> {
    let count = if names.len() <= row.values.len() {
        names.len()
    } else {
        row.values.len()
    };
    Seq::new(count, |i: int| (names[i], output_of(row.values[i])))
}

/// The array of the objects of rows.
pub open spec fn array_of(rows: Seq<RowView>, names: Seq<Seq<char>>) -> OutputView {
    OutputView::List(
        rows.map_values(|row: RowView| OutputView::Object(row_fields(row, names))),
    )
}

/// The object of a row. `names` are the names of its properties.
fn row_object(row: &Row, names: &[String]) -> (output: JsOutput)
    ensures
        output.view() == OutputView::Object(row_fields(row@, names_view(names@))),
{
    let ghost expected = row_fields(row@, names_view(names@));
    let mut fields: Vec<(String, JsOutput)> = Vec::new();
    let mut i: usize = 0;
    while i < names.len() && i < row.len()
        invariant
            i <= names.len(),
            i <= row@.values.len(),
            fields.len() == i,
            expected == row_fields(row@, names_view(names@)),
            forall|j: int|
                0 <= j < i ==> expected[j] == (
                    (#[trigger] fields@[j]).0@,
                    fields@[j].1.view(),
                ),
        decreases names.len() - i,
    {
        match row.get(i) {
            Some(value) => {
                fields.push((names[i].clone(), value_to_js(value)));
                assert(names_view(names@)[i as int] == names@[i as int]@);
            },
            None => {},
        }
        i += 1;
    }
    let output = JsOutput::Object(fields);
    assert(output.view()->Object_0 =~= expected);
    output
}

/// The objects of rows. `names` are the names of their properties.
fn row_objects(rows: &[Row], names: &[String]) -> (output: JsOutput)
    ensures
        output.view() == array_of(rows_view(rows@), names_view(names@)),
{
    let mut items: Vec<JsOutput> = Vec::new();
    let mut i: usize = 0;
    while i < rows.len()
        invariant
            i <= rows.len(),
            items.len() == i,
            forall|j: int|
                0 <= j < i ==> (#[trigger] items@[j]).view() == OutputView::Object(
                    row_fields(rows@[j]@, names_view(names@)),
                ),
        decreases rows.len() - i,
    {
        items.push(row_object(&rows[i], names));
        i += 1;
    }
    let output = JsOutput::List(items);
    assert(output.view()->List_0 =~= array_of(rows_view(rows@), names_view(names@))->List_0);
    output
}

fn names_of(schema: &Table) -> (names: Vec<String>)
    ensures
        names_view(names@) == column_names(schema.columns@),
{
    let mut names: Vec<String> = Vec::new();
    let mut i: usize = 0;
    while i < schema.columns.len()
        invariant
            i <= schema.columns.len(),
            names.len() == i,
            forall|j: int| 0 <= j < i ==> (#[trigger] names@[j])@ == schema.columns@[j].name@,
        decreases schema.columns.len() - i,
    {
        names.push(schema.columns[i].name.clone());
        i += 1;
    }
    assert(names_view(names@) =~= column_names(schema.columns@));
    names
}

/// The object of a row of a table.
pub fn row_to_js(row: &Row, schema: &Table) -> (output: JsOutput)
    ensures
        output.view() == OutputView::Object(row_fields(row@, column_names(schema.columns@))),
{
    row_object(row, names_of(schema).as_slice())
}

/// The objects of rows of a table.
pub fn rows_to_js_array(rows: &[Row], schema: &Table) -> (output: JsOutput)
    ensures
        output.view() == array_of(rows_view(rows@), column_names(schema.columns@)),
{
    row_objects(rows, names_of(schema).as_slice())
}

/// The objects of projected rows. `names` are the names of the columns, with or without their
/// tables.
pub fn projected_rows_to_js_array(rows: &[Row], names: &[String]) -> (output: JsOutput)
    ensures
        output.view() == array_of(rows_view(rows@), projected_names(names_view(names@))),
{
    row_objects(rows, projected_column_names(names).as_slice())
}

/// The objects of joined rows. `schemas` are the tables whose columns the rows hold, in this
/// order.
pub fn joined_rows_to_js_array(rows: &[Row], schemas: &[Table]) -> (output: JsOutput)
    ensures
        output.view() == array_of(rows_view(rows@), joined_names(joined_columns(schemas@))),
{
    row_objects(rows, joined_column_names(schemas).as_slice())
}

/// The script value of a value of a GraphQL response.
pub open spec fn response_output(value: ResponseView) -> OutputView
    decreases value,
{
    match value {
        ResponseView::Null => OutputView::Null,
        ResponseView::Scalar(value) => output_of(value),
        ResponseView::List(items) => OutputView::List(
            Seq::new(
                items.len(),
                |i: int|
                    if 0 <= i < items.len() {
                        response_output(items[i])
                    } else {
                        OutputView::Null
                    },
            ),
        ),
        ResponseView::Object(fields) => OutputView::Object(
            Seq::new(
                fields.len(),
                |i: int|
                    if 0 <= i < fields.len() {
                        (fields[i].0, response_output(fields[i].1))
                    } else {
                        (Seq::empty(), OutputView::Null)
                    },
            ),
        ),
    }
}

/// The script value of a value of a GraphQL response.
pub fn gql_value_to_js(value: &ResponseValue) -> (output: JsOutput)
    ensures
        output.view() == response_output(value.view()),
    decreases value,
{
    match value {
        ResponseValue::Null => JsOutput::Null,
        ResponseValue::Scalar(value) => value_to_js(value),
        ResponseValue::List(items) => {
            let ghost views = value.view()->List_0;
            let ghost expected = response_output(value.view())->List_0;
            let mut outputs: Vec<JsOutput> = Vec::new();
            let mut i: usize = 0;
            while i < items.len()
                invariant
                    i <= items.len(),
                    value is List && value->List_0 == *items,
                    views == value.view()->List_0,
                    expected == response_output(value.view())->List_0,
                    outputs.len() == i,
                    forall|j: int| 0 <= j < i ==> (#[trigger] outputs@[j]).view() == expected[j],
                decreases items.len() - i,
            {
                assert(views[i as int] == items@[i as int].view());
                assert(expected[i as int] == response_output(views[i as int]));
                assert(decreases_to!(value => items));
                assert(decreases_to!(items => items@[i as int]));
                outputs.push(gql_value_to_js(&items[i]));
                i += 1;
            }
            let output = JsOutput::List(outputs);
            assert(output.view()->List_0 =~= expected);
            output
        },
        ResponseValue::Object(fields) => {
            let ghost views = value.view()->Object_0;
            let ghost expected = response_output(value.view())->Object_0;
            let mut outputs: Vec<(String, JsOutput)> = Vec::new();
            let mut i: usize = 0;
            while i < fields.len()
                invariant
                    i <= fields.len(),
                    value is Object && value->Object_0 == *fields,
                    views == value.view()->Object_0,
                    expected == response_output(value.view())->Object_0,
                    outputs.len() == i,
                    forall|j: int|
                        0 <= j < i ==> expected[j] == (
                            (#[trigger] outputs@[j]).0@,
                            outputs@[j].1.view(),
                        ),
                decreases fields.len() - i,
            {
                assert(views[i as int] == (
                    fields@[i as int].name@,
                    fields@[i as int].value.view(),
                ));
                assert(expected[i as int] == (
                    views[i as int].0,
                    response_output(views[i as int].1),
                ));
                assert(decreases_to!(value => fields));
                assert(decreases_to!(fields => fields@[i as int]));
                assert(decreases_to!(fields@[i as int] => fields@[i as int].value));
                outputs.push((fields[i].name.clone(), gql_value_to_js(&fields[i].value)));
                i += 1;
            }
            let output = JsOutput::Object(outputs);
            assert(output.view()->Object_0 =~= expected);
            output
        },
    }
}

/// The object of a GraphQL response: its data.
pub fn gql_response_to_js(response: &GraphqlResponse) -> (output: JsOutput)
    ensures
        output.view() == OutputView::Object(
            seq![("data"@, response_output(response.view()))],
        ),
{
    let mut fields: Vec<(String, JsOutput)> = Vec::new();
    fields.push(("data".to_owned(), gql_value_to_js(&response.data)));
    let output = JsOutput::Object(fields);
    assert(output.view()->Object_0 =~= seq![("data"@, response_output(response.view()))]);
    output
}

/// A script value is the one that was to be made. Scripts hold integers as double precision
/// numbers, so only those that such a number can hold come out as they were.
pub open spec fn is_made(js: JsInput, output: OutputView) -> bool {
    match output {
        OutputView::Null => js is Null,
        OutputView::Boolean(truth) => js matches JsInput::Boolean(made) && made == truth,
        OutputView::Integer(number) => js matches JsInput::Number(made) && made.int64 == number && (
        i32::MIN <= number <= i32::MAX ==> made.int32 == number),
        OutputView::Number(bits) => js matches JsInput::Number(made) && made.bits == bits,
        OutputView::Text(text) => js matches JsInput::Text(made) && made@ == text,
        OutputView::Date(time) => js matches JsInput::Object(made) && made.kind
            == JsObjectKind::Date(time),
        OutputView::Bytes(bytes) => js matches JsInput::Object(made) && made.bytes@ == bytes,
        _ => false,
    }
}

/// A value of a type, other than a document. Null is of every type.
pub open spec fn is_plain(value: ValueView, data_type: DataType) -> bool {
    match value {
        ValueView::Null => true,
        ValueView::Boolean(_) => data_type == DataType::Boolean,
        ValueView::Int32(_) => data_type == DataType::Int32,
        ValueView::Int64(_) => data_type == DataType::Int64,
        ValueView::Float64(_) => data_type == DataType::Float64,
        ValueView::String(_) => data_type == DataType::String,
        ValueView::DateTime(_) => data_type == DataType::DateTime,
        ValueView::Bytes(_) => data_type == DataType::Bytes,
        ValueView::Jsonb(_) => false,
    }
}

/// A value that a script holds exactly is taken back as the same value.
pub proof fn law_values_survive_scripts(
    value: ValueView,
    data_type: DataType,
    js: JsInput,
    json: Option<Seq<char>>,
)
    requires
        is_plain(value, data_type),
        is_made(js, output_of(value)),
    ensures
        value_of(js, data_type, json) == Ok::<ValueView, crate::js_convert::ErrorView>(value),
{
}

/// Rows become an array of objects in their order. The object of a row has for each column, in the
/// order of the columns, a property of that name with the value of that column.
pub proof fn law_rows_become_objects(rows: Seq<RowView>, names: Seq<Seq<char>>, at: int, k: int)
    requires
        0 <= at < rows.len(),
    ensures
        ({
            let items = array_of(rows, names)->List_0;
            let fields = items[at]->Object_0;
            &&& array_of(rows, names) is List
            &&& items.len() == rows.len()
            &&& items[at] is Object
            &&& names.len() <= rows[at].values.len() ==> fields.len() == names.len()
            &&& names.len() > rows[at].values.len() ==> fields.len() == rows[at].values.len()
            &&& 0 <= k < fields.len() ==> fields[k].0 == names[k] && fields[k].1 == output_of(
                rows[at].values[k],
            )
        }),
{
}

/// A response becomes a script value of the same structure: lists in order, and objects with their
/// fields in order and by name.
pub proof fn law_responses_keep_their_structure(value: ResponseView, at: int)
    ensures
        value is Null ==> response_output(value) is Null,
        value matches ResponseView::Scalar(scalar) ==> response_output(value) == output_of(scalar),
        value matches ResponseView::List(items) ==> {
            &&& response_output(value) is List
            &&& response_output(value)->List_0.len() == items.len()
            &&& 0 <= at < items.len() ==> response_output(value)->List_0[at] == response_output(
                items[at],
            )
        },
        value matches ResponseView::Object(fields) ==> {
            &&& response_output(value) is Object
            &&& response_output(value)->Object_0.len() == fields.len()
            &&& 0 <= at < fields.len() ==> response_output(value)->Object_0[at] == (
                fields[at].0,
                response_output(fields[at].1),
            )
        },
{
}

/// Different plain values of a type become different script values, and a document becomes the JSON
/// text that its bytes are.
pub proof fn law_values_stay_apart_in_scripts(
    left: ValueView,
    right: ValueView,
    data_type: DataType,
    text: Seq<char>,
)
    ensures
        is_plain(left, data_type) && is_plain(right, data_type) && output_of(left) == output_of(
            right,
        ) ==> left == right,
        output_of(ValueView::Jsonb(vstd::utf8::encode_utf8(text))) == OutputView::Json(text),
{
    vstd::utf8::encode_utf8_valid_utf8(text);
    vstd::utf8::encode_utf8_decode_utf8(text);
}

} // verus!
