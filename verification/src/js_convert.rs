//! Conversion of script values to values of the database.
//!
//! Script values come as [`JsInput`]: what the script engine tells of a value, with the integers
//! that it truncates a number to.
use vstd::prelude::*;
use vstd::utf8::encode_utf8;

use crate::row::{rows_view, Row, RowView};
use crate::schema::{Column, DataType, Table};
use crate::tables::NameTable;
use crate::text::{chars_of, string_of};
use crate::value::{values_view, Float64Bits, Value, ValueView};

verus! {

/// A number of a script: its bits, the integers that it is truncated to, whether it is whole and
/// whether it lies between the smallest and the largest 32 bit integer.
#[derive(Clone, Copy, Debug)]
pub struct JsNumber {
    pub bits: u64,
    pub int32: i32,
    pub int64: i64,
    pub whole: bool,
    pub fits_int32: bool,
}

/// The kinds of objects of a script.
#[derive(Debug)]
pub enum JsObjectKind {
    /// A date, as milliseconds since the epoch.
    Date(i64),
    /// An array of bytes.
    Bytes,
    /// An array.
    List(Vec<JsInput>),
    /// Any other object.
    Plain,
}

/// An object of a script, with its own named fields and the bytes that an array of bytes made from
/// it holds.
#[derive(Debug)]
pub struct JsObject {
    pub kind: JsObjectKind,
    pub fields: Vec<(String, JsInput)>,
    pub bytes: Vec<u8>,
}

/// A value of a script.
#[derive(Debug)]
pub enum JsInput {
    Null,
    Undefined,
    Boolean(bool),
    Number(JsNumber),
    BigInt(String),
    Text(String),
    Object(JsObject),
    Other,
}

/// Why a conversion fails.
#[derive(Debug)]
pub enum ConvertError {
    ExpectedBoolean,
    ExpectedNumber,
    ExpectedNumberOrBigInt,
    BigIntOutOfRange,
    ExpectedString,
    ExpectedNumberOrDate,
    ExpectedBytes,
    StringifyFailed,
    ExpectedObject,
    ExpectedArray,
    MissingColumn(String),
    NotNullable(String),
    VariablesNotObject,
    UnsupportedInput,
}

/// Why a conversion fails.
pub enum ErrorView {
    ExpectedBoolean,
    ExpectedNumber,
    ExpectedNumberOrBigInt,
    BigIntOutOfRange,
    ExpectedString,
    ExpectedNumberOrDate,
    ExpectedBytes,
    StringifyFailed,
    ExpectedObject,
    ExpectedArray,
    MissingColumn(Seq<char>),
    NotNullable(Seq<char>),
    VariablesNotObject,
    UnsupportedInput,
}

impl View for ConvertError {
    type V = ErrorView;

    open spec fn view(&self) -> ErrorView {
        match self {
            ConvertError::ExpectedBoolean => ErrorView::ExpectedBoolean,
            ConvertError::ExpectedNumber => ErrorView::ExpectedNumber,
            ConvertError::ExpectedNumberOrBigInt => ErrorView::ExpectedNumberOrBigInt,
            ConvertError::BigIntOutOfRange => ErrorView::BigIntOutOfRange,
            ConvertError::ExpectedString => ErrorView::ExpectedString,
            ConvertError::ExpectedNumberOrDate => ErrorView::ExpectedNumberOrDate,
            ConvertError::ExpectedBytes => ErrorView::ExpectedBytes,
            ConvertError::StringifyFailed => ErrorView::StringifyFailed,
            ConvertError::ExpectedObject => ErrorView::ExpectedObject,
            ConvertError::ExpectedArray => ErrorView::ExpectedArray,
            ConvertError::MissingColumn(name) => ErrorView::MissingColumn(name@),
            ConvertError::NotNullable(name) => ErrorView::NotNullable(name@),
            ConvertError::VariablesNotObject => ErrorView::VariablesNotObject,
            ConvertError::UnsupportedInput => ErrorView::UnsupportedInput,
        }
    }
}

impl ErrorView {
    /// The text of the error.
    pub open spec fn text(self) -> Seq<char> {
        match self {
            ErrorView::ExpectedBoolean => "Expected boolean value"@,
            ErrorView::ExpectedNumber => "Expected number value"@,
            ErrorView::ExpectedNumberOrBigInt => "Expected number or BigInt value"@,
            ErrorView::BigIntOutOfRange => "BigInt out of i64 range"@,
            ErrorView::ExpectedString => "Expected string value"@,
            ErrorView::ExpectedNumberOrDate => "Expected number or Date value"@,
            ErrorView::ExpectedBytes => "Expected Uint8Array value"@,
            ErrorView::StringifyFailed => "Failed to stringify JSON"@,
            ErrorView::ExpectedObject => "Expected object value"@,
            ErrorView::ExpectedArray => "Expected array value"@,
            ErrorView::MissingColumn(name) => "Missing column: "@ + name,
            ErrorView::NotNullable(name) => "Column "@ + name + " is not nullable"@,
            ErrorView::VariablesNotObject => "GraphQL variables must be an object"@,
            ErrorView::UnsupportedInput => "Unsupported GraphQL input value"@,
        }
    }
}

fn joined(parts: &[&str]) -> (text: String)
    requires
        parts.len() == 3,
    ensures
        text@ == parts@[0]@ + parts@[1]@ + parts@[2]@,
{
    let mut chars = chars_of(parts[0]);
    let mut second = chars_of(parts[1]);
    let mut third = chars_of(parts[2]);
    chars.append(&mut second);
    chars.append(&mut third);
    string_of(chars.as_slice())
}

impl ConvertError {
    /// The text of the error.
    pub fn message(&self) -> (text: String)
        ensures
            text@ == self@.text(),
    {
        match self {
            ConvertError::ExpectedBoolean => "Expected boolean value".to_owned(),
            ConvertError::ExpectedNumber => "Expected number value".to_owned(),
            ConvertError::ExpectedNumberOrBigInt => "Expected number or BigInt value".to_owned(),
            ConvertError::BigIntOutOfRange => "BigInt out of i64 range".to_owned(),
            ConvertError::ExpectedString => "Expected string value".to_owned(),
            ConvertError::ExpectedNumberOrDate => "Expected number or Date value".to_owned(),
            ConvertError::ExpectedBytes => "Expected Uint8Array value".to_owned(),
            ConvertError::StringifyFailed => "Failed to stringify JSON".to_owned(),
            ConvertError::ExpectedObject => "Expected object value".to_owned(),
            ConvertError::ExpectedArray => "Expected array value".to_owned(),
            ConvertError::MissingColumn(name) => {
                let mut chars = chars_of("Missing column: ");
                let mut rest = chars_of(name.as_str());
                chars.append(&mut rest);
                string_of(chars.as_slice())
            },
            ConvertError::NotNullable(name) => {
                let parts = ["Column ", name.as_str(), " is not nullable"];
                joined(parts.as_slice())
            },
            ConvertError::VariablesNotObject => "GraphQL variables must be an object".to_owned(),
            ConvertError::UnsupportedInput => "Unsupported GraphQL input value".to_owned(),
        }
    }
}

/// Decimal digits only.
pub open spec fn all_digits(text: Seq<char>) -> bool {
    forall|i: int| 0 <= i < text.len() ==> '0' <= #[trigger] text[i] <= '9'
}

/// The number that decimal digits stand for.
pub open spec fn digits_value(text: Seq<char>) -> int
    decreases text.len(),
{
    if text.len() == 0 {
        0
    } else {
        digits_value(text.drop_last()) * 10 + (text.last() as int - '0' as int)
    }
}

/// The 64 bit integer that a text stands for: decimal digits with or without a sign.
pub open spec fn integer_of(text: Seq<char>) -> Option<i64> {
    let signed = text.len() > 0 && (text[0] == '-' || text[0] == '+');
    let digits = if signed {
        text.skip(1)
    } else {
        text
    };
    let value = if signed && text[0] == '-' {
        -digits_value(digits)
    } else {
        digits_value(digits)
    };
    if digits.len() > 0 && all_digits(digits) && i64::MIN <= value <= i64::MAX {
        Some(value as i64)
    } else {
        None
    }
}

proof fn lemma_digits_grow(text: Seq<char>, k: int)
    requires
        all_digits(text),
        0 <= k <= text.len(),
    ensures
        0 <= digits_value(text.take(k)) <= digits_value(text),
    decreases text.len(),
{
    if k == text.len() {
        assert(text.take(k) =~= text);
        if k > 0 {
            let shorter = text.drop_last();
            assert(all_digits(shorter)) by {
                assert forall|i: int| 0 <= i < shorter.len() implies '0' <= #[trigger] shorter[i]
                    <= '9' by {
                    assert(shorter[i] == text[i]);
                }
            }
            lemma_digits_grow(shorter, shorter.len() as int);
            assert(shorter.take(shorter.len() as int) =~= shorter);
            assert(text[text.len() - 1] == text.last());
        }
    } else {
        let shorter = text.drop_last();
        assert(all_digits(shorter)) by {
            assert forall|i: int| 0 <= i < shorter.len() implies '0' <= #[trigger] shorter[i]
                <= '9' by {
                assert(shorter[i] == text[i]);
            }
        }
        lemma_digits_grow(shorter, k);
        assert(shorter.take(k) =~= text.take(k));
        assert(text[text.len() - 1] == text.last());
    }
}

/// Reads a 64 bit integer.
pub fn parse_integer(text: &str) -> (result: Option<i64>)
    ensures
        result == integer_of(text@),
{
    let chars = chars_of(text);
    let signed = chars.len() > 0 && (chars[0] == '-' || chars[0] == '+');
    let negative = chars.len() > 0 && chars[0] == '-';
    let start: usize = if signed {
        1
    } else {
        0
    };
    let ghost digits = if signed {
        text@.skip(1)
    } else {
        text@
    };
    if start == chars.len() {
        return None;
    }
    let mut value: i128 = 0;
    let mut i: usize = start;
    assert(digits.take(0) =~= Seq::empty());
    while i < chars.len()
        invariant
            start <= i <= chars.len(),
            chars@ == text@,
            digits == (if signed {
                text@.skip(1)
            } else {
                text@
            }),
            start == (if signed {
                1int
            } else {
                0int
            }),
            signed == (text@.len() > 0 && (text@[0] == '-' || text@[0] == '+')),
            all_digits(digits.take(i - start)),
            value == digits_value(digits.take(i - start)),
            0 <= value <= 0x8000_0000_0000_0000,
        decreases chars.len() - i,
    {
        let c = chars[i];
        let ghost shorter = digits.take(i - start);
        let ghost longer = digits.take(i - start + 1);
        proof {
            assert(digits[i - start] == c);
            assert(longer.drop_last() =~= shorter);
            assert(longer.last() == c);
        }
        if c < '0' || c > '9' {
            assert(!all_digits(digits));
            return None;
        }
        value = value * 10 + ((c as u32) as i128 - 48);
        proof {
            assert forall|j: int| 0 <= j < longer.len() implies '0' <= #[trigger] longer[j]
                <= '9' by {
                if j < shorter.len() {
                    assert(shorter[j] == longer[j]);
                }
            }
        }
        if value > 0x8000_0000_0000_0000 {
            proof {
                if all_digits(digits) {
                    lemma_digits_grow(digits, i - start + 1);
                }
            }
            return None;
        }
        i += 1;
    }
    assert(digits.take(digits.len() as int) =~= digits);
    if negative {
        Some((0 - value) as i64)
    } else if value == 0x8000_0000_0000_0000 {
        None
    } else {
        Some(value as i64)
    }
}

/// A value that a column of a type can be given. An object for a time is a date.
pub open spec fn convertible(js: JsInput, expected_type: DataType) -> bool {
    expected_type == DataType::DateTime && js is Object ==> js->Object_0.kind is Date
}

/// The value that a script value stands for. `json` is its JSON text.
pub open spec fn value_of(js: JsInput, expected_type: DataType, json: Option<Seq<char>>) -> Result<
    ValueView,
    ErrorView,
> {
    match (js, expected_type) {
        (JsInput::Null, _) => Ok(ValueView::Null),
        (JsInput::Undefined, _) => Ok(ValueView::Null),
        (JsInput::Boolean(b), DataType::Boolean) => Ok(ValueView::Boolean(b)),
        (_, DataType::Boolean) => Err(ErrorView::ExpectedBoolean),
        (JsInput::Number(n), DataType::Int32) => Ok(ValueView::Int32(n.int32)),
        (_, DataType::Int32) => Err(ErrorView::ExpectedNumber),
        (JsInput::Number(n), DataType::Int64) => Ok(ValueView::Int64(n.int64)),
        (JsInput::BigInt(text), DataType::Int64) => match integer_of(text@) {
            Some(value) => Ok(ValueView::Int64(value)),
            None => Err(ErrorView::BigIntOutOfRange),
        },
        (_, DataType::Int64) => Err(ErrorView::ExpectedNumberOrBigInt),
        (JsInput::Number(n), DataType::Float64) => Ok(ValueView::Float64(n.bits)),
        (_, DataType::Float64) => Err(ErrorView::ExpectedNumber),
        (JsInput::Text(text), DataType::String) => Ok(ValueView::String(text@)),
        (_, DataType::String) => Err(ErrorView::ExpectedString),
        (JsInput::Number(n), DataType::DateTime) => Ok(ValueView::DateTime(n.int64)),
        (JsInput::Object(object), DataType::DateTime) => match object.kind {
            JsObjectKind::Date(time) => Ok(ValueView::DateTime(time)),
            _ => Err(ErrorView::ExpectedNumberOrDate),
        },
        (_, DataType::DateTime) => Err(ErrorView::ExpectedNumberOrDate),
        (JsInput::Object(object), DataType::Bytes) => Ok(ValueView::Bytes(object.bytes@)),
        (_, DataType::Bytes) => Err(ErrorView::ExpectedBytes),
        (_, DataType::Jsonb) => match json {
            Some(text) => Ok(ValueView::Jsonb(encode_utf8(text))),
            None => Err(ErrorView::StringifyFailed),
        },
    }
}

/// The text of an optional string.
pub open spec fn optional_text(text: Option<String>) -> Option<Seq<char>> {
    match text {
        Some(text) => Some(text@),
        None => None,
    }
}

fn bytes_of(text: &str) -> (bytes: Vec<u8>)
    ensures
        bytes@ == encode_utf8(text@),
{
    let source = text.as_bytes();
    let mut bytes: Vec<u8> = Vec::new();
    let mut i: usize = 0;
    while i < source.len()
        invariant
            i <= source.len(),
            bytes@ == source@.take(i as int),
        decreases source.len() - i,
    {
        bytes.push(source[i]);
        assert(source@.take(i + 1) =~= source@.take(i as int).push(source@[i as int]));
        i += 1;
    }
    assert(source@.take(source@.len() as int) =~= source@);
    bytes
}

/// Converts a script value to a value of a type. `json` is the JSON text of the value, none if it
/// has none; it is only read for documents.
pub fn js_to_value(js: &JsInput, expected_type: DataType, json: &Option<String>) -> (result: Result<
    Value,
    ConvertError,
>)
    requires
        convertible(*js, expected_type),
    ensures
        match value_of(*js, expected_type, optional_text(*json)) {
            Ok(value) => result is Ok && result->Ok_0@ == value,
            Err(error) => result is Err && result->Err_0@ == error,
        },
{
    if matches!(js, JsInput::Null) || matches!(js, JsInput::Undefined) {
        return Ok(Value::Null);
    }
    match expected_type {
        DataType::Boolean => match js {
            JsInput::Boolean(b) => Ok(Value::Boolean(*b)),
            _ => Err(ConvertError::ExpectedBoolean),
        },
        DataType::Int32 => match js {
            JsInput::Number(n) => Ok(Value::Int32(n.int32)),
            _ => Err(ConvertError::ExpectedNumber),
        },
        DataType::Int64 => match js {
            JsInput::Number(n) => Ok(Value::Int64(n.int64)),
            JsInput::BigInt(text) => match parse_integer(text.as_str()) {
                Some(value) => Ok(Value::Int64(value)),
                None => Err(ConvertError::BigIntOutOfRange),
            },
            _ => Err(ConvertError::ExpectedNumberOrBigInt),
        },
        DataType::Float64 => match js {
            JsInput::Number(n) => Ok(Value::Float64(Float64Bits { bits: n.bits })),
            _ => Err(ConvertError::ExpectedNumber),
        },
        DataType::String => match js {
            JsInput::Text(text) => Ok(Value::String(text.clone())),
            _ => Err(ConvertError::ExpectedString),
        },
        DataType::DateTime => match js {
            JsInput::Number(n) => Ok(Value::DateTime(n.int64)),
            JsInput::Object(object) => match &object.kind {
                JsObjectKind::Date(time) => Ok(Value::DateTime(*time)),
                _ => Err(ConvertError::ExpectedNumberOrDate),
            },
            _ => Err(ConvertError::ExpectedNumberOrDate),
        },
        DataType::Bytes => match js {
            JsInput::Object(object) => Ok(
                Value::Bytes(crate::eval::clone_bytes(&object.bytes)),
            ),
            _ => Err(ConvertError::ExpectedBytes),
        },
        DataType::Jsonb => match json {
            Some(text) => Ok(Value::Jsonb(bytes_of(text.as_str()))),
            None => Err(ConvertError::StringifyFailed),
        },
    }
}

/// The type that a script value has by itself.
pub open spec fn inferred(js: JsInput) -> Option<DataType> {
    match js {
        JsInput::Null => None,
        JsInput::Undefined => None,
        JsInput::Boolean(_) => Some(DataType::Boolean),
        JsInput::BigInt(_) => Some(DataType::Int64),
        JsInput::Number(n) => Some(
            if n.whole && n.fits_int32 {
                DataType::Int32
            } else {
                DataType::Float64
            },
        ),
        JsInput::Text(_) => Some(DataType::String),
        JsInput::Object(object) => Some(
            match object.kind {
                JsObjectKind::Date(_) => DataType::DateTime,
                JsObjectKind::Bytes => DataType::Bytes,
                _ => DataType::Jsonb,
            },
        ),
        JsInput::Other => None,
    }
}

/// Infers the type of a script value.
pub fn infer_type(js: &JsInput) -> (result: Option<DataType>)
    ensures
        result == inferred(*js),
{
    match js {
        JsInput::Null => None,
        JsInput::Undefined => None,
        JsInput::Boolean(_) => Some(DataType::Boolean),
        JsInput::BigInt(_) => Some(DataType::Int64),
        JsInput::Number(n) => if n.whole && n.fits_int32 {
            Some(DataType::Int32)
        } else {
            Some(DataType::Float64)
        },
        JsInput::Text(_) => Some(DataType::String),
        JsInput::Object(object) => match &object.kind {
            JsObjectKind::Date(_) => Some(DataType::DateTime),
            JsObjectKind::Bytes => Some(DataType::Bytes),
            _ => Some(DataType::Jsonb),
        },
        JsInput::Other => None,
    }
}

/// A property of a script object, with its JSON text.
#[derive(Debug)]
pub struct JsProperty {
    pub value: JsInput,
    pub json: Option<String>,
}

/// The value that a property gives a column. A column that is not nullable takes no null.
pub open spec fn property_value(property: Option<JsProperty>, column: Column) -> Result<
    ValueView,
    ErrorView,
> {
    match property {
        None => Err(ErrorView::MissingColumn(column.name@)),
        Some(property) => if property.value is Null || property.value is Undefined {
            if column.nullable {
                Ok(ValueView::Null)
            } else {
                Err(ErrorView::NotNullable(column.name@))
            }
        } else {
            value_of(property.value, column.data_type, optional_text(property.json))
        },
    }
}

/// The values that properties give columns, or the first error.
pub open spec fn property_values(properties: Seq<Option<JsProperty>>, columns: Seq<Column>) -> Result<
    Seq<ValueView>,
    ErrorView,
>
    decreases columns.len(),
{
    if columns.len() == 0 || properties.len() != columns.len() {
        Ok(Seq::empty())
    } else {
        match property_values(properties.drop_last(), columns.drop_last()) {
            Ok(values) => match property_value(properties.last(), columns.last()) {
                Ok(value) => Ok(values.push(value)),
                Err(error) => Err(error),
            },
            Err(error) => Err(error),
        }
    }
}

/// The row that a script object stands for, or the first error.
pub open spec fn row_of(
    properties: Option<Seq<Option<JsProperty>>>,
    columns: Seq<Column>,
    row_id: u64,
) -> Result<RowView, ErrorView> {
    match properties {
        None => Err(ErrorView::ExpectedObject),
        Some(properties) => match property_values(properties, columns) {
            Ok(values) => Ok(RowView { id: row_id, version: 1, values }),
            Err(error) => Err(error),
        },
    }
}

/// The properties of an object fit the columns of a table: one for each of them.
pub open spec fn fits(properties: Seq<Option<JsProperty>>, columns: Seq<Column>) -> bool {
    &&& properties.len() == columns.len()
    &&& forall|i: int|
        0 <= i < columns.len() ==> ((#[trigger] properties[i]) matches Some(property) ==> convertible(
            property.value,
            columns[i].data_type,
        ))
}

proof fn lemma_properties_stop(
    properties: Seq<Option<JsProperty>>,
    columns: Seq<Column>,
    k: int,
)
    requires
        properties.len() == columns.len(),
        0 <= k <= columns.len(),
        property_values(properties.take(k), columns.take(k)) is Err,
    ensures
        property_values(properties, columns) == property_values(
            properties.take(k),
            columns.take(k),
        ),
    decreases columns.len(),
{
    if k == columns.len() {
        assert(properties.take(k) =~= properties);
        assert(columns.take(k) =~= columns);
    } else {
        assert(properties.drop_last().take(k) =~= properties.take(k));
        assert(columns.drop_last().take(k) =~= columns.take(k));
        lemma_properties_stop(properties.drop_last(), columns.drop_last(), k);
    }
}

/// Converts a script object to a row. `properties` are the properties of the object for the
/// columns of the table, none for one that cannot be read; there are none at all if the value is
/// no object.
pub fn js_to_row(properties: Option<&[Option<JsProperty>]>, schema: &Table, row_id: u64) -> (result:
    Result<Row, ConvertError>)
    requires
        properties matches Some(properties) ==> fits(properties@, schema.columns@),
    ensures
        match row_of(
            match properties {
                Some(properties) => Some(properties@),
                None => None,
            },
            schema.columns@,
            row_id,
        ) {
            Ok(row) => result is Ok && result->Ok_0@ == row,
            Err(error) => result is Err && result->Err_0@ == error,
        },
{
    let list = match properties {
        Some(list) => list,
        None => {
            return Err(ConvertError::ExpectedObject);
        },
    };
    let ghost columns = schema.columns@;
    let mut values: Vec<Value> = Vec::new();
    let mut i: usize = 0;
    assert(columns.take(0) =~= Seq::empty());
    assert(values_view(values@) =~= Seq::empty());
    while i < schema.columns.len()
        invariant
            i <= schema.columns.len(),
            properties == Some(list),
            columns == schema.columns@,
            fits(list@, columns),
            property_values(list@.take(i as int), columns.take(i as int))
                == Ok::<Seq<ValueView>, ErrorView>(values_view(values@)),
        decreases schema.columns.len() - i,
    {
        let ghost before = values_view(values@);
        proof {
            assert(columns.take(i + 1).drop_last() =~= columns.take(i as int));
            assert(columns.take(i + 1).last() == columns[i as int]);
            assert(list@.take(i + 1).drop_last() =~= list@.take(i as int));
            assert(list@.take(i + 1).last() == list@[i as int]);
        }
        let column = &schema.columns[i];
        let converted = match &list[i] {
            None => Err(ConvertError::MissingColumn(column.name.clone())),
            Some(property) => if matches!(property.value, JsInput::Null) || matches!(
                property.value,
                JsInput::Undefined
            ) {
                if column.nullable {
                    Ok(Value::Null)
                } else {
                    Err(ConvertError::NotNullable(column.name.clone()))
                }
            } else {
                js_to_value(&property.value, column.data_type, &property.json)
            },
        };
        match converted {
            Ok(value) => {
                let ghost added = value@;
                values.push(value);
                assert(values_view(values@) =~= before.push(added));
            },
            Err(error) => {
                proof {
                    lemma_properties_stop(list@, columns, i + 1);
                }
                return Err(error);
            },
        }
        i += 1;
    }
    assert(columns.take(columns.len() as int) =~= columns);
    assert(list@.take(columns.len() as int) =~= list@);
    Ok(Row::new(row_id, values))
}

/// The rows that script objects stand for, or the first error. The rows are numbered from a
/// start.
pub open spec fn rows_of(
    items: Seq<Option<Vec<Option<JsProperty>>>>,
    columns: Seq<Column>,
    start_row_id: u64,
) -> Result<Seq<RowView>, ErrorView>
    decreases items.len(),
{
    if items.len() == 0 {
        Ok(Seq::empty())
    } else {
        match rows_of(items.drop_last(), columns, start_row_id) {
            Ok(rows) => match row_of(
                match items.last() {
                    Some(properties) => Some(properties@),
                    None => None,
                },
                columns,
                (start_row_id + items.len() - 1) as u64,
            ) {
                Ok(row) => Ok(rows.push(row)),
                Err(error) => Err(error),
            },
            Err(error) => Err(error),
        }
    }
}

proof fn lemma_rows_stop(
    items: Seq<Option<Vec<Option<JsProperty>>>>,
    columns: Seq<Column>,
    start_row_id: u64,
    k: int,
)
    requires
        0 <= k <= items.len(),
        rows_of(items.take(k), columns, start_row_id) is Err,
    ensures
        rows_of(items, columns, start_row_id) == rows_of(items.take(k), columns, start_row_id),
    decreases items.len(),
{
    if k == items.len() {
        assert(items.take(k) =~= items);
    } else {
        assert(items.drop_last().take(k) =~= items.take(k));
        lemma_rows_stop(items.drop_last(), columns, start_row_id, k);
    }
}

/// Converts a script array to rows. `items` are the objects of the array; there are none at all if
/// the value is no array.
pub fn js_array_to_rows(
    items: Option<&[Option<Vec<Option<JsProperty>>>]>,
    schema: &Table,
    start_row_id: u64,
) -> (result: Result<Vec<Row>, ConvertError>)
    requires
        items matches Some(items) ==> start_row_id + items@.len() <= u64::MAX && forall|i: int|
            0 <= i < items@.len() ==> ((#[trigger] items@[i]) matches Some(properties) ==> fits(
                properties@,
                schema.columns@,
            )),
    ensures
        match items {
            None => result is Err && result->Err_0@ == ErrorView::ExpectedArray,
            Some(items) => match rows_of(items@, schema.columns@, start_row_id) {
                Ok(rows) => result is Ok && rows_view(result->Ok_0@) == rows,
                Err(error) => result is Err && result->Err_0@ == error,
            },
        },
{
    let list = match items {
        Some(list) => list,
        None => {
            return Err(ConvertError::ExpectedArray);
        },
    };
    let ghost columns = schema.columns@;
    let mut rows: Vec<Row> = Vec::new();
    let mut i: usize = 0;
    assert(list@.take(0) =~= Seq::empty());
    assert(rows_view(rows@) =~= Seq::empty());
    while i < list.len()
        invariant
            i <= list.len(),
            items == Some(list),
            columns == schema.columns@,
            start_row_id + list@.len() <= u64::MAX,
            forall|j: int|
                0 <= j < list@.len() ==> ((#[trigger] list@[j]) matches Some(properties) ==> fits(
                    properties@,
                    columns,
                )),
            rows_of(list@.take(i as int), columns, start_row_id) == Ok::<Seq<RowView>, ErrorView>(
                rows_view(rows@),
            ),
        decreases list.len() - i,
    {
        let ghost before = rows_view(rows@);
        proof {
            assert(list@.take(i + 1).drop_last() =~= list@.take(i as int));
            assert(list@.take(i + 1).last() == list@[i as int]);
        }
        let properties = match &list[i] {
            Some(properties) => Some(properties.as_slice()),
            None => None,
        };
        match js_to_row(properties, schema, start_row_id + i as u64) {
            Ok(row) => {
                let ghost added = row@;
                rows.push(row);
                assert(rows_view(rows@) =~= before.push(added));
            },
            Err(error) => {
                proof {
                    lemma_rows_stop(list@, columns, start_row_id, i + 1);
                }
                return Err(error);
            },
        }
        i += 1;
    }
    assert(list@.take(list@.len() as int) =~= list@);
    Ok(rows)
}

/// An input value of a GraphQL query.
#[derive(Debug)]
pub enum InputValue {
    Null,
    Boolean(bool),
    Int(i64),
    Float(u64),
    String(String),
    List(Vec<InputValue>),
    Object(Vec<(String, InputValue)>),
}

/// What an input value of a GraphQL query holds.
pub enum InputView {
    Null,
    Boolean(bool),
    Int(i64),
    Float(u64),
    String(Seq<char>),
    List(Seq<InputView>),
    Object(Seq<(Seq<char>, InputView)>),
}

impl InputValue {
    /// What the value holds.
    pub open spec fn view(&self) -> InputView
        decreases self,
    {
        match self {
            InputValue::Null => InputView::Null,
            InputValue::Boolean(b) => InputView::Boolean(*b),
            InputValue::Int(value) => InputView::Int(*value),
            InputValue::Float(bits) => InputView::Float(*bits),
            InputValue::String(text) => InputView::String(text@),
            InputValue::List(items) => InputView::List(
                Seq::new(
                    items@.len(),
                    |i: int|
                        if 0 <= i < items@.len() {
                            items@[i].view()
                        } else {
                            InputView::Null
                        },
                ),
            ),
            InputValue::Object(fields) => InputView::Object(
                Seq::new(
                    fields@.len(),
                    |i: int|
                        if 0 <= i < fields@.len() {
                            (fields@[i].0@, fields@[i].1.view())
                        } else {
                            (Seq::empty(), InputView::Null)
                        },
                ),
            ),
        }
    }
}

/// The input values of a list.
pub open spec fn inputs_view(values: Seq<InputValue>) -> Seq<InputView> {
    Seq::new(values.len(), |i: int| values[i].view())
}

/// The named input values of a list.
pub open spec fn fields_view(fields: Seq<(String, InputValue)>) -> Seq<(Seq<char>, InputView)> {
    Seq::new(fields.len(), |i: int| (fields[i].0@, fields[i].1.view()))
}

/// The input value that a script value stands for. A whole number is an integer, a date is its
/// time, and an array of bytes is a list of integers.
pub open spec fn input_of(js: JsInput) -> Result<InputView, ErrorView>
    decreases js,
{
    match js {
        JsInput::Null => Ok(InputView::Null),
        JsInput::Undefined => Ok(InputView::Null),
        JsInput::Boolean(b) => Ok(InputView::Boolean(b)),
        JsInput::BigInt(text) => match integer_of(text@) {
            Some(value) => Ok(InputView::Int(value)),
            None => Err(ErrorView::BigIntOutOfRange),
        },
        JsInput::Number(n) => Ok(
            if n.whole {
                InputView::Int(n.int64)
            } else {
                InputView::Float(n.bits)
            },
        ),
        JsInput::Text(text) => Ok(InputView::String(text@)),
        JsInput::Object(object) => match object.kind {
            JsObjectKind::Date(time) => Ok(InputView::Int(time)),
            JsObjectKind::Bytes => Ok(
                InputView::List(object.bytes@.map_values(|byte: u8| InputView::Int(byte as i64))),
            ),
            JsObjectKind::List(items) => match inputs_of(items@) {
                Ok(values) => Ok(InputView::List(values)),
                Err(error) => Err(error),
            },
            JsObjectKind::Plain => match fields_of(object.fields@) {
                Ok(values) => Ok(InputView::Object(values)),
                Err(error) => Err(error),
            },
        },
        JsInput::Other => Err(ErrorView::UnsupportedInput),
    }
}

/// The input values that script values stand for, or the first error.
pub open spec fn inputs_of(items: Seq<JsInput>) -> Result<Seq<InputView>, ErrorView>
    decreases items,
{
    if items.len() == 0 {
        Ok(Seq::empty())
    } else {
        match inputs_of(items.drop_last()) {
            Ok(values) => match input_of(items[items.len() - 1]) {
                Ok(value) => Ok(values.push(value)),
                Err(error) => Err(error),
            },
            Err(error) => Err(error),
        }
    }
}

/// The named input values that the fields of a script object stand for, or the first error.
pub open spec fn fields_of(fields: Seq<(String, JsInput)>) -> Result<
    Seq<(Seq<char>, InputView)>,
    ErrorView,
>
    decreases fields,
{
    if fields.len() == 0 {
        Ok(Seq::empty())
    } else {
        match fields_of(fields.drop_last()) {
            Ok(values) => match input_of(fields[fields.len() - 1].1) {
                Ok(value) => Ok(values.push((fields[fields.len() - 1].0@, value))),
                Err(error) => Err(error),
            },
            Err(error) => Err(error),
        }
    }
}

proof fn lemma_inputs_stop(items: Seq<JsInput>, k: int)
    requires
        0 <= k <= items.len(),
        inputs_of(items.take(k)) is Err,
    ensures
        inputs_of(items) == inputs_of(items.take(k)),
    decreases items.len(),
{
    if k == items.len() {
        assert(items.take(k) =~= items);
    } else {
        assert(items.drop_last().take(k) =~= items.take(k));
        lemma_inputs_stop(items.drop_last(), k);
    }
}

proof fn lemma_fields_stop(fields: Seq<(String, JsInput)>, k: int)
    requires
        0 <= k <= fields.len(),
        fields_of(fields.take(k)) is Err,
    ensures
        fields_of(fields) == fields_of(fields.take(k)),
    decreases fields.len(),
{
    if k == fields.len() {
        assert(fields.take(k) =~= fields);
    } else {
        assert(fields.drop_last().take(k) =~= fields.take(k));
        lemma_fields_stop(fields.drop_last(), k);
    }
}

/// Converts a script value to an input value.
pub fn js_to_gql_input_value(js: &JsInput) -> (result: Result<InputValue, ConvertError>)
    ensures
        match input_of(*js) {
            Ok(value) => result is Ok && result->Ok_0.view() == value,
            Err(error) => result is Err && result->Err_0@ == error,
        },
    decreases js,
{
    match js {
        JsInput::Null => Ok(InputValue::Null),
        JsInput::Undefined => Ok(InputValue::Null),
        JsInput::Boolean(b) => Ok(InputValue::Boolean(*b)),
        JsInput::BigInt(text) => match parse_integer(text.as_str()) {
            Some(value) => Ok(InputValue::Int(value)),
            None => Err(ConvertError::BigIntOutOfRange),
        },
        JsInput::Number(n) => if n.whole {
            Ok(InputValue::Int(n.int64))
        } else {
            Ok(InputValue::Float(n.bits))
        },
        JsInput::Text(text) => Ok(InputValue::String(text.clone())),
        JsInput::Object(object) => match &object.kind {
            JsObjectKind::Date(time) => Ok(InputValue::Int(*time)),
            JsObjectKind::Bytes => {
                let mut values: Vec<InputValue> = Vec::new();
                let mut i: usize = 0;
                while i < object.bytes.len()
                    invariant
                        i <= object.bytes.len(),
                        values.len() == i,
                        forall|j: int|
                            0 <= j < i ==> (#[trigger] values@[j]).view() == InputView::Int(
                                object.bytes@[j] as i64,
                            ),
                    decreases object.bytes.len() - i,
                {
                    values.push(InputValue::Int(object.bytes[i] as i64));
                    i += 1;
                }
                let result = InputValue::List(values);
                assert(result.view()->List_0 =~= object.bytes@.map_values(
                    |byte: u8| InputView::Int(byte as i64),
                ));
                Ok(result)
            },
            JsObjectKind::List(items) => {
                let mut values: Vec<InputValue> = Vec::new();
                let mut i: usize = 0;
                assert(items@.take(0) =~= Seq::empty());
                assert(inputs_view(values@) =~= Seq::empty());
                while i < items.len()
                    invariant
                        i <= items.len(),
                        js is Object && js->Object_0 == *object,
                        object.kind is List && object.kind->List_0 == *items,
                        inputs_of(items@.take(i as int)) == Ok::<Seq<InputView>, ErrorView>(
                            inputs_view(values@),
                        ),
                    decreases items.len() - i,
                {
                    let ghost before = inputs_view(values@);
                    proof {
                        assert(items@.take(i + 1).drop_last() =~= items@.take(i as int));
                        assert(items@.take(i + 1)[i as int] == items@[i as int]);
                        assert(decreases_to!(js => js->Object_0));
                        assert(decreases_to!(js->Object_0 => js->Object_0.kind));
                        assert(decreases_to!(object.kind => object.kind->List_0));
                        assert(decreases_to!(items => items@[i as int]));
                    }
                    match js_to_gql_input_value(&items[i]) {
                        Ok(value) => {
                            let ghost added = value.view();
                            values.push(value);
                            assert(inputs_view(values@) =~= before.push(added));
                        },
                        Err(error) => {
                            proof {
                                lemma_inputs_stop(items@, i + 1);
                            }
                            return Err(error);
                        },
                    }
                    i += 1;
                }
                assert(items@.take(items@.len() as int) =~= items@);
                let ghost all = inputs_view(values@);
                let result = InputValue::List(values);
                assert(result.view()->List_0 =~= all);
                Ok(result)
            },
            JsObjectKind::Plain => {
                let fields = &object.fields;
                let mut values: Vec<(String, InputValue)> = Vec::new();
                let mut i: usize = 0;
                assert(fields@.take(0) =~= Seq::empty());
                assert(fields_view(values@) =~= Seq::empty());
                while i < fields.len()
                    invariant
                        i <= fields.len(),
                        js is Object && js->Object_0 == *object,
                        object.kind is Plain && object.fields == *fields,
                        fields_of(fields@.take(i as int)) == Ok::<
                            Seq<(Seq<char>, InputView)>,
                            ErrorView,
                        >(fields_view(values@)),
                    decreases fields.len() - i,
                {
                    let ghost before = fields_view(values@);
                    proof {
                        assert(fields@.take(i + 1).drop_last() =~= fields@.take(i as int));
                        assert(fields@.take(i + 1)[i as int] == fields@[i as int]);
                        assert(decreases_to!(js => js->Object_0));
                        assert(decreases_to!(js->Object_0 => js->Object_0.fields));
                        assert(decreases_to!(fields => fields@[i as int]));
                        assert(decreases_to!(fields@[i as int] => fields@[i as int].1));
                    }
                    match js_to_gql_input_value(&fields[i].1) {
                        Ok(value) => {
                            let ghost added = value.view();
                            values.push((fields[i].0.clone(), value));
                            assert(fields_view(values@) =~= before.push(
                                (fields@[i as int].0@, added),
                            ));
                        },
                        Err(error) => {
                            proof {
                                lemma_fields_stop(fields@, i + 1);
                            }
                            return Err(error);
                        },
                    }
                    i += 1;
                }
                assert(fields@.take(fields@.len() as int) =~= fields@);
                let ghost all = fields_view(values@);
                let result = InputValue::Object(values);
                assert(result.view()->Object_0 =~= all);
                Ok(result)
            },
        },
        JsInput::Other => Err(ConvertError::UnsupportedInput),
    }
}

/// Named values, of which the last one of a name counts.
pub open spec fn named_inputs(fields: Seq<(Seq<char>, InputView)>) -> Map<Seq<char>, InputView>
    decreases fields.len(),
{
    if fields.len() == 0 {
        Map::empty()
    } else {
        named_inputs(fields.drop_last()).insert(fields.last().0, fields.last().1)
    }
}

/// The variables that a script value stands for: the fields of an object, or none.
pub open spec fn variables_of(js: Option<JsInput>) -> Result<Map<Seq<char>, InputView>, ErrorView> {
    match js {
        None => Ok(Map::empty()),
        Some(JsInput::Null) => Ok(Map::empty()),
        Some(JsInput::Undefined) => Ok(Map::empty()),
        Some(JsInput::Object(object)) => match object.kind {
            JsObjectKind::List(_) => Err(ErrorView::VariablesNotObject),
            _ => match fields_of(object.fields@) {
                Ok(values) => Ok(named_inputs(values)),
                Err(error) => Err(error),
            },
        },
        _ => Err(ErrorView::VariablesNotObject),
    }
}

/// The variables of a table of variables.
pub open spec fn variables_view(values: Map<Seq<char>, InputValue>) -> Map<Seq<char>, InputView> {
    values.map_values(|value: InputValue| value.view())
}

/// Converts a script value to the variables of a GraphQL query.
pub fn js_to_gql_variables(js: Option<&JsInput>) -> (result: Result<
    NameTable<InputValue>,
    ConvertError,
>)
    ensures
        match variables_of(
            match js {
                Some(js) => Some(*js),
                None => None,
            },
        ) {
            Ok(variables) => result is Ok && variables_view(result->Ok_0@) == variables,
            Err(error) => result is Err && result->Err_0@ == error,
        },
{
    let mut variables: NameTable<InputValue> = NameTable::new();
    assert(variables_view(variables@) =~= Map::empty());
    let object = match js {
        None => {
            return Ok(variables);
        },
        Some(JsInput::Null) => {
            return Ok(variables);
        },
        Some(JsInput::Undefined) => {
            return Ok(variables);
        },
        Some(JsInput::Object(object)) => object,
        _ => {
            return Err(ConvertError::VariablesNotObject);
        },
    };
    if matches!(object.kind, JsObjectKind::List(_)) {
        return Err(ConvertError::VariablesNotObject);
    }
    let fields = &object.fields;
    let ghost mut converted: Seq<(Seq<char>, InputView)> = Seq::empty();
    let mut i: usize = 0;
    assert(fields@.take(0) =~= Seq::empty());
    while i < fields.len()
        invariant
            i <= fields.len(),
            js matches Some(js) && *js is Object && (*js)->Object_0 == *object,
            !(object.kind is List) && object.fields == *fields,
            fields_of(fields@.take(i as int)) == Ok::<Seq<(Seq<char>, InputView)>, ErrorView>(
                converted,
            ),
            variables_view(variables@) == named_inputs(converted),
        decreases fields.len() - i,
    {
        let ghost before = variables_view(variables@);
        proof {
            assert(fields@.take(i + 1).drop_last() =~= fields@.take(i as int));
            assert(fields@.take(i + 1)[i as int] == fields@[i as int]);
        }
        match js_to_gql_input_value(&fields[i].1) {
            Ok(value) => {
                let ghost added = value.view();
                variables.insert(fields[i].0.clone(), value);
                proof {
                    let entry = (fields@[i as int].0@, added);
                    let longer = converted.push(entry);
                    assert(longer.drop_last() =~= converted);
                    assert(variables_view(variables@) =~= before.insert(entry.0, added));
                    converted = longer;
                }
            },
            Err(error) => {
                proof {
                    lemma_fields_stop(fields@, i + 1);
                }
                return Err(error);
            },
        }
        i += 1;
    }
    assert(fields@.take(fields@.len() as int) =~= fields@);
    Ok(variables)
}

/// A value is null or of a type.
pub open spec fn is_of_type(value: ValueView, data_type: DataType) -> bool {
    match data_type {
        DataType::Boolean => value is Null || value is Boolean,
        DataType::Int32 => value is Null || value is Int32,
        DataType::Int64 => value is Null || value is Int64,
        DataType::Float64 => value is Null || value is Float64,
        DataType::String => value is Null || value is String,
        DataType::DateTime => value is Null || value is DateTime,
        DataType::Bytes => value is Null || value is Bytes,
        DataType::Jsonb => value is Null || value is Jsonb,
    }
}

/// A conversion gives a value of the type that it was asked for, and null for null and nothing
/// else. It takes over what the script value holds: a truth as it is, a number as its bits or as the
/// integer that it is truncated to, a text and bytes as they are, a date as its time, and a document
/// as its JSON text.
pub proof fn law_conversions_take_values_over(
    js: JsInput,
    expected_type: DataType,
    json: Option<Seq<char>>,
)
    ensures
        value_of(js, expected_type, json) matches Ok(value) ==> {
            &&& is_of_type(value, expected_type)
            &&& value is Null <==> js is Null || js is Undefined
            &&& value matches ValueView::Boolean(truth) ==> js == JsInput::Boolean(truth)
            &&& value matches ValueView::Int32(number) ==> js is Number && js->Number_0.int32
                == number
            &&& value matches ValueView::Int64(number) ==> (js is Number && js->Number_0.int64
                == number) || (js is BigInt && integer_of(js->BigInt_0@) == Some(number))
            &&& value matches ValueView::Float64(bits) ==> js is Number && js->Number_0.bits == bits
            &&& value matches ValueView::String(text) ==> js is Text && js->Text_0@ == text
            &&& value matches ValueView::DateTime(time) ==> (js is Number && js->Number_0.int64
                == time) || (js is Object && js->Object_0.kind == JsObjectKind::Date(time))
            &&& value matches ValueView::Bytes(bytes) ==> js is Object && js->Object_0.bytes@
                == bytes
            &&& value matches ValueView::Jsonb(bytes) ==> json is Some && bytes == encode_utf8(
                json->0,
            )
        },
        js is Null || js is Undefined ==> value_of(js, expected_type, json) is Ok,
        js is Boolean && expected_type is Boolean ==> value_of(js, expected_type, json) is Ok,
        js is Number && (expected_type is Int32 || expected_type is Int64
            || expected_type is Float64 || expected_type is DateTime) ==> value_of(
            js,
            expected_type,
            json,
        ) is Ok,
        js is BigInt && expected_type is Int64 ==> (value_of(js, expected_type, json) is Ok
            <==> integer_of(js->BigInt_0@) is Some),
        js is Text && expected_type is String ==> value_of(js, expected_type, json) is Ok,
        js is Object && js->Object_0.kind is Date && expected_type is DateTime ==> value_of(
            js,
            expected_type,
            json,
        ) is Ok,
        js is Object && expected_type is Bytes ==> value_of(js, expected_type, json) is Ok,
        expected_type is Jsonb && json is Some ==> value_of(js, expected_type, json) is Ok,
{
}

/// The type that a script value has by itself takes the value: a boolean, text, date, byte array and
/// object always, a number always, and a big integer if it is in range.
pub proof fn law_inferred_types_take_the_value(js: JsInput, json: Seq<char>)
    ensures
        inferred(js) is None <==> js is Null || js is Undefined || js is Other,
        inferred(js) matches Some(data_type) ==> {
            &&& value_of(js, data_type, Some(json)) is Ok <==> (js is BigInt ==> integer_of(
                js->BigInt_0@,
            ) is Some)
            &&& js is Number && data_type is Int32 <==> js is Number && js->Number_0.whole
                && js->Number_0.fits_int32
            &&& js is Number ==> data_type is Int32 || data_type is Float64
            &&& js is Object && js->Object_0.kind is Bytes <==> data_type is Bytes
            &&& js is Object && js->Object_0.kind is Date <==> data_type is DateTime
        },
{
}

/// Texts of integers are decimal: one digit is its number, a further digit makes ten times the
/// number and the digit, a minus turns the number round, and a plus leaves it.
pub proof fn law_integer_texts_are_decimal(digits: Seq<char>, digit: char)
    requires
        all_digits(digits),
        '0' <= digit <= '9',
    ensures
        integer_of(seq![digit]) == Some((digit as int - '0' as int) as i64),
        digits.len() > 0 ==> (integer_of(digits.push(digit)) matches Some(number) ==> integer_of(
            digits,
        ) is Some && number == 10 * integer_of(digits)->0 + (digit as int - '0' as int)),
        digits.len() > 0 ==> (integer_of(digits) matches Some(number) ==> integer_of(
            seq!['-'] + digits,
        ) == Some((-number) as i64) && integer_of(seq!['+'] + digits) == Some(number)),
        integer_of(Seq::empty()) is None,
        integer_of(seq!['-']) is None,
        integer_of(seq!['+']) is None,
{
    let one = seq![digit];
    assert(one.drop_last() =~= Seq::empty());
    assert(digits_value(one) == digits_value(one.drop_last()) * 10 + (digit as int - '0' as int));
    assert(one[0] == digit);
    assert(all_digits(one));
    lemma_digits_positive(digits);
    if digits.len() > 0 {
        assert('0' <= digits[0] <= '9');
        let longer = digits.push(digit);
        assert(longer.drop_last() =~= digits);
        assert(longer[0] == digits[0]);
        assert(all_digits(longer)) by {
            assert forall|i: int| 0 <= i < longer.len() implies '0' <= #[trigger] longer[i] <= '9' by {
                if i < digits.len() {
                    assert(longer[i] == digits[i]);
                }
            }
        }
        assert((seq!['-'] + digits).skip(1) =~= digits);
        assert((seq!['+'] + digits).skip(1) =~= digits);
        assert((seq!['-'] + digits)[0] == '-');
        assert((seq!['+'] + digits)[0] == '+');
    }
    assert(seq!['-'].skip(1) =~= Seq::<char>::empty());
    assert(seq!['+'].skip(1) =~= Seq::<char>::empty());
}

proof fn lemma_digits_positive(text: Seq<char>)
    requires
        all_digits(text),
    ensures
        digits_value(text) >= 0,
    decreases text.len(),
{
    if text.len() > 0 {
        assert('0' <= text[text.len() - 1] <= '9');
        assert forall|i: int| 0 <= i < text.drop_last().len() implies '0'
            <= #[trigger] text.drop_last()[i] <= '9' by {
            assert(text.drop_last()[i] == text[i]);
        }
        lemma_digits_positive(text.drop_last());
    }
}

/// A property can be given to a column: it is there, it is no null for a column that takes none, and
/// it can be converted.
pub open spec fn property_fits(property: Option<JsProperty>, column: Column) -> bool {
    &&& property is Some
    &&& property->0.value is Null || property->0.value is Undefined ==> column.nullable
    &&& value_of(property->0.value, column.data_type, optional_text(property->0.json)) is Ok
}

proof fn lemma_property_values(properties: Seq<Option<JsProperty>>, columns: Seq<Column>)
    requires
        properties.len() == columns.len(),
    ensures
        property_values(properties, columns) is Ok <==> (forall|i: int|
            0 <= i < columns.len() ==> property_fits(#[trigger] properties[i], columns[i])),
        property_values(properties, columns) matches Ok(values) ==> values.len() == columns.len()
            && (forall|i: int|
            0 <= i < columns.len() ==> value_of(
                (#[trigger] properties[i])->0.value,
                columns[i].data_type,
                optional_text(properties[i]->0.json),
            ) == Ok::<ValueView, ErrorView>(values[i])),
    decreases columns.len(),
{
    if columns.len() > 0 {
        let front = properties.drop_last();
        let names = columns.drop_last();
        let last = columns.len() - 1;
        lemma_property_values(front, names);
        assert(forall|i: int| 0 <= i < last ==> front[i] == properties[i] && names[i] == columns[i]);
        assert(properties[last] == properties.last() && columns[last] == columns.last());
        if property_values(properties, columns) is Ok {
            assert forall|i: int| 0 <= i < columns.len() implies property_fits(
                #[trigger] properties[i],
                columns[i],
            ) by {
                if i < last {
                    assert(property_fits(front[i], names[i]));
                }
            }
        }
        if forall|i: int|
            0 <= i < columns.len() ==> property_fits(#[trigger] properties[i], columns[i]) {
            assert forall|i: int| 0 <= i < last implies property_fits(
                #[trigger] front[i],
                names[i],
            ) by {
                assert(property_fits(properties[i], columns[i]));
            }
        }
    }
}

/// Script objects become rows in their order, numbered on from the start. Each is of the first
/// version and has for each column, in the order of the columns, the converted value of the property
/// of that column.
pub proof fn law_rows_take_their_properties(
    items: Seq<Option<Vec<Option<JsProperty>>>>,
    columns: Seq<Column>,
    start_row_id: u64,
    at: int,
)
    requires
        forall|i: int|
            0 <= i < items.len() ==> ((#[trigger] items[i]) is Some ==> items[i]->0@.len()
                == columns.len()),
        start_row_id + items.len() <= u64::MAX,
        0 <= at < items.len(),
    ensures
        rows_of(items, columns, start_row_id) matches Ok(rows) ==> {
            &&& rows.len() == items.len()
            &&& rows[at].id == start_row_id + at
            &&& rows[at].version == 1
            &&& items[at] is Some
            &&& rows[at].values.len() == columns.len()
            &&& forall|i: int|
                0 <= i < columns.len() ==> property_fits(#[trigger] items[at]->0@[i], columns[i])
                    && value_of(
                    items[at]->0@[i]->0.value,
                    columns[i].data_type,
                    optional_text(items[at]->0@[i]->0.json),
                ) == Ok::<ValueView, ErrorView>(rows[at].values[i])
        },
    decreases items.len(),
{
    let front = items.drop_last();
    let last = items.len() - 1;
    assert(forall|i: int| 0 <= i < last ==> front[i] == items[i]);
    lemma_rows_len(front, columns, start_row_id);
    if at < last {
        law_rows_take_their_properties(front, columns, start_row_id, at);
    } else if items[at] is Some {
        lemma_property_values(items[at]->0@, columns);
    }
}

proof fn lemma_rows_len(
    items: Seq<Option<Vec<Option<JsProperty>>>>,
    columns: Seq<Column>,
    start_row_id: u64,
)
    ensures
        rows_of(items, columns, start_row_id) matches Ok(rows) ==> rows.len() == items.len(),
    decreases items.len(),
{
    if items.len() > 0 {
        lemma_rows_len(items.drop_last(), columns, start_row_id);
    }
}

/// Script values become rows if each of them is an object whose properties can be given to the
/// columns.
pub proof fn law_fitting_objects_become_rows(
    items: Seq<Option<Vec<Option<JsProperty>>>>,
    columns: Seq<Column>,
    start_row_id: u64,
)
    requires
        forall|i: int|
            0 <= i < items.len() ==> (#[trigger] items[i]) is Some && items[i]->0@.len()
                == columns.len() && forall|c: int|
                0 <= c < columns.len() ==> property_fits(#[trigger] items[i]->0@[c], columns[c]),
    ensures
        rows_of(items, columns, start_row_id) is Ok,
    decreases items.len(),
{
    if items.len() > 0 {
        let front = items.drop_last();
        let last = items.len() - 1;
        assert(forall|i: int| 0 <= i < last ==> front[i] == items[i]);
        law_fitting_objects_become_rows(front, columns, start_row_id);
        assert(items[last] == items.last());
        lemma_property_values(items[last]->0@, columns);
    }
}

/// A property that is missing, or that is null for a column that takes none, is refused by name; one
/// that is null for another column is null.
pub proof fn law_missing_properties_are_refused(property: Option<JsProperty>, column: Column)
    ensures
        property is None <==> property_value(property, column) == Err::<ValueView, ErrorView>(
            ErrorView::MissingColumn(column.name@),
        ),
        property_value(property, column) == Err::<ValueView, ErrorView>(
            ErrorView::NotNullable(column.name@),
        ) <==> property is Some && (property->0.value is Null || property->0.value is Undefined)
            && !column.nullable,
        property_value(property, column) is Ok <==> property_fits(property, column),
        property_value(property, column) == Ok::<ValueView, ErrorView>(ValueView::Null)
            <==> property is Some && (property->0.value is Null || property->0.value is Undefined)
            && column.nullable,
{
}

/// A script array becomes a list of its items in order, and an object becomes its fields in order,
/// each under its name.
pub proof fn law_inputs_keep_their_structure(
    items: Seq<JsInput>,
    fields: Seq<(String, JsInput)>,
    at: int,
)
    ensures
        inputs_of(items) matches Ok(values) ==> {
            &&& values.len() == items.len()
            &&& 0 <= at < items.len() ==> input_of(items[at]) == Ok::<InputView, ErrorView>(
                values[at],
            )
        },
        fields_of(fields) matches Ok(values) ==> {
            &&& values.len() == fields.len()
            &&& 0 <= at < fields.len() ==> values[at].0 == fields[at].0@ && input_of(fields[at].1)
                == Ok::<InputView, ErrorView>(values[at].1)
        },
    decreases items.len() + fields.len(),
{
    if items.len() > 0 {
        law_inputs_keep_their_structure(items.drop_last(), fields, at);
        if 0 <= at < items.len() - 1 {
            assert(items.drop_last()[at] == items[at]);
        }
    } else if fields.len() > 0 {
        law_inputs_keep_their_structure(items, fields.drop_last(), at);
        if 0 <= at < fields.len() - 1 {
            assert(fields.drop_last()[at] == fields[at]);
        }
    }
}

/// An input value holds what the script value holds: null for null, a truth, the integer of a whole
/// number, of a big integer and of a date, the bits of another number, a text, the integers of an
/// array of bytes, and the items or fields of what has them.
pub proof fn law_inputs_take_values_over(js: JsInput, at: int)
    ensures
        input_of(js) matches Ok(input) ==> {
            &&& input is Null <==> js is Null || js is Undefined
            &&& input matches InputView::Boolean(truth) ==> js == JsInput::Boolean(truth)
            &&& input matches InputView::Int(number) ==> {
                ||| js is Number && js->Number_0.whole && js->Number_0.int64 == number
                ||| js is BigInt && integer_of(js->BigInt_0@) == Some(number)
                ||| js is Object && js->Object_0.kind == JsObjectKind::Date(number)
            }
            &&& input matches InputView::Float(bits) ==> js is Number && !js->Number_0.whole
                && js->Number_0.bits == bits
            &&& input matches InputView::String(text) ==> js is Text && js->Text_0@ == text
            &&& js is Object && js->Object_0.kind is Bytes ==> {
                &&& input is List
                &&& input->List_0.len() == js->Object_0.bytes@.len()
                &&& 0 <= at < js->Object_0.bytes@.len() ==> input->List_0[at] == InputView::Int(
                    js->Object_0.bytes@[at] as i64,
                )
            }
            &&& js is Object && js->Object_0.kind is List ==> {
                let items = js->Object_0.kind->List_0@;
                &&& input is List
                &&& input->List_0.len() == items.len()
                &&& 0 <= at < items.len() ==> input_of(items[at]) == Ok::<InputView, ErrorView>(
                    input->List_0[at],
                )
            }
            &&& js is Object && js->Object_0.kind is Plain ==> {
                let fields = js->Object_0.fields@;
                &&& input is Object
                &&& input->Object_0.len() == fields.len()
                &&& 0 <= at < fields.len() ==> input->Object_0[at].0 == fields[at].0@ && input_of(
                    fields[at].1,
                ) == Ok::<InputView, ErrorView>(input->Object_0[at].1)
            }
        },
        input_of(js) is Err && !(js is Object) ==> js is Other || (js is BigInt && integer_of(
            js->BigInt_0@,
        ) is None),
{
    if let JsInput::Object(object) = js {
        match object.kind {
            JsObjectKind::List(items) => {
                law_inputs_keep_their_structure(items@, Seq::empty(), at);
            },
            JsObjectKind::Plain => {
                law_inputs_keep_their_structure(Seq::empty(), object.fields@, at);
            },
            _ => {},
        }
    }
}

/// Of the variables of a query each has the value of the last field of its name, and there are none
/// but the fields.
pub proof fn law_last_variable_of_a_name_counts(
    fields: Seq<(Seq<char>, InputView)>,
    at: int,
    name: Seq<char>,
)
    ensures
        0 <= at < fields.len() && fields[at].0 == name && (forall|later: int|
            at < later < fields.len() ==> (#[trigger] fields[later]).0 != name) ==> named_inputs(
            fields,
        ).dom().contains(name) && named_inputs(fields)[name] == fields[at].1,
        (forall|i: int| 0 <= i < fields.len() ==> (#[trigger] fields[i]).0 != name)
            ==> !named_inputs(fields).dom().contains(name),
    decreases fields.len(),
{
    if fields.len() > 0 {
        let front = fields.drop_last();
        let last = fields.len() - 1;
        assert(forall|i: int| 0 <= i < last ==> front[i] == fields[i]);
        law_last_variable_of_a_name_counts(front, at, name);
        assert(fields[last] == fields.last());
    }
}

} // verus!
