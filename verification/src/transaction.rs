//! Transactions: which rows an operation looks at, the rows that it writes, and the changes that
//! live queries hear of.
use vstd::prelude::*;

use crate::affected_roots::sets_view;
use crate::collections::RowIdSet;
use crate::js_convert::{
    convertible, fits, js_array_to_rows, js_to_value, optional_text, rows_of, value_of,
    ConvertError, ErrorView, JsInput, JsProperty,
};
use crate::live_registry::{
    delta_tables_view, row_deltas_view, DeltaView, LiveRegistry, LiveView, RowDelta,
};
use crate::root_subset::clone_rows;
use crate::row::{rows_view, Row, RowView};
use crate::schema::{column_names, IndexDef, IndexType, Table, TableId};
use crate::tables::IdTable;
use crate::text::{chars_of, lemma_first_position, same_text, string_of};
use crate::value::{clone_values, values_view, Value, ValueView};

verus! {

/// The condition of an operation, as far as it tells which rows to look up.
#[derive(Debug)]
pub enum RowFilter {
    And { left: Box<RowFilter>, right: Box<RowFilter> },
    Equals { table: Option<String>, column: String, value: JsProperty },
    Other,
}

/// The values of columns, by position.
pub open spec fn column_values_view(values: Map<u64, Value>) -> Map<u64, ValueView> {
    values.map_values(|value: Value| value@)
}

/// The values that a condition fixes columns to, together with those that were found before. There
/// are none if the condition is more than equalities of columns of the table with plain values
/// that agree with each other.
pub open spec fn fixed_values(
    schema: Table,
    filter: RowFilter,
    found: Map<u64, ValueView>,
) -> Result<Option<Map<u64, ValueView>>, ErrorView>
    decreases filter,
{
    match filter {
        RowFilter::And { left, right } => match fixed_values(schema, *left, found) {
            Ok(Some(found)) => fixed_values(schema, *right, found),
            other => other,
        },
        RowFilter::Equals { table, column, value } => if value.value is Object {
            Ok(None)
        } else if table is Some && table->0@ != schema.name@ {
            Ok(None)
        } else {
            match schema.column_position(column@) {
                None => Ok(None),
                Some(at) => match value_of(
                    value.value,
                    schema.columns@[at].data_type,
                    optional_text(value.json),
                ) {
                    Err(error) => Err(error),
                    Ok(literal) => if !found.dom().contains(at as u64) {
                        Ok(Some(found.insert(at as u64, literal)))
                    } else if found[at as u64] == literal {
                        Ok(Some(found))
                    } else {
                        Ok(None)
                    },
                },
            }
        },
        RowFilter::Other => Ok(None),
    }
}

/// Collects the values that a condition fixes columns to, and tells whether it is nothing but
/// such equalities.
pub fn collect_point_equalities(
    schema: &Table,
    filter: &RowFilter,
    equalities: &mut IdTable<Value>,
) -> (result: Result<bool, ConvertError>)
    ensures
        match fixed_values(*schema, *filter, column_values_view(old(equalities)@)) {
            Ok(Some(values)) => result matches Ok(complete) && complete && column_values_view(
                final(equalities)@,
            ) == values,
            Ok(None) => result matches Ok(complete) && !complete,
            Err(error) => result matches Err(reason) && reason@ == error,
        },
    decreases filter,
{
    match filter {
        RowFilter::And { left, right } => {
            match collect_point_equalities(schema, left, equalities) {
                Ok(true) => collect_point_equalities(schema, right, equalities),
                other => other,
            }
        },
        RowFilter::Equals { table, column, value } => {
            if matches!(value.value, JsInput::Object(_)) {
                return Ok(false);
            }
            match table {
                Some(table) => if !same_text(table.as_str(), schema.name.as_str()) {
                    return Ok(false);
                },
                None => {},
            }
            match schema.get_column_index(column.as_str()) {
                None => Ok(false),
                Some(at) => {
                    match js_to_value(&value.value, schema.columns[at].data_type, &value.json) {
                        Err(error) => Err(error),
                        Ok(literal) => {
                            let known = match equalities.get(at as u64) {
                                Some(existing) => Some(*existing == literal),
                                None => None,
                            };
                            match known {
                                Some(same) => Ok(same),
                                None => {
                                    let ghost before = column_values_view(equalities@);
                                    let ghost added = literal@;
                                    equalities.insert(at as u64, literal);
                                    assert(column_values_view(equalities@) =~= before.insert(
                                        at as u64,
                                        added,
                                    ));
                                    Ok(true)
                                },
                            }
                        },
                    }
                },
            }
        },
        RowFilter::Other => Ok(false),
    }
}

/// An index on just one column, which finds rows by a value.
pub open spec fn serves(schema: Table, index: IndexDef, column: int) -> bool {
    &&& !(index.index_type is Gin)
    &&& index.columns@.len() == 1
    &&& schema.column_position(index.columns@[0]@) == Some(column)
}

/// The first of the given indexes that serves a column.
pub open spec fn serving_index(schema: Table, indices: Seq<IndexDef>, column: int) -> Option<
    Seq<char>,
>
    decreases indices.len(),
{
    if indices.len() == 0 {
        None
    } else if serves(schema, indices[0], column) {
        Some(indices[0].name@)
    } else {
        serving_index(schema, indices.skip(1), column)
    }
}

/// Finds an index on just one column.
pub fn find_single_column_index(schema: &Table, column: usize) -> (name: Option<String>)
    ensures
        optional_text(name) == serving_index(*schema, schema.indices@, column as int),
{
    let mut i: usize = 0;
    assert(schema.indices@.skip(0) =~= schema.indices@);
    while i < schema.indices.len()
        invariant
            i <= schema.indices.len(),
            serving_index(*schema, schema.indices@, column as int) == serving_index(
                *schema,
                schema.indices@.skip(i as int),
                column as int,
            ),
        decreases schema.indices.len() - i,
    {
        let index = &schema.indices[i];
        assert(schema.indices@.skip(i as int)[0] == schema.indices@[i as int]);
        assert(schema.indices@.skip(i as int).skip(1) =~= schema.indices@.skip(i + 1));
        if index.index_type != IndexType::Gin && index.columns.len() == 1 {
            match schema.get_column_index(index.columns[0].as_str()) {
                Some(at) => {
                    if at == column {
                        return Some(index.name.clone());
                    }
                },
                None => {},
            }
        }
        i += 1;
    }
    None
}

/// How an operation finds the rows that it looks at.
#[derive(Debug)]
pub enum RowLookup {
    /// All rows of the table.
    All,
    /// The rows with the values of the primary key.
    PrimaryKey(Vec<Value>),
    /// The rows that an index finds by a value.
    Index { name: String, value: Value },
}

/// How an operation finds the rows that it looks at.
pub enum LookupView {
    All,
    PrimaryKey(Seq<ValueView>),
    Index { name: Seq<char>, value: ValueView },
}

impl View for RowLookup {
    type V = LookupView;

    open spec fn view(&self) -> LookupView {
        match self {
            RowLookup::All => LookupView::All,
            RowLookup::PrimaryKey(values) => LookupView::PrimaryKey(values_view(values@)),
            RowLookup::Index { name, value } => LookupView::Index { name: name@, value: value@ },
        }
    }
}

/// All columns of the primary key are fixed.
pub open spec fn fixes_key(key_columns: Seq<usize>, values: Map<u64, ValueView>) -> bool {
    key_columns.len() > 0 && forall|i: int|
        0 <= i < key_columns.len() ==> values.dom().contains(#[trigger] key_columns[i] as u64)
}

/// The values of the columns of the primary key.
pub open spec fn key_values(key_columns: Seq<usize>, values: Map<u64, ValueView>) -> Seq<
    ValueView,
> {
    key_columns.map_values(|column: usize| values[column as u64])
}

/// The lookup for fixed values of columns: by the primary key if it is fixed, else by an index if
/// just one column is fixed and has one.
pub open spec fn lookup_for(
    schema: Table,
    key_columns: Seq<usize>,
    values: Map<u64, ValueView>,
) -> LookupView {
    if fixes_key(key_columns, values) {
        LookupView::PrimaryKey(key_values(key_columns, values))
    } else if values.dom().len() != 1 {
        LookupView::All
    } else {
        let column = values.dom().choose();
        match serving_index(schema, schema.indices@, column as int) {
            Some(name) => LookupView::Index { name, value: values[column] },
            None => LookupView::All,
        }
    }
}

/// The lookup for a condition.
pub open spec fn filter_lookup(
    schema: Table,
    key_columns: Seq<usize>,
    filter: Option<RowFilter>,
) -> Result<LookupView, ErrorView> {
    match filter {
        None => Ok(LookupView::All),
        Some(filter) => match fixed_values(schema, filter, Map::empty()) {
            Err(error) => Err(error),
            Ok(None) => Ok(LookupView::All),
            Ok(Some(values)) => Ok(lookup_for(schema, key_columns, values)),
        },
    }
}

fn lookup_rows(schema: &Table, key_columns: &[usize], equalities: &IdTable<Value>) -> (result:
    RowLookup)
    requires
        forall|column: u64| #[trigger]
            equalities@.dom().contains(column) ==> column <= usize::MAX,
    ensures
        result@ == lookup_for(*schema, key_columns@, column_values_view(equalities@)),
{
    let ghost values = column_values_view(equalities@);
    let count = equalities.len();
    let ghost order = equalities.order();
    proof {
        order.unique_seq_to_set();
        assert(values.dom() =~= equalities@.dom());
    }
    let mut key: Vec<Value> = Vec::new();
    let mut i: usize = 0;
    let mut complete = key_columns.len() > 0;
    while i < key_columns.len() && complete
        invariant
            i <= key_columns.len(),
            complete ==> key.len() == i && key_columns.len() > 0,
            !complete ==> !fixes_key(key_columns@, values),
            values == column_values_view(equalities@),
            complete ==> forall|j: int|
                0 <= j < i ==> values.dom().contains(#[trigger] key_columns@[j] as u64)
                    && key@[j]@ == values[key_columns@[j] as u64],
        decreases key_columns.len() - i, (if complete { 1int } else { 0int }),
    {
        match equalities.get(key_columns[i] as u64) {
            Some(value) => {
                key.push(value.clone());
                i += 1;
            },
            None => {
                complete = false;
                assert(!values.dom().contains(key_columns@[i as int] as u64));
            },
        }
    }
    if complete {
        assert(fixes_key(key_columns@, values));
        assert(values_view(key@) =~= key_values(key_columns@, values));
        return RowLookup::PrimaryKey(key);
    }
    if count != 1 {
        return RowLookup::All;
    }
    let column = *equalities.key_at(0);
    proof {
        assert(order.to_set().contains(order[0]));
        let only = values.dom().choose();
        assert(values.dom().contains(column));
        assert(values.dom().contains(only));
        assert(order.to_set().contains(only));
        assert(only == column);
    }
    match find_single_column_index(schema, column as usize) {
        Some(name) => RowLookup::Index { name, value: equalities.value_at(0).clone() },
        None => RowLookup::All,
    }
}

proof fn lemma_fixed_columns_exist(schema: Table, filter: RowFilter, found: Map<u64, ValueView>)
    requires
        forall|column: u64| #[trigger] found.dom().contains(column) ==> column <= usize::MAX,
        schema.columns@.len() <= usize::MAX,
    ensures
        fixed_values(schema, filter, found) matches Ok(Some(values)) ==> forall|column: u64|
            #[trigger] values.dom().contains(column) ==> column <= usize::MAX,
    decreases filter,
{
    match filter {
        RowFilter::And { left, right } => {
            lemma_fixed_columns_exist(schema, *left, found);
            if let Ok(Some(middle)) = fixed_values(schema, *left, found) {
                lemma_fixed_columns_exist(schema, *right, middle);
            }
        },
        RowFilter::Equals { column, .. } => {
            crate::text::lemma_first_position(
                crate::schema::column_names(schema.columns@),
                column@,
            );
        },
        RowFilter::Other => {},
    }
}

/// Tells how to find the rows that a condition is about. `key_columns` are the columns of the
/// primary key.
pub fn lookup_rows_for_predicate(
    schema: &Table,
    key_columns: &[usize],
    filter: Option<&RowFilter>,
) -> (result: Result<RowLookup, ConvertError>)
    ensures
        match filter_lookup(
            *schema,
            key_columns@,
            match filter {
                Some(filter) => Some(*filter),
                None => None,
            },
        ) {
            Ok(lookup) => result matches Ok(found) && found@ == lookup,
            Err(error) => result matches Err(reason) && reason@ == error,
        },
{
    let filter = match filter {
        Some(filter) => filter,
        None => {
            return Ok(RowLookup::All);
        },
    };
    let mut equalities: IdTable<Value> = IdTable::new();
    assert(column_values_view(equalities@) =~= Map::empty());
    match collect_point_equalities(schema, filter, &mut equalities) {
        Err(error) => Err(error),
        Ok(false) => Ok(RowLookup::All),
        Ok(true) => {
            let columns = schema.columns.len();
            proof {
                lemma_fixed_columns_exist(*schema, *filter, Map::empty());
                assert(column_values_view(equalities@).dom() =~= equalities@.dom());
            }
            Ok(lookup_rows(schema, key_columns, &equalities))
        },
    }
}

/// The rows on which a condition holds, in order. `holds` tells for each row whether it does.
pub open spec fn rows_kept(rows: Seq<RowView>, holds: Seq<bool>) -> Seq<RowView>
    decreases rows.len(),
{
    if rows.len() == 0 {
        Seq::empty()
    } else {
        let before = rows_kept(rows.drop_last(), holds.drop_last());
        if holds.last() {
            before.push(rows.last())
        } else {
            before
        }
    }
}

/// The rows that an operation is about, among the rows that its lookup found: those on which the
/// condition holds, or all of them without a condition.
pub fn collect_candidate_rows(rows: &[Row], holds: Option<&[bool]>) -> (result: Vec<Row>)
    requires
        holds is Some ==> holds->0@.len() == rows@.len(),
    ensures
        rows_view(result@) == match holds {
            Some(holds) => rows_kept(rows_view(rows@), holds@),
            None => rows_view(rows@),
        },
{
    let holds = match holds {
        Some(holds) => holds,
        None => {
            return clone_rows(rows);
        },
    };
    let ghost views = rows_view(rows@);
    let mut result: Vec<Row> = Vec::new();
    let mut i: usize = 0;
    assert(rows_view(result@) =~= rows_kept(views.take(0), holds@.take(0)));
    while i < rows.len()
        invariant
            i <= rows.len(),
            holds.len() == rows.len(),
            views == rows_view(rows@),
            rows_view(result@) == rows_kept(views.take(i as int), holds@.take(i as int)),
        decreases rows.len() - i,
    {
        assert(views.take(i + 1).drop_last() =~= views.take(i as int));
        assert(views.take(i + 1).last() == rows@[i as int]@);
        assert(holds@.take(i + 1).drop_last() =~= holds@.take(i as int));
        assert(holds@.take(i + 1).last() == holds@[i as int]);
        if holds[i] {
            let ghost before = rows_view(result@);
            result.push(rows[i].clone());
            assert(rows_view(result@) =~= before.push(rows@[i as int]@));
        }
        i += 1;
    }
    assert(views.take(views.len() as int) =~= views);
    assert(holds@.take(holds@.len() as int) =~= holds@);
    result
}

/// The values of a row after an update, or the first error. Names that are no columns of the table
/// are passed over.
pub open spec fn updated_values(
    values: Seq<ValueView>,
    schema: Table,
    updates: Seq<(String, JsProperty)>,
) -> Result<Seq<ValueView>, ErrorView>
    decreases updates.len(),
{
    if updates.len() == 0 {
        Ok(values)
    } else {
        let (name, property) = updates.last();
        match updated_values(values, schema, updates.drop_last()) {
            Err(error) => Err(error),
            Ok(values) => match schema.column_position(name@) {
                None => Ok(values),
                Some(at) => match value_of(
                    property.value,
                    schema.columns@[at].data_type,
                    optional_text(property.json),
                ) {
                    Err(error) => Err(error),
                    Ok(value) => Ok(
                        if at < values.len() {
                            values.update(at, value)
                        } else {
                            values
                        },
                    ),
                },
            },
        }
    }
}

/// A row after an update: of the next version.
pub open spec fn updated_row(row: RowView, schema: Table, updates: Seq<(String, JsProperty)>) -> Result<
    RowView,
    ErrorView,
> {
    match updated_values(row.values, schema, updates) {
        Ok(values) => Ok(RowView { id: row.id, version: row.version.wrapping_add(1), values }),
        Err(error) => Err(error),
    }
}

/// The updates give the columns of a table values of their types.
pub open spec fn updates_fit(schema: Table, updates: Seq<(String, JsProperty)>) -> bool {
    forall|i: int|
        0 <= i < updates.len() ==> (schema.column_position((#[trigger] updates[i]).0@) matches Some(
            at,
        ) ==> convertible(updates[i].1.value, schema.columns@[at].data_type))
}

proof fn lemma_updates_stop(
    values: Seq<ValueView>,
    schema: Table,
    updates: Seq<(String, JsProperty)>,
    k: int,
)
    requires
        0 <= k <= updates.len(),
        updated_values(values, schema, updates.take(k)) is Err,
    ensures
        updated_values(values, schema, updates) == updated_values(
            values,
            schema,
            updates.take(k),
        ),
    decreases updates.len(),
{
    if k == updates.len() {
        assert(updates.take(k) =~= updates);
    } else {
        assert(updates.drop_last().take(k) =~= updates.take(k));
        lemma_updates_stop(values, schema, updates.drop_last(), k);
    }
}

/// Updates a row.
pub fn update_row(row: &Row, schema: &Table, updates: &[(String, JsProperty)]) -> (result: Result<
    Row,
    ConvertError,
>)
    requires
        updates_fit(*schema, updates@),
    ensures
        match updated_row(row@, *schema, updates@) {
            Ok(updated) => result matches Ok(row) && row@ == updated,
            Err(error) => result matches Err(reason) && reason@ == error,
        },
{
    let mut values = clone_values(row.values());
    let mut i: usize = 0;
    assert(updates@.take(0) =~= Seq::empty());
    while i < updates.len()
        invariant
            i <= updates.len(),
            updates_fit(*schema, updates@),
            updated_values(row@.values, *schema, updates@.take(i as int)) == Ok::<_, ErrorView>(
                values_view(values@),
            ),
        decreases updates.len() - i,
    {
        let ghost before = values_view(values@);
        assert(updates@.take(i + 1).drop_last() =~= updates@.take(i as int));
        assert(updates@.take(i + 1).last() == updates@[i as int]);
        match schema.get_column_index(updates[i].0.as_str()) {
            None => {},
            Some(at) => {
                match js_to_value(
                    &updates[i].1.value,
                    schema.columns[at].data_type,
                    &updates[i].1.json,
                ) {
                    Err(error) => {
                        proof {
                            lemma_updates_stop(row@.values, *schema, updates@, i + 1);
                        }
                        return Err(error);
                    },
                    Ok(value) => {
                        if at < values.len() {
                            let ghost given = value@;
                            values.set(at, value);
                            assert(values_view(values@) =~= before.update(at as int, given));
                        }
                    },
                }
            },
        }
        i += 1;
    }
    assert(updates@.take(updates@.len() as int) =~= updates@);
    Ok(Row::new_with_version(row.id(), row.version().wrapping_add(1), values))
}

/// Rows after an update, or the first error.
pub open spec fn rows_updated(
    rows: Seq<RowView>,
    schema: Table,
    updates: Seq<(String, JsProperty)>,
) -> Result<Seq<RowView>, ErrorView>
    decreases rows.len(),
{
    if rows.len() == 0 {
        Ok(Seq::empty())
    } else {
        match rows_updated(rows.drop_last(), schema, updates) {
            Err(error) => Err(error),
            Ok(front) => match updated_row(rows.last(), schema, updates) {
                Err(error) => Err(error),
                Ok(row) => Ok(front.push(row)),
            },
        }
    }
}

proof fn lemma_rows_updated_stop(
    rows: Seq<RowView>,
    schema: Table,
    updates: Seq<(String, JsProperty)>,
    k: int,
)
    requires
        0 <= k <= rows.len(),
        rows_updated(rows.take(k), schema, updates) is Err,
    ensures
        rows_updated(rows, schema, updates) == rows_updated(rows.take(k), schema, updates),
    decreases rows.len(),
{
    if k == rows.len() {
        assert(rows.take(k) =~= rows);
    } else {
        assert(rows.drop_last().take(k) =~= rows.take(k));
        lemma_rows_updated_stop(rows.drop_last(), schema, updates, k);
    }
}

/// Updates rows.
pub fn update_rows(rows: &[Row], schema: &Table, updates: &[(String, JsProperty)]) -> (result:
    Result<Vec<Row>, ConvertError>)
    requires
        updates_fit(*schema, updates@),
    ensures
        match rows_updated(rows_view(rows@), *schema, updates@) {
            Ok(updated) => result matches Ok(rows) && rows_view(rows@) == updated,
            Err(error) => result matches Err(reason) && reason@ == error,
        },
{
    let ghost views = rows_view(rows@);
    let mut result: Vec<Row> = Vec::new();
    let mut i: usize = 0;
    assert(views.take(0) =~= Seq::empty());
    assert(rows_view(result@) =~= Seq::empty());
    while i < rows.len()
        invariant
            i <= rows.len(),
            views == rows_view(rows@),
            updates_fit(*schema, updates@),
            rows_updated(views.take(i as int), *schema, updates@) == Ok::<_, ErrorView>(
                rows_view(result@),
            ),
        decreases rows.len() - i,
    {
        assert(views.take(i + 1).drop_last() =~= views.take(i as int));
        assert(views.take(i + 1).last() == rows@[i as int]@);
        let ghost before = rows_view(result@);
        match update_row(&rows[i], schema, updates) {
            Err(error) => {
                proof {
                    lemma_rows_updated_stop(views, *schema, updates@, i + 1);
                }
                return Err(error);
            },
            Ok(row) => {
                let ghost added = row@;
                result.push(row);
                assert(rows_view(result@) =~= before.push(added));
            },
        }
        i += 1;
    }
    assert(views.take(views.len() as int) =~= views);
    Ok(result)
}

/// Why an operation of a transaction fails.
#[derive(Debug)]
pub enum TransactionError {
    Completed,
    TableNotFound(String),
    NotAnObject,
    Convert(ConvertError),
    Storage(String),
}

/// Why an operation of a transaction fails.
pub enum TransactionErrorView {
    Completed,
    TableNotFound(Seq<char>),
    NotAnObject,
    Convert(ErrorView),
    Storage(Seq<char>),
}

impl View for TransactionError {
    type V = TransactionErrorView;

    open spec fn view(&self) -> TransactionErrorView {
        match self {
            TransactionError::Completed => TransactionErrorView::Completed,
            TransactionError::TableNotFound(name) => TransactionErrorView::TableNotFound(name@),
            TransactionError::NotAnObject => TransactionErrorView::NotAnObject,
            TransactionError::Convert(error) => TransactionErrorView::Convert(error@),
            TransactionError::Storage(text) => TransactionErrorView::Storage(text@),
        }
    }
}

impl TransactionErrorView {
    /// The text of the error.
    pub open spec fn text(self) -> Seq<char> {
        match self {
            TransactionErrorView::Completed => "Transaction already completed"@,
            TransactionErrorView::TableNotFound(name) => "Table not found: "@ + name,
            TransactionErrorView::NotAnObject => "set_values must be an object"@,
            TransactionErrorView::Convert(error) => error.text(),
            TransactionErrorView::Storage(text) => text,
        }
    }
}

impl TransactionError {
    /// The text of the error.
    pub fn message(&self) -> (text: String)
        ensures
            text@ == self@.text(),
    {
        match self {
            TransactionError::Completed => "Transaction already completed".to_owned(),
            TransactionError::TableNotFound(name) => {
                let mut chars = chars_of("Table not found: ");
                let mut rest = chars_of(name.as_str());
                chars.append(&mut rest);
                string_of(chars.as_slice())
            },
            TransactionError::NotAnObject => "set_values must be an object".to_owned(),
            TransactionError::Convert(error) => error.message(),
            TransactionError::Storage(text) => text.clone(),
        }
    }
}

/// The changes of a transaction that live queries have not heard of.
#[verifier::ext_equal]
pub struct TransactionView {
    pub active: bool,
    pub changes: Map<u64, Set<u64>>,
    pub deltas: Map<u64, Seq<DeltaView>>,
}

/// The changed rows of a table.
pub open spec fn changed_rows(changes: Map<u64, Set<u64>>, table: u64) -> Set<u64> {
    if changes.dom().contains(table) {
        changes[table]
    } else {
        Set::empty()
    }
}

/// The added and dropped rows of a table.
pub open spec fn delta_rows(deltas: Map<u64, Seq<DeltaView>>, table: u64) -> Seq<DeltaView> {
    if deltas.dom().contains(table) {
        deltas[table]
    } else {
        Seq::empty()
    }
}

impl TransactionView {
    /// The transaction has noted changes of a table. Without changed rows nothing is noted.
    pub open spec fn noting(
        self,
        table: Option<TableId>,
        ids: Set<u64>,
        deltas: Seq<DeltaView>,
    ) -> TransactionView {
        match table {
            None => self,
            Some(table) => if ids == Set::<u64>::empty() {
                self
            } else {
                let key = table as u64;
                TransactionView {
                    changes: self.changes.insert(
                        key,
                        changed_rows(self.changes, key).union(ids),
                    ),
                    deltas: if deltas.len() == 0 {
                        self.deltas
                    } else {
                        self.deltas.insert(key, delta_rows(self.deltas, key) + deltas)
                    },
                    ..self
                }
            },
        }
    }

    /// The transaction is over and has told its changes.
    pub open spec fn done(self) -> TransactionView {
        TransactionView { active: false, changes: Map::empty(), deltas: Map::empty() }
    }

    /// What an insertion comes to: the rows that it adds, or why it fails.
    pub open spec fn insertion(
        self,
        table: Seq<char>,
        schema: Option<Table>,
        items: Option<Seq<Option<Vec<Option<JsProperty>>>>>,
        start_row_id: u64,
    ) -> Result<Seq<RowView>, TransactionErrorView> {
        if !self.active {
            Err(TransactionErrorView::Completed)
        } else {
            match (schema, items) {
                (None, _) => Err(TransactionErrorView::TableNotFound(table)),
                (_, None) => Err(TransactionErrorView::Convert(ErrorView::ExpectedArray)),
                (Some(schema), Some(items)) => match rows_of(
                    items,
                    schema.columns@,
                    start_row_id,
                ) {
                    Ok(rows) => Ok(rows),
                    Err(error) => Err(TransactionErrorView::Convert(error)),
                },
            }
        }
    }

    /// What a deletion comes to: how its rows are found, or why it fails.
    pub open spec fn deletion(
        self,
        table: Seq<char>,
        schema: Option<Table>,
        key_columns: Seq<usize>,
        filter: Option<RowFilter>,
    ) -> Result<LookupView, TransactionErrorView> {
        if !self.active {
            Err(TransactionErrorView::Completed)
        } else {
            match schema {
                None => Err(TransactionErrorView::TableNotFound(table)),
                Some(schema) => match filter_lookup(schema, key_columns, filter) {
                    Ok(lookup) => Ok(lookup),
                    Err(error) => Err(TransactionErrorView::Convert(error)),
                },
            }
        }
    }

    /// What an update comes to: how its rows are found, or why it fails.
    pub open spec fn modification(
        self,
        table: Seq<char>,
        schema: Option<Table>,
        key_columns: Seq<usize>,
        is_object: bool,
        filter: Option<RowFilter>,
    ) -> Result<LookupView, TransactionErrorView> {
        if self.active && schema is Some && !is_object {
            Err(TransactionErrorView::NotAnObject)
        } else {
            self.deletion(table, schema, key_columns, filter)
        }
    }

    /// What the end of a transaction comes to: the transaction and the live queries afterwards, and
    /// why it fails. `deltas` are the added and dropped rows that the live queries are told of.
    pub open spec fn ending(
        self,
        live: LiveView,
        failure: Option<Seq<char>>,
        deltas: Map<u64, Seq<DeltaView>>,
    ) -> (TransactionView, LiveView, Option<TransactionErrorView>) {
        if !self.active {
            (self, live, Some(TransactionErrorView::Completed))
        } else {
            match failure {
                Some(text) => (
                    TransactionView { active: false, ..self },
                    live,
                    Some(TransactionErrorView::Storage(text)),
                ),
                None => (self.done(), told(live, self.changes, deltas), None),
            }
        }
    }

    /// What a commit comes to.
    pub open spec fn committed(self, live: LiveView, failure: Option<Seq<char>>) -> (
        TransactionView,
        LiveView,
        Option<TransactionErrorView>,
    ) {
        self.ending(live, failure, self.deltas)
    }

    /// What a rollback comes to.
    pub open spec fn rolled_back(self, live: LiveView, failure: Option<Seq<char>>) -> (
        TransactionView,
        LiveView,
        Option<TransactionErrorView>,
    ) {
        self.ending(live, failure, Map::empty())
    }

    /// Added and dropped rows are noted only for tables with changed rows, and only where there are
    /// any.
    pub open spec fn consistent(self) -> bool {
        &&& forall|table: u64| #[trigger]
            self.changes.dom().contains(table) ==> table <= TableId::MAX
        &&& forall|table: u64| #[trigger]
            self.deltas.dom().contains(table) ==> self.changes.dom().contains(table)
                && self.deltas[table].len() > 0
    }
}

/// The schema of a table, if there is one.
pub open spec fn optional_schema(schema: Option<&Table>) -> Option<Table> {
    match schema {
        Some(schema) => Some(*schema),
        None => None,
    }
}

/// The text of a failure, if there is one.
pub open spec fn failure_text(failure: Option<String>) -> Option<Seq<char>> {
    match failure {
        Some(text) => Some(text@),
        None => None,
    }
}

/// Why an operation failed, if it did.
pub open spec fn error_of<T>(result: Result<T, TransactionError>) -> Option<TransactionErrorView> {
    match result {
        Ok(_) => None,
        Err(error) => Some(error@),
    }
}

/// The live queries after they were told of changed rows, and of added and dropped rows.
pub open spec fn told(
    live: LiveView,
    changes: Map<u64, Set<u64>>,
    deltas: Map<u64, Seq<DeltaView>>,
) -> LiveView {
    LiveView {
        pending_changes: Map::new(
            |table: u64|
                live.pending_changes.dom().contains(table) || changes.dom().contains(table),
            |table: u64|
                changed_rows(live.pending_changes, table).union(changed_rows(changes, table)),
        ),
        pending_deltas: Map::new(
            |table: u64| live.pending_deltas.dom().contains(table) || deltas.dom().contains(table),
            |table: u64| delta_rows(live.pending_deltas, table) + delta_rows(deltas, table),
        ),
        flush_scheduled: live.flush_scheduled || exists|table: u64|
            changes.dom().contains(table),
        ..live
    }
}

/// The entries of a list of keys.
pub open spec fn limited<V>(entries: Map<u64, V>, keys: Seq<u64>) -> Map<u64, V> {
    entries.restrict(keys.to_set())
}

/// The identifiers of rows.
pub open spec fn row_ids(rows: Seq<RowView>) -> Set<u64> {
    rows.map_values(|row: RowView| row.id).to_set()
}

/// Rows that were added.
pub open spec fn additions(rows: Seq<RowView>) -> Seq<DeltaView> {
    rows.map_values(|row: RowView| DeltaView { row, diff: 1 })
}

/// Rows that were dropped.
pub open spec fn removals(rows: Seq<RowView>) -> Seq<DeltaView> {
    rows.map_values(|row: RowView| DeltaView { row, diff: (-1) as i32 })
}

/// Rows that were replaced: each is dropped and its successor added.
pub open spec fn replacements(rows: Seq<RowView>, updated: Seq<RowView>) -> Seq<DeltaView>
    decreases rows.len(),
{
    if rows.len() == 0 {
        Seq::empty()
    } else {
        replacements(rows.drop_last(), updated).push(
            DeltaView { row: rows.last(), diff: (-1) as i32 },
        ).push(DeltaView { row: updated[rows.len() - 1], diff: 1 })
    }
}

fn ids_of(rows: &[Row]) -> (ids: RowIdSet)
    ensures
        ids@ == row_ids(rows_view(rows@)),
{
    let ghost numbers = rows_view(rows@).map_values(|row: RowView| row.id);
    let mut list: Vec<u64> = Vec::new();
    let mut i: usize = 0;
    while i < rows.len()
        invariant
            i <= rows.len(),
            list.len() == i,
            forall|j: int| 0 <= j < i ==> list@[j] == (#[trigger] rows@[j])@.id,
        decreases rows.len() - i,
    {
        list.push(rows[i].id());
        i += 1;
    }
    assert(list@ =~= numbers);
    RowIdSet::from_list(list.as_slice())
}

/// How much a commit changed. The numbers stop at the largest one.
#[derive(Clone, Copy, Debug, PartialEq, Eq, Structural)]
pub struct CommitCounts {
    pub changed_table_count: usize,
    pub changed_row_count: usize,
    pub delta_row_count: usize,
}

/// A number that stops at the largest one.
pub open spec fn bounded(number: int) -> usize {
    if number <= usize::MAX {
        number as usize
    } else {
        usize::MAX
    }
}

/// The number of changed rows of tables.
pub open spec fn changed_total(changes: Map<u64, Set<u64>>, tables: Seq<u64>) -> int
    decreases tables.len(),
{
    if tables.len() == 0 {
        0
    } else {
        changed_total(changes, tables.drop_last()) + changes[tables.last()].len()
    }
}

/// The number of added and dropped rows of tables.
pub open spec fn delta_total(deltas: Map<u64, Seq<DeltaView>>, tables: Seq<u64>) -> int
    decreases tables.len(),
{
    if tables.len() == 0 {
        0
    } else {
        delta_total(deltas, tables.drop_last()) + delta_rows(deltas, tables.last()).len()
    }
}

/// A transaction.
pub struct JsTransaction {
    active: bool,
    pending_changes: IdTable<RowIdSet>,
    pending_deltas: IdTable<Vec<RowDelta>>,
}

impl JsTransaction {
    #[verifier::type_invariant]
    spec fn has_changes_for_deltas(self) -> bool {
        self@.consistent()
    }

    /// The noted changes.
    pub closed spec fn view(&self) -> TransactionView {
        TransactionView {
            active: self.active,
            changes: sets_view(self.pending_changes@),
            deltas: delta_tables_view(self.pending_deltas@),
        }
    }

    /// The tables with noted changes.
    pub closed spec fn tables(&self) -> Seq<u64> {
        self.pending_changes.order()
    }

    /// A transaction that has done nothing.
    pub fn new() -> (result: Self)
        ensures
            result@ == (TransactionView {
                active: true,
                changes: Map::empty(),
                deltas: Map::empty(),
            }),
    {
        let pending_changes: IdTable<RowIdSet> = IdTable::new();
        let pending_deltas: IdTable<Vec<RowDelta>> = IdTable::new();
        assert(sets_view(pending_changes@) =~= Map::empty());
        assert(delta_tables_view(pending_deltas@) =~= Map::empty());
        JsTransaction { active: true, pending_changes, pending_deltas }
    }

    /// Tells whether the transaction is still active.
    pub fn active(&self) -> (active: bool)
        ensures
            active == self@.active,
    {
        self.active
    }

    /// The state of the transaction, in a word.
    pub fn state(&self) -> (state: String)
        ensures
            state@ == (if self@.active {
                "active"@
            } else {
                "completed"@
            }),
    {
        if self.active {
            "active".to_owned()
        } else {
            "completed".to_owned()
        }
    }

    /// Makes the rows that an insertion adds to a table: none once the transaction is over, and
    /// none for an unknown table. `items` are the objects of the given array.
    pub fn insert(
        &self,
        table: &str,
        schema: Option<&Table>,
        items: Option<&[Option<Vec<Option<JsProperty>>>]>,
        start_row_id: u64,
    ) -> (result: Result<Vec<Row>, TransactionError>)
        requires
            schema is Some && items is Some ==> start_row_id + items->0@.len() <= u64::MAX
                && forall|i: int|
                0 <= i < items->0@.len() ==> ((#[trigger] items->0@[i]) matches Some(
                    properties,
                ) ==> fits(properties@, schema->0.columns@)),
        ensures
            match self@.insertion(
                table@,
                optional_schema(schema),
                match items {
                    Some(items) => Some(items@),
                    None => None,
                },
                start_row_id,
            ) {
                Ok(rows) => result matches Ok(found) && rows_view(found@) == rows,
                Err(error) => result matches Err(reason) && reason@ == error,
            },
    {
        if !self.active {
            return Err(TransactionError::Completed);
        }
        match schema {
            None => Err(TransactionError::TableNotFound(table.to_owned())),
            Some(schema) => match js_array_to_rows(items, schema, start_row_id) {
                Ok(rows) => Ok(rows),
                Err(error) => Err(TransactionError::Convert(error)),
            },
        }
    }

    /// Tells how a deletion finds its rows.
    pub fn delete(
        &self,
        table: &str,
        schema: Option<&Table>,
        key_columns: &[usize],
        filter: Option<&RowFilter>,
    ) -> (result: Result<RowLookup, TransactionError>)
        ensures
            match self@.deletion(
                table@,
                optional_schema(schema),
                key_columns@,
                match filter {
                    Some(filter) => Some(*filter),
                    None => None,
                },
            ) {
                Ok(lookup) => result matches Ok(found) && found@ == lookup,
                Err(error) => result matches Err(reason) && reason@ == error,
            },
    {
        if !self.active {
            return Err(TransactionError::Completed);
        }
        match schema {
            None => Err(TransactionError::TableNotFound(table.to_owned())),
            Some(schema) => match lookup_rows_for_predicate(schema, key_columns, filter) {
                Ok(lookup) => Ok(lookup),
                Err(error) => Err(TransactionError::Convert(error)),
            },
        }
    }

    /// Tells how an update finds its rows. The new values have to come as an object.
    pub fn update(
        &self,
        table: &str,
        schema: Option<&Table>,
        key_columns: &[usize],
        is_object: bool,
        filter: Option<&RowFilter>,
    ) -> (result: Result<RowLookup, TransactionError>)
        ensures
            match self@.modification(
                table@,
                optional_schema(schema),
                key_columns@,
                is_object,
                match filter {
                    Some(filter) => Some(*filter),
                    None => None,
                },
            ) {
                Ok(lookup) => result matches Ok(found) && found@ == lookup,
                Err(error) => result matches Err(reason) && reason@ == error,
            },
    {
        if self.active && schema.is_some() && !is_object {
            return Err(TransactionError::NotAnObject);
        }
        self.delete(table, schema, key_columns, filter)
    }

    /// Notes changes of a table. Without changed rows nothing is noted.
    pub fn record_pending_change(
        &mut self,
        table_id: Option<TableId>,
        changed_ids: &RowIdSet,
        deltas: Vec<RowDelta>,
    )
        ensures
            final(self)@ == old(self)@.noting(table_id, changed_ids@, row_deltas_view(deltas@)),
    {
        let ghost start = self@;
        let ghost added = row_deltas_view(deltas@);
        proof {
            use_type_invariant(&*self);
            assert(start.consistent());
        }
        let key = match table_id {
            Some(table_id) => table_id as u64,
            None => {
                return;
            },
        };
        if changed_ids.is_empty() {
            return;
        }
        let mut changes: IdTable<RowIdSet> = IdTable::new();
        let mut pending: IdTable<Vec<RowDelta>> = IdTable::new();
        proof {
            assert(delta_tables_view(pending@) =~= Map::empty());
            assert((TransactionView { deltas: delta_tables_view(pending@), ..start }).consistent());
        }
        core::mem::swap(&mut self.pending_deltas, &mut pending);
        core::mem::swap(&mut self.pending_changes, &mut changes);
        let mut ids = match changes.replace(key, RowIdSet::new()) {
            Some(ids) => ids,
            None => RowIdSet::new(),
        };
        ids.extend_set(changed_ids);
        let ghost all = ids@;
        changes.insert(key, ids);
        assert(sets_view(changes@) =~= start.changes.insert(key, all));
        self.pending_changes = changes;
        if deltas.len() > 0 {
            let mut rows = match pending.replace(key, Vec::new()) {
                Some(rows) => rows,
                None => Vec::new(),
            };
            let ghost before = row_deltas_view(rows@);
            assert(before =~= delta_rows(start.deltas, key));
            let mut deltas = deltas;
            rows.append(&mut deltas);
            assert(row_deltas_view(rows@) =~= before + added);
            let ghost every = row_deltas_view(rows@);
            pending.insert(key, rows);
            assert(delta_tables_view(pending@) =~= start.deltas.insert(key, every));
        }
        self.pending_deltas = pending;
        assert(self@ =~= start.noting(table_id, changed_ids@, added));
    }
}

fn insert_deltas(rows: &[Row]) -> (deltas: Vec<RowDelta>)
    ensures
        row_deltas_view(deltas@) == additions(rows_view(rows@)),
{
    let mut deltas: Vec<RowDelta> = Vec::new();
    let mut i: usize = 0;
    while i < rows.len()
        invariant
            i <= rows.len(),
            deltas.len() == i,
            forall|j: int|
                0 <= j < i ==> (#[trigger] deltas@[j])@ == (DeltaView { row: rows@[j]@, diff: 1 }),
        decreases rows.len() - i,
    {
        deltas.push(RowDelta::insert(rows[i].clone()));
        i += 1;
    }
    assert(row_deltas_view(deltas@) =~= additions(rows_view(rows@)));
    deltas
}

fn delete_deltas(rows: &[Row]) -> (deltas: Vec<RowDelta>)
    ensures
        row_deltas_view(deltas@) == removals(rows_view(rows@)),
{
    let mut deltas: Vec<RowDelta> = Vec::new();
    let mut i: usize = 0;
    while i < rows.len()
        invariant
            i <= rows.len(),
            deltas.len() == i,
            forall|j: int|
                0 <= j < i ==> (#[trigger] deltas@[j])@ == (DeltaView {
                    row: rows@[j]@,
                    diff: (-1) as i32,
                }),
        decreases rows.len() - i,
    {
        deltas.push(RowDelta::delete(rows[i].clone()));
        i += 1;
    }
    assert(row_deltas_view(deltas@) =~= removals(rows_view(rows@)));
    deltas
}

fn update_deltas(rows: &[Row], updated: &[Row]) -> (deltas: Vec<RowDelta>)
    requires
        rows.len() == updated.len(),
    ensures
        row_deltas_view(deltas@) == replacements(rows_view(rows@), rows_view(updated@)),
{
    let ghost views = rows_view(rows@);
    let ghost news = rows_view(updated@);
    let mut deltas: Vec<RowDelta> = Vec::new();
    let mut i: usize = 0;
    assert(views.take(0) =~= Seq::empty());
    assert(row_deltas_view(deltas@) =~= Seq::empty());
    while i < rows.len()
        invariant
            i <= rows.len(),
            rows.len() == updated.len(),
            views == rows_view(rows@),
            news == rows_view(updated@),
            row_deltas_view(deltas@) == replacements(views.take(i as int), news),
        decreases rows.len() - i,
    {
        assert(views.take(i + 1).drop_last() =~= views.take(i as int));
        let ghost before = row_deltas_view(deltas@);
        deltas.push(RowDelta::delete(rows[i].clone()));
        deltas.push(RowDelta::insert(updated[i].clone()));
        assert(row_deltas_view(deltas@) =~= before.push(
            DeltaView { row: views[i as int], diff: (-1) as i32 },
        ).push(DeltaView { row: news[i as int], diff: 1 }));
        i += 1;
    }
    assert(views.take(views.len() as int) =~= views);
    deltas
}

proof fn lemma_told_step(
    live: LiveView,
    changes: Map<u64, Set<u64>>,
    deltas: Map<u64, Seq<DeltaView>>,
    order: Seq<u64>,
    i: int,
)
    requires
        0 <= i < order.len(),
        order.no_duplicates(),
        changes.dom().contains(order[i]),
        forall|table: u64| #[trigger]
            deltas.dom().contains(table) ==> deltas[table].len() > 0,
    ensures
        ({
            let table = order[i];
            let before = told(
                live,
                limited(changes, order.take(i)),
                limited(deltas, order.take(i)),
            );
            let rows = delta_rows(deltas, table);
            let noted = if rows.len() == 0 {
                before
            } else {
                before.with_deltas(table, rows)
            };
            noted.with_changes(table, changes[table]) == told(
                live,
                limited(changes, order.take(i + 1)),
                limited(deltas, order.take(i + 1)),
            )
        }),
{
    let table = order[i];
    let shorter = order.take(i);
    let longer = order.take(i + 1);
    assert forall|other: u64| longer.contains(other) <==> (shorter.contains(other) || other
        == table) by {
        if shorter.contains(other) {
            let k = choose|k: int| 0 <= k < shorter.len() && shorter[k] == other;
            assert(longer[k] == other);
        }
        assert(longer[i] == table);
        if longer.contains(other) {
            let k = choose|k: int| 0 <= k < longer.len() && longer[k] == other;
            if k < i {
                assert(shorter[k] == other);
            }
        }
    }
    assert(!shorter.contains(table)) by {
        if shorter.contains(table) {
            let k = choose|k: int| 0 <= k < shorter.len() && shorter[k] == table;
            assert(order[k] == order[i]);
        }
    }
    let before = told(live, limited(changes, shorter), limited(deltas, shorter));
    let after = told(live, limited(changes, longer), limited(deltas, longer));
    let rows = delta_rows(deltas, table);
    let noted = if rows.len() == 0 {
        before
    } else {
        before.with_deltas(table, rows)
    };
    let result = noted.with_changes(table, changes[table]);
    assert(limited(changes, longer).dom().contains(table));
    assert(after.flush_scheduled);
    assert forall|other: u64|
        result.pending_changes.dom().contains(other) == after.pending_changes.dom().contains(
            other,
        ) by {}
    assert forall|other: u64| result.pending_changes.dom().contains(other) implies #[trigger] result
        .pending_changes[other] =~= after.pending_changes[other] by {
        assert(Set::<u64>::empty().union(changes[table]) =~= changes[table]);
        assert(changed_rows(live.pending_changes, other).union(Set::empty()) =~= changed_rows(
            live.pending_changes,
            other,
        ));
    }
    assert(result.pending_changes =~= after.pending_changes);
    assert forall|other: u64| result.pending_deltas.dom().contains(other) implies #[trigger] result
        .pending_deltas[other] =~= after.pending_deltas[other] by {
        assert(delta_rows(live.pending_deltas, other) + Seq::empty() =~= delta_rows(
            live.pending_deltas,
            other,
        ));
    }
    assert(result.pending_deltas =~= after.pending_deltas);
    assert(result =~= after);
}

proof fn lemma_told_nothing(
    live: LiveView,
    changes: Map<u64, Set<u64>>,
    deltas: Map<u64, Seq<DeltaView>>,
)
    requires
        changes.dom() == Set::<u64>::empty(),
        deltas.dom() == Set::<u64>::empty(),
    ensures
        told(live, changes, deltas) == live,
{
    let after = told(live, changes, deltas);
    assert forall|table: u64| live.pending_changes.dom().contains(table) implies #[trigger] after
        .pending_changes[table] =~= live.pending_changes[table] by {
        assert(changed_rows(live.pending_changes, table).union(Set::empty()) =~= changed_rows(
            live.pending_changes,
            table,
        ));
    }
    assert(after.pending_changes =~= live.pending_changes);
    assert forall|table: u64| live.pending_deltas.dom().contains(table) implies #[trigger] after
        .pending_deltas[table] =~= live.pending_deltas[table] by {
        assert(delta_rows(live.pending_deltas, table) + Seq::empty() =~= delta_rows(
            live.pending_deltas,
            table,
        ));
    }
    assert(after.pending_deltas =~= live.pending_deltas);
}

proof fn lemma_changed_total(changes: Map<u64, Set<u64>>, tables: Seq<u64>)
    ensures
        changed_total(changes, tables) >= 0,
    decreases tables.len(),
{
    if tables.len() > 0 {
        lemma_changed_total(changes, tables.drop_last());
    }
}

proof fn lemma_delta_total(deltas: Map<u64, Seq<DeltaView>>, tables: Seq<u64>)
    ensures
        delta_total(deltas, tables) >= 0,
    decreases tables.len(),
{
    if tables.len() > 0 {
        lemma_delta_total(deltas, tables.drop_last());
    }
}

impl JsTransaction {
    /// Notes rows that were inserted into a table. A table without an identifier has no live
    /// queries.
    pub fn record_inserted(&mut self, table_id: Option<TableId>, rows: &[Row])
        ensures
            final(self)@ == old(self)@.noting(
                table_id,
                row_ids(rows_view(rows@)),
                additions(rows_view(rows@)),
            ),
    {
        let ids = ids_of(rows);
        let deltas = insert_deltas(rows);
        self.record_pending_change(table_id, &ids, deltas);
    }

    /// Notes rows of a table that were updated.
    pub fn record_updated(&mut self, table_id: Option<TableId>, rows: &[Row], updated: &[Row])
        requires
            rows@.len() == updated@.len(),
        ensures
            final(self)@ == old(self)@.noting(
                table_id,
                row_ids(rows_view(rows@)),
                replacements(rows_view(rows@), rows_view(updated@)),
            ),
    {
        let ids = ids_of(rows);
        let deltas = update_deltas(rows, updated);
        self.record_pending_change(table_id, &ids, deltas);
    }

    /// Notes rows that were deleted from a table.
    pub fn record_deleted(&mut self, table_id: Option<TableId>, rows: &[Row])
        ensures
            final(self)@ == old(self)@.noting(
                table_id,
                row_ids(rows_view(rows@)),
                removals(rows_view(rows@)),
            ),
    {
        let ids = ids_of(rows);
        let deltas = delete_deltas(rows);
        self.record_pending_change(table_id, &ids, deltas);
    }

    /// Commits the transaction: the live queries are told of its changes. `failure` is the error of
    /// the store, if it has one; the transaction is over in any case.
    pub fn commit(&mut self, failure: Option<String>, registry: &mut LiveRegistry) -> (result:
        Result<CommitCounts, TransactionError>)
        ensures
            (final(self)@, final(registry)@, error_of(result)) == old(self)@.committed(
                old(registry)@,
                failure_text(failure),
            ),
            result matches Ok(counts) ==> {
                &&& old(self).tables().no_duplicates()
                &&& old(self).tables().to_set() == old(self)@.changes.dom()
                &&& counts.changed_table_count == old(self).tables().len()
                &&& counts.changed_row_count == bounded(
                    changed_total(old(self)@.changes, old(self).tables()),
                )
                &&& counts.delta_row_count == bounded(
                    delta_total(old(self)@.deltas, old(self).tables()),
                )
            },
    {
        let ghost start = self@;
        let ghost live = registry@;
        let ghost order = self.tables();
        proof {
            use_type_invariant(&*self);
            assert(start.consistent());
        }
        if !self.active {
            return Err(TransactionError::Completed);
        }
        self.active = false;
        match failure {
            Some(text) => {
                return Err(TransactionError::Storage(text));
            },
            None => {},
        }
        let mut changes: IdTable<RowIdSet> = IdTable::new();
        let mut deltas: IdTable<Vec<RowDelta>> = IdTable::new();
        core::mem::swap(&mut self.pending_deltas, &mut deltas);
        assert(delta_tables_view(self.pending_deltas@) =~= Map::empty());
        core::mem::swap(&mut self.pending_changes, &mut changes);
        assert(sets_view(self.pending_changes@) =~= Map::empty());
        assert(self@ =~= start.done());
        let count = changes.len();
        let mut changed_row_count: usize = 0;
        let mut delta_row_count: usize = 0;
        let mut i: usize = 0;
        proof {
            assert(sets_view(changes@).dom() =~= changes@.dom());
            assert(order.take(0) =~= Seq::empty());
            assert(limited(start.changes, order.take(0)).dom() =~= Set::empty());
            assert(limited(start.deltas, order.take(0)).dom() =~= Set::empty());
            lemma_told_nothing(
                live,
                limited(start.changes, order.take(0)),
                limited(start.deltas, order.take(0)),
            );
        }
        while i < count
            invariant
                i <= count,
                count == order.len(),
                order == changes.order(),
                order.no_duplicates(),
                order.to_set() == start.changes.dom(),
                start.changes == sets_view(changes@),
                start.consistent(),
                forall|table: u64| #[trigger]
                    deltas@.dom().contains(table) <==> start.deltas.dom().contains(table)
                        && !order.take(i as int).contains(table),
                forall|table: u64| #[trigger]
                    deltas@.dom().contains(table) ==> row_deltas_view(deltas@[table]@)
                        == start.deltas[table],
                registry@ == told(
                    live,
                    limited(start.changes, order.take(i as int)),
                    limited(start.deltas, order.take(i as int)),
                ),
                changed_row_count == bounded(changed_total(start.changes, order.take(i as int))),
                delta_row_count == bounded(delta_total(start.deltas, order.take(i as int))),
            decreases count - i,
        {
            let ghost shorter = order.take(i as int);
            let ghost longer = order.take(i + 1);
            let table = *changes.key_at(i);
            let ids = changes.value_at(i);
            proof {
                assert(order.to_set().contains(order[i as int]));
                assert(start.changes.dom().contains(table));
                assert(start.changes[table] == ids@);
                assert(longer.drop_last() =~= shorter);
                assert(longer.last() == table);
                lemma_changed_total(start.changes, shorter);
                lemma_delta_total(start.deltas, shorter);
                lemma_told_step(live, start.changes, start.deltas, order, i as int);
                assert(!shorter.contains(table)) by {
                    if shorter.contains(table) {
                        let k = choose|k: int| 0 <= k < shorter.len() && shorter[k] == table;
                        assert(order[k] == order[i as int]);
                    }
                }
                assert forall|other: u64| longer.contains(other) <==> (shorter.contains(other)
                    || other == table) by {
                    if shorter.contains(other) {
                        let k = choose|k: int| 0 <= k < shorter.len() && shorter[k] == other;
                        assert(longer[k] == other);
                    }
                    assert(longer[i as int] == table);
                    if longer.contains(other) {
                        let k = choose|k: int| 0 <= k < longer.len() && longer[k] == other;
                        if k < i {
                            assert(shorter[k] == other);
                        }
                    }
                }
            }
            changed_row_count = changed_row_count.saturating_add(ids.len());
            match deltas.remove(table) {
                Some(rows) => {
                    assert(row_deltas_view(rows@) == delta_rows(start.deltas, table));
                    assert(row_deltas_view(rows@).len() == rows@.len());
                    delta_row_count = delta_row_count.saturating_add(rows.len());
                    registry.on_table_change_delta(table as TableId, rows, ids);
                },
                None => {
                    assert(delta_rows(start.deltas, table).len() == 0);
                    registry.on_table_change(table as TableId, ids);
                },
            }
            i += 1;
        }
        proof {
            assert(order.take(order.len() as int) =~= order);
            assert(limited(start.changes, order) =~= start.changes);
            assert(limited(start.deltas, order) =~= start.deltas) by {
                assert forall|table: u64| start.deltas.dom().contains(table) implies order.to_set()
                    .contains(table) by {}
            }
        }
        Ok(CommitCounts { changed_table_count: count, changed_row_count, delta_row_count })
    }

    /// Rolls the transaction back: the live queries are told which rows changed back. `failure` is
    /// the error of the store, if it has one; the transaction is over in any case.
    pub fn rollback(&mut self, failure: Option<String>, registry: &mut LiveRegistry) -> (result:
        Result<(), TransactionError>)
        ensures
            (final(self)@, final(registry)@, error_of(result)) == old(self)@.rolled_back(
                old(registry)@,
                failure_text(failure),
            ),
    {
        let ghost start = self@;
        proof {
            use_type_invariant(&*self);
        }
        if self.active && failure.is_none() {
            self.pending_deltas = IdTable::new();
            assert(delta_tables_view(self.pending_deltas@) =~= Map::empty());
        }
        match self.commit(failure, registry) {
            Ok(_) => Ok(()),
            Err(error) => Err(error),
        }
    }
}

/// A transaction notes every change that it is given: rows that were noted stay noted, and the new
/// ones are added.
pub proof fn law_noted_changes_stay(
    transaction: TransactionView,
    table: TableId,
    ids: Set<u64>,
    deltas: Seq<DeltaView>,
    other: u64,
)
    requires
        transaction.consistent(),
    ensures
        transaction.noting(Some(table), ids, deltas).consistent(),
        changed_rows(transaction.changes, other).subset_of(
            changed_rows(transaction.noting(Some(table), ids, deltas).changes, other),
        ),
        ids.subset_of(
            changed_rows(transaction.noting(Some(table), ids, deltas).changes, table as u64),
        ),
        delta_rows(transaction.deltas, other).is_prefix_of(
            delta_rows(transaction.noting(Some(table), ids, deltas).deltas, other),
        ),
        other != table ==> changed_rows(
            transaction.noting(Some(table), ids, deltas).changes,
            other,
        ) == changed_rows(transaction.changes, other),
{
    if ids != Set::<u64>::empty() && deltas.len() > 0 {
        let key = table as u64;
        let before = delta_rows(transaction.deltas, key);
        assert((before + deltas).take(before.len() as int) =~= before);
    }
}

/// An operation of a transaction.
#[allow(inconsistent_fields)]
pub enum TransactionCall {
    Insert {
        table: Seq<char>,
        schema: Option<Table>,
        items: Option<Seq<Option<Vec<Option<JsProperty>>>>>,
        start_row_id: u64,
    },
    Update {
        table: Seq<char>,
        schema: Option<Table>,
        key_columns: Seq<usize>,
        is_object: bool,
        filter: Option<RowFilter>,
    },
    Delete {
        table: Seq<char>,
        schema: Option<Table>,
        key_columns: Seq<usize>,
        filter: Option<RowFilter>,
    },
    Commit { failure: Option<Seq<char>> },
    Rollback { failure: Option<Seq<char>> },
}

/// Why an outcome is none, if it is.
pub open spec fn outcome_error<T>(outcome: Result<T, TransactionErrorView>) -> Option<
    TransactionErrorView,
> {
    match outcome {
        Ok(_) => None,
        Err(error) => Some(error),
    }
}

impl TransactionView {
    /// What an operation comes to: the transaction and the live queries afterwards, and why it
    /// fails.
    pub open spec fn after(self, live: LiveView, call: TransactionCall) -> (
        TransactionView,
        LiveView,
        Option<TransactionErrorView>,
    ) {
        match call {
            TransactionCall::Insert { table, schema, items, start_row_id } => (
                self,
                live,
                outcome_error(self.insertion(table, schema, items, start_row_id)),
            ),
            TransactionCall::Update { table, schema, key_columns, is_object, filter } => (
                self,
                live,
                outcome_error(self.modification(table, schema, key_columns, is_object, filter)),
            ),
            TransactionCall::Delete { table, schema, key_columns, filter } => (
                self,
                live,
                outcome_error(self.deletion(table, schema, key_columns, filter)),
            ),
            TransactionCall::Commit { failure } => self.committed(live, failure),
            TransactionCall::Rollback { failure } => self.rolled_back(live, failure),
        }
    }

    /// The transaction and the live queries after operations, in order.
    pub open spec fn after_all(self, live: LiveView, calls: Seq<TransactionCall>) -> (
        TransactionView,
        LiveView,
    )
        decreases calls.len(),
    {
        if calls.len() == 0 {
            (self, live)
        } else {
            let (before, told) = self.after_all(live, calls.drop_last());
            let (after, later, _) = before.after(told, calls.last());
            (after, later)
        }
    }
}

/// A commit and a rollback end a transaction, also where the store fails. Whatever is called later,
/// each call answers that the transaction is completed, and changes neither the transaction nor what
/// live queries are told.
pub proof fn law_completed_transactions_refuse_calls(
    transaction: TransactionView,
    live: LiveView,
    end: TransactionCall,
    calls: Seq<TransactionCall>,
    call: TransactionCall,
)
    requires
        end is Commit || end is Rollback,
    ensures
        ({
            let (ended, told, _) = transaction.after(live, end);
            let (later, heard) = ended.after_all(told, calls);
            &&& !ended.active
            &&& (later, heard) == (ended, told)
            &&& later.after(heard, call) == (
                ended,
                told,
                Some(TransactionErrorView::Completed),
            )
            &&& TransactionErrorView::Completed.text() == "Transaction already completed"@
        }),
    decreases calls.len(),
{
    if calls.len() > 0 {
        law_completed_transactions_refuse_calls(
            transaction,
            live,
            end,
            calls.drop_last(),
            calls.last(),
        );
    }
}

/// A name stands for a column: the first one that has it.
pub open spec fn names_column(schema: Table, name: Seq<char>, column: int) -> bool {
    &&& 0 <= column < schema.columns@.len()
    &&& schema.columns@[column].name@ == name
    &&& forall|i: int| 0 <= i < column ==> (#[trigger] schema.columns@[i]).name@ != name
}

/// What a property comes to as a value of a column.
pub open spec fn column_value(schema: Table, property: JsProperty, column: int) -> Result<
    ValueView,
    ErrorView,
> {
    value_of(property.value, schema.columns@[column].data_type, optional_text(property.json))
}

/// An entry of set values names a column, and no later entry does.
pub open spec fn last_names_column(
    schema: Table,
    updates: Seq<(String, JsProperty)>,
    entry: int,
    column: int,
) -> bool {
    &&& 0 <= entry < updates.len()
    &&& names_column(schema, updates[entry].0@, column)
    &&& forall|later: int|
        entry < later < updates.len() ==> !names_column(
            schema,
            (#[trigger] updates[later]).0@,
            column,
        )
}

proof fn lemma_named_column(schema: Table, name: Seq<char>)
    ensures
        forall|column: int| #[trigger]
            names_column(schema, name, column) <==> schema.column_position(name) == Some(column),
        schema.column_position(name) matches Some(at) ==> names_column(schema, name, at),
{
    let names = column_names(schema.columns@);
    lemma_first_position(names, name);
    assert forall|column: int| #[trigger] names_column(schema, name, column) <==> schema.column_position(
        name,
    ) == Some(column) by {
        assert forall|i: int| 0 <= i < schema.columns@.len() implies names[i]
            == (#[trigger] schema.columns@[i]).name@ by {}
        if names_column(schema, name, column) {
            assert(names[column] == name);
            let at = schema.column_position(name)->0;
            if at < column {
                assert(schema.columns@[at].name@ == name);
            }
            if column < at {
                assert(names[column] != name);
            }
        }
    }
}

/// After an update each column that some entry of the set values names holds the value of the last
/// entry that names it, and each column that no entry names holds the value that it had. The row
/// keeps the number of its values.
pub proof fn law_updates_set_named_columns(
    values: Seq<ValueView>,
    schema: Table,
    updates: Seq<(String, JsProperty)>,
    column: int,
)
    requires
        updated_values(values, schema, updates) is Ok,
        0 <= column < values.len(),
    ensures
        ({
            let after = updated_values(values, schema, updates)->Ok_0;
            &&& after.len() == values.len()
            &&& forall|entry: int| #[trigger]
                last_names_column(schema, updates, entry, column) ==> column_value(
                    schema,
                    updates[entry].1,
                    column,
                ) == Ok::<ValueView, ErrorView>(after[column])
            &&& (forall|entry: int|
                0 <= entry < updates.len() ==> !names_column(
                    schema,
                    (#[trigger] updates[entry]).0@,
                    column,
                )) ==> after[column] == values[column]
        }),
    decreases updates.len(),
{
    if updates.len() > 0 {
        let front = updates.drop_last();
        law_updates_set_named_columns(values, schema, front, column);
        lemma_named_column(schema, updates.last().0@);
        let after = updated_values(values, schema, updates)->Ok_0;
        let last = updates.len() - 1;
        assert(updates[last] == updates.last());
        assert(forall|i: int| 0 <= i < last ==> front[i] == updates[i]);
        assert forall|entry: int| #[trigger]
            last_names_column(schema, updates, entry, column) implies column_value(
            schema,
            updates[entry].1,
            column,
        ) == Ok::<ValueView, ErrorView>(after[column]) by {
            if entry < last {
                assert(last_names_column(schema, front, entry, column));
                assert(!names_column(schema, updates[last].0@, column));
            }
        }
    }
}

/// An update succeeds if every entry that names a column can be converted for it. Else it fails
/// with the error of the first entry that cannot.
pub proof fn law_updates_fail_with_their_first_error(
    values: Seq<ValueView>,
    schema: Table,
    updates: Seq<(String, JsProperty)>,
)
    ensures
        updated_values(values, schema, updates) is Ok <==> (forall|entry: int, column: int|
            0 <= entry < updates.len() && #[trigger] names_column(
                schema,
                updates[entry].0@,
                column,
            ) ==> column_value(schema, updates[entry].1, column) is Ok),
        forall|entry: int, column: int|
            0 <= entry < updates.len() && #[trigger] names_column(schema, updates[entry].0@, column)
                && column_value(schema, updates[entry].1, column) is Err && (forall|
                earlier: int,
                other: int,
            |
                0 <= earlier < entry && #[trigger] names_column(
                    schema,
                    updates[earlier].0@,
                    other,
                ) ==> column_value(schema, updates[earlier].1, other) is Ok)
                ==> updated_values(values, schema, updates) == Err::<Seq<ValueView>, ErrorView>(
                column_value(schema, updates[entry].1, column)->Err_0,
            ),
    decreases updates.len(),
{
    if updates.len() > 0 {
        let front = updates.drop_last();
        let last = updates.len() - 1;
        law_updates_fail_with_their_first_error(values, schema, front);
        lemma_named_column(schema, updates.last().0@);
        assert(updates[last] == updates.last());
        assert(forall|i: int| 0 <= i < last ==> front[i] == updates[i]);
        if updated_values(values, schema, front) is Ok {
            assert forall|entry: int, column: int|
                0 <= entry < last && #[trigger] names_column(
                    schema,
                    updates[entry].0@,
                    column,
                ) implies column_value(schema, updates[entry].1, column) is Ok by {
                assert(names_column(schema, front[entry].0@, column));
            }
            if let Some(at) = schema.column_position(updates.last().0@) {
                assert(names_column(schema, updates[last].0@, at));
            }
        } else {
            let (entry, column) = choose|entry: int, column: int|
                0 <= entry < front.len() && #[trigger] names_column(
                    schema,
                    front[entry].0@,
                    column,
                ) && column_value(schema, front[entry].1, column) is Err;
            assert(names_column(schema, updates[entry].0@, column));
        }
        assert forall|entry: int, column: int|
            0 <= entry < updates.len() && #[trigger] names_column(schema, updates[entry].0@, column)
                && column_value(schema, updates[entry].1, column) is Err && (forall|
                earlier: int,
                other: int,
            |
                0 <= earlier < entry && #[trigger] names_column(
                    schema,
                    updates[earlier].0@,
                    other,
                ) ==> column_value(schema, updates[earlier].1, other) is Ok)
            implies updated_values(values, schema, updates) == Err::<Seq<ValueView>, ErrorView>(
            column_value(schema, updates[entry].1, column)->Err_0,
        ) by {
            if entry < last {
                assert(names_column(schema, front[entry].0@, column));
                assert forall|earlier: int, other: int|
                    0 <= earlier < entry && #[trigger] names_column(
                        schema,
                        front[earlier].0@,
                        other,
                    ) implies column_value(schema, front[earlier].1, other) is Ok by {
                    assert(names_column(schema, updates[earlier].0@, other));
                }
            } else {
                assert forall|earlier: int, other: int|
                    0 <= earlier < front.len() && #[trigger] names_column(
                        schema,
                        front[earlier].0@,
                        other,
                    ) implies column_value(schema, front[earlier].1, other) is Ok by {
                    assert(names_column(schema, updates[earlier].0@, other));
                }
                assert(updated_values(values, schema, front) is Ok);
            }
        }
    }
}

/// Updated rows stand in the order of the rows. Each keeps its identifier, its version is the next
/// one, and it has the columns that the update named, and no others, changed.
pub proof fn law_updates_keep_rows_apart(
    rows: Seq<RowView>,
    schema: Table,
    updates: Seq<(String, JsProperty)>,
    at: int,
    column: int,
)
    requires
        rows_updated(rows, schema, updates) is Ok,
        0 <= at < rows.len(),
    ensures
        ({
            let after = rows_updated(rows, schema, updates)->Ok_0;
            &&& after.len() == rows.len()
            &&& after[at].id == rows[at].id
            &&& rows[at].version < u64::MAX ==> after[at].version == rows[at].version + 1
            &&& rows[at].version == u64::MAX ==> after[at].version == 0
            &&& after[at].values.len() == rows[at].values.len()
            &&& 0 <= column < rows[at].values.len() ==> forall|entry: int| #[trigger]
                last_names_column(schema, updates, entry, column) ==> column_value(
                    schema,
                    updates[entry].1,
                    column,
                ) == Ok::<ValueView, ErrorView>(after[at].values[column])
            &&& 0 <= column < rows[at].values.len() && (forall|entry: int|
                0 <= entry < updates.len() ==> !names_column(
                    schema,
                    (#[trigger] updates[entry]).0@,
                    column,
                )) ==> after[at].values[column] == rows[at].values[column]
        }),
    decreases rows.len(),
{
    let front = rows.drop_last();
    lemma_rows_updated_len(front, schema, updates);
    if at < rows.len() - 1 {
        law_updates_keep_rows_apart(front, schema, updates, at, column);
        assert(front[at] == rows[at]);
    } else {
        lemma_updated_len(rows[at].values, schema, updates);
        if 0 <= column < rows[at].values.len() {
            law_updates_set_named_columns(rows[at].values, schema, updates, column);
        }
    }
}

proof fn lemma_updated_len(
    values: Seq<ValueView>,
    schema: Table,
    updates: Seq<(String, JsProperty)>,
)
    ensures
        updated_values(values, schema, updates) matches Ok(after) ==> after.len() == values.len(),
    decreases updates.len(),
{
    if updates.len() > 0 {
        lemma_updated_len(values, schema, updates.drop_last());
        lemma_named_column(schema, updates.last().0@);
    }
}

proof fn lemma_rows_updated_len(
    rows: Seq<RowView>,
    schema: Table,
    updates: Seq<(String, JsProperty)>,
)
    ensures
        rows_updated(rows, schema, updates) matches Ok(after) ==> after.len() == rows.len(),
    decreases rows.len(),
{
    if rows.len() > 0 {
        lemma_rows_updated_len(rows.drop_last(), schema, updates);
    }
}

/// An operation is about the rows on which its condition holds and no others, in their order. The
/// returned numbers are the places where they stood.
pub proof fn law_candidates_meet_the_condition(rows: Seq<RowView>, holds: Seq<bool>) -> (places:
    Seq<int>)
    requires
        rows.len() == holds.len(),
    ensures
        rows_kept(rows, holds).len() == places.len(),
        forall|i: int|
            0 <= i < places.len() ==> 0 <= (#[trigger] places[i]) < rows.len() && holds[places[i]]
                && rows_kept(rows, holds)[i] == rows[places[i]],
        forall|i: int, j: int| 0 <= i < j < places.len() ==> places[i] < places[j],
        forall|k: int| 0 <= k < rows.len() && #[trigger] holds[k] ==> places.contains(k),
    decreases rows.len(),
{
    if rows.len() == 0 {
        Seq::empty()
    } else {
        let front = law_candidates_meet_the_condition(rows.drop_last(), holds.drop_last());
        let last = rows.len() - 1;
        if holds.last() {
            let places = front.push(last);
            assert forall|k: int| 0 <= k < rows.len() && #[trigger] holds[k] implies places.contains(
                k,
            ) by {
                if k < last {
                    assert(holds.drop_last()[k]);
                    let i = front.index_of(k);
                    assert(places[i] == k);
                } else {
                    assert(places[places.len() - 1] == k);
                }
            }
            places
        } else {
            assert forall|k: int| 0 <= k < rows.len() && #[trigger] holds[k] implies front.contains(
                k,
            ) by {
                assert(holds.drop_last()[k]);
            }
            front
        }
    }
}

/// How often added and dropped rows add a row, less how often they drop it.
pub open spec fn net_count(deltas: Seq<DeltaView>, row: RowView) -> int
    decreases deltas.len(),
{
    if deltas.len() == 0 {
        0
    } else {
        net_count(deltas.drop_last(), row) + if deltas.last().row == row {
            deltas.last().diff as int
        } else {
            0
        }
    }
}

/// How often a row stands among rows.
pub open spec fn row_count(rows: Seq<RowView>, row: RowView) -> int
    decreases rows.len(),
{
    if rows.len() == 0 {
        0
    } else {
        row_count(rows.drop_last(), row) + if rows.last() == row {
            1int
        } else {
            0
        }
    }
}

/// What live queries are told of an operation turns the rows before it into the rows after it: an
/// insertion adds its rows, a deletion drops them, and an update drops each row and adds its
/// successor.
pub proof fn law_told_rows_turn_old_into_new(rows: Seq<RowView>, updated: Seq<RowView>, row: RowView)
    requires
        updated.len() == rows.len(),
    ensures
        net_count(additions(rows), row) == row_count(rows, row),
        net_count(removals(rows), row) == -row_count(rows, row),
        net_count(replacements(rows, updated), row) == row_count(updated, row) - row_count(rows, row),
    decreases rows.len(),
{
    if rows.len() > 0 {
        let front = rows.drop_last();
        law_told_rows_turn_old_into_new(front, updated.drop_last(), row);
        assert(additions(rows).drop_last() =~= additions(front));
        assert(removals(rows).drop_last() =~= removals(front));
        lemma_replacements_prefix(front, updated.drop_last(), updated);
        let dropped = replacements(front, updated).push(
            DeltaView { row: rows.last(), diff: (-1) as i32 },
        );
        assert(replacements(rows, updated).drop_last() =~= dropped);
        assert(dropped.drop_last() =~= replacements(front, updated));
        assert(net_count(dropped, row) == net_count(replacements(front, updated), row) + if rows.last()
            == row {
            -1int
        } else {
            0
        });
    }
}

proof fn lemma_replacements_prefix(
    rows: Seq<RowView>,
    left: Seq<RowView>,
    right: Seq<RowView>,
)
    requires
        rows.len() <= left.len(),
        rows.len() <= right.len(),
        forall|i: int| 0 <= i < rows.len() ==> left[i] == right[i],
    ensures
        replacements(rows, left) == replacements(rows, right),
    decreases rows.len(),
{
    if rows.len() > 0 {
        lemma_replacements_prefix(rows.drop_last(), left, right);
    }
}

/// A commit hands every noted change on to the live queries, behind what they already wait for, and
/// wakes them if there is any. A rollback makes them look at the same rows again, but hands on no
/// added or dropped rows. Either leaves the tables that the transaction did not touch alone, and
/// leaves no changes behind.
pub proof fn law_endings_hand_changes_on(
    transaction: TransactionView,
    live: LiveView,
    table: u64,
    row: u64,
)
    requires
        transaction.active,
    ensures
        ({
            let (after, heard, error) = transaction.committed(live, None);
            &&& error is None
            &&& !after.active
            &&& changed_rows(after.changes, table).is_empty()
            &&& delta_rows(after.deltas, table).len() == 0
            &&& changed_rows(heard.pending_changes, table).contains(row) <==> changed_rows(
                live.pending_changes,
                table,
            ).contains(row) || changed_rows(transaction.changes, table).contains(row)
            &&& delta_rows(heard.pending_deltas, table) == delta_rows(live.pending_deltas, table)
                + delta_rows(transaction.deltas, table)
            &&& changed_rows(transaction.changes, table).contains(row) ==> heard.flush_scheduled
            &&& live.flush_scheduled ==> heard.flush_scheduled
        }),
        ({
            let (after, heard, error) = transaction.rolled_back(live, None);
            &&& error is None
            &&& !after.active
            &&& changed_rows(after.changes, table).is_empty()
            &&& delta_rows(after.deltas, table).len() == 0
            &&& changed_rows(heard.pending_changes, table).contains(row) <==> changed_rows(
                live.pending_changes,
                table,
            ).contains(row) || changed_rows(transaction.changes, table).contains(row)
            &&& delta_rows(heard.pending_deltas, table) == delta_rows(live.pending_deltas, table)
            &&& changed_rows(transaction.changes, table).contains(row) ==> heard.flush_scheduled
        }),
{
    assert(delta_rows(live.pending_deltas, table) + delta_rows(Map::empty(), table) =~= delta_rows(
        live.pending_deltas,
        table,
    ));
    let (_, heard, _) = transaction.committed(live, None);
    assert(delta_rows(heard.pending_deltas, table) =~= delta_rows(live.pending_deltas, table)
        + delta_rows(transaction.deltas, table));
}

/// A row can meet a condition: it has the values that the equalities of the condition ask for.
pub open spec fn can_meet(schema: Table, filter: RowFilter, row: RowView) -> bool
    decreases filter,
{
    match filter {
        RowFilter::And { left, right } => can_meet(schema, *left, row) && can_meet(
            schema,
            *right,
            row,
        ),
        RowFilter::Equals { table, column, value } => exists|at: int| #[trigger]
            names_column(schema, column@, at) && at < row.values.len() && column_value(
                schema,
                value,
                at,
            ) == Ok::<ValueView, ErrorView>(row.values[at]),
        RowFilter::Other => true,
    }
}

/// A lookup reaches a row: the row has the values of the key, or the value of the one column of the
/// index.
pub open spec fn reaches(
    schema: Table,
    key_columns: Seq<usize>,
    lookup: LookupView,
    row: RowView,
) -> bool {
    match lookup {
        LookupView::All => true,
        LookupView::PrimaryKey(values) => values.len() == key_columns.len() && forall|i: int|
            0 <= i < key_columns.len() ==> row.values[(#[trigger] key_columns[i]) as int]
                == values[i],
        LookupView::Index { name, value } => exists|i: int, at: int|
            0 <= i < schema.indices@.len() && (#[trigger] schema.indices@[i]).name@ == name
                && !(schema.indices@[i].index_type is Gin) && schema.indices@[i].columns@.len() == 1
                && #[trigger] names_column(schema, schema.indices@[i].columns@[0]@, at)
                && row.values[at] == value,
    }
}

spec fn row_has(row: RowView, values: Map<u64, ValueView>, limit: int) -> bool {
    forall|column: u64| #[trigger]
        values.dom().contains(column) ==> column < limit && row.values[column as int]
            == values[column]
}

proof fn lemma_fixed_values_are_met(
    schema: Table,
    filter: RowFilter,
    found: Map<u64, ValueView>,
    row: RowView,
)
    requires
        can_meet(schema, filter, row),
        row_has(row, found, schema.columns@.len() as int),
    ensures
        fixed_values(schema, filter, found) matches Ok(Some(values)) ==> row_has(
            row,
            values,
            schema.columns@.len() as int,
        ),
    decreases filter,
{
    match filter {
        RowFilter::And { left, right } => {
            lemma_fixed_values_are_met(schema, *left, found, row);
            if let Ok(Some(middle)) = fixed_values(schema, *left, found) {
                lemma_fixed_values_are_met(schema, *right, middle, row);
            }
        },
        RowFilter::Equals { table, column, value } => {
            lemma_named_column(schema, column@);
            assert(schema.columns.len() <= usize::MAX);
        },
        RowFilter::Other => {},
    }
}

proof fn lemma_serving_index(schema: Table, indices: Seq<IndexDef>, column: int)
    ensures
        serving_index(schema, indices, column) matches Some(name) ==> exists|i: int|
            0 <= i < indices.len() && (#[trigger] indices[i]).name@ == name && serves(
                schema,
                indices[i],
                column,
            ),
        serving_index(schema, indices, column) is None ==> forall|i: int|
            0 <= i < indices.len() ==> !serves(schema, #[trigger] indices[i], column),
    decreases indices.len(),
{
    if indices.len() > 0 && !serves(schema, indices[0], column) {
        let rest = indices.skip(1);
        lemma_serving_index(schema, rest, column);
        assert(forall|i: int| 0 <= i < rest.len() ==> rest[i] == indices[i + 1]);
        if serving_index(schema, rest, column) is Some {
            let name = serving_index(schema, rest, column)->0;
            let i = choose|i: int|
                0 <= i < rest.len() && (#[trigger] rest[i]).name@ == name && serves(
                    schema,
                    rest[i],
                    column,
                );
            assert(indices[i + 1].name@ == name);
        } else {
            assert forall|i: int| 0 <= i < indices.len() implies !serves(
                schema,
                #[trigger] indices[i],
                column,
            ) by {
                if i > 0 {
                    assert(rest[i - 1] == indices[i]);
                }
            }
        }
    }
}

/// The rows that an operation looks at are all that can meet its condition: a lookup by the key or
/// by an index passes none of them over.
pub proof fn law_lookups_reach_matching_rows(
    schema: Table,
    key_columns: Seq<usize>,
    filter: RowFilter,
    row: RowView,
)
    requires
        can_meet(schema, filter, row),
    ensures
        filter_lookup(schema, key_columns, Some(filter)) matches Ok(lookup) ==> reaches(
            schema,
            key_columns,
            lookup,
            row,
        ),
        filter_lookup(schema, key_columns, None) == Ok::<LookupView, ErrorView>(LookupView::All),
{
    lemma_fixed_values_are_met(schema, filter, Map::empty(), row);
    if let Ok(Some(values)) = fixed_values(schema, filter, Map::empty()) {
        if fixes_key(key_columns, values) {
            let keys = key_values(key_columns, values);
            assert forall|i: int| 0 <= i < key_columns.len() implies row.values[(
            #[trigger] key_columns[i]) as int] == keys[i] by {
                assert(values.dom().contains(key_columns[i] as u64));
            }
        } else if values.dom().len() == 1 {
            let column = values.dom().choose();
            assert(values.dom().contains(column)) by {
                if forall|other: u64| !values.dom().contains(other) {
                    assert(values.dom() =~= Set::empty());
                }
            }
            lemma_serving_index(schema, schema.indices@, column as int);
            if let Some(name) = serving_index(schema, schema.indices@, column as int) {
                let i = choose|i: int|
                    0 <= i < schema.indices@.len() && (#[trigger] schema.indices@[i]).name@ == name
                        && serves(schema, schema.indices@[i], column as int);
                lemma_named_column(schema, schema.indices@[i].columns@[0]@);
                assert(names_column(schema, schema.indices@[i].columns@[0]@, column as int));
            }
        }
    }
}

/// An operation whose condition gives one column a plain value finds its rows by that value: by the
/// primary key if the column is all of it, or else by an index on just that column where there is
/// one.
pub proof fn law_equalities_are_looked_up(
    schema: Table,
    key_columns: Seq<usize>,
    column: String,
    value: JsProperty,
    at: int,
)
    requires
        names_column(schema, column@, at),
        !(value.value is Object),
        column_value(schema, value, at) is Ok,
    ensures
        ({
            let filter = RowFilter::Equals { table: None, column, value };
            let expected = column_value(schema, value, at)->Ok_0;
            let lookup = filter_lookup(schema, key_columns, Some(filter));
            &&& lookup is Ok
            &&& key_columns == seq![at as usize] ==> lookup->Ok_0 == LookupView::PrimaryKey(
                seq![expected],
            )
            &&& !key_columns.contains(at as usize) && (exists|i: int|
                0 <= i < schema.indices@.len() && serves(
                    schema,
                    #[trigger] schema.indices@[i],
                    at,
                )) ==> (lookup->Ok_0 matches LookupView::Index { name, value: found } && found
                == expected)
            &&& !key_columns.contains(at as usize) && (forall|i: int|
                0 <= i < schema.indices@.len() ==> !serves(
                    schema,
                    #[trigger] schema.indices@[i],
                    at,
                )) ==> lookup->Ok_0 is All
        }),
{
    let filter = RowFilter::Equals { table: None, column, value };
    let expected = column_value(schema, value, at)->Ok_0;
    lemma_named_column(schema, column@);
    assert(schema.columns.len() <= usize::MAX);
    let values = Map::<u64, ValueView>::empty().insert(at as u64, expected);
    assert(fixed_values(schema, filter, Map::empty()) == Ok::<
        Option<Map<u64, ValueView>>,
        ErrorView,
    >(Some(values)));
    assert(values.dom() =~= set![at as u64]);
    assert(values.dom().len() == 1);
    assert(values.dom().contains(values.dom().choose()));
    assert(values.dom().choose() == at as u64);
    assert((at as u64) as int == at && (at as usize) as u64 == at as u64);
    lemma_serving_index(schema, schema.indices@, at);
    if key_columns == seq![at as usize] {
        assert(key_columns[0] == at as usize);
        assert(fixes_key(key_columns, values));
        assert(key_values(key_columns, values) =~= seq![expected]);
    } else if !key_columns.contains(at as usize) {
        if key_columns.len() > 0 {
            assert(key_columns.contains(key_columns[0]));
            assert(!values.dom().contains(key_columns[0] as u64));
        }
        assert(!fixes_key(key_columns, values));
        let lookup = lookup_for(schema, key_columns, values);
        assert(filter_lookup(schema, key_columns, Some(filter)) == Ok::<LookupView, ErrorView>(
            lookup,
        ));
        match serving_index(schema, schema.indices@, at) {
            Some(name) => {
                assert(lookup == LookupView::Index { name, value: expected });
                assert(exists|i: int|
                    0 <= i < schema.indices@.len() && serves(
                        schema,
                        #[trigger] schema.indices@[i],
                        at,
                    ));
            },
            None => {
                assert(lookup is All);
            },
        }
    }
}

} // verus!
