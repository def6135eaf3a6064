//! What a query executor asks the store for.
use vstd::prelude::*;

use crate::collections::{ascending, RowIdSet};
use crate::order::value_precedes;
use crate::plan::{scalar_range_view, KeyRange};
use crate::refresh_policy::{execution_mode, SubsetExecutionMode};
use crate::text::same_text;
use crate::value::{Value, ValueView};

verus! {

/// The keys between two bounds.
pub open spec fn range_between(
    start: Option<ValueView>,
    end: Option<ValueView>,
    include_start: bool,
    include_end: bool,
) -> Option<KeyRange<ValueView>> {
    match (start, end) {
        (Some(lower), Some(upper)) => Some(
            KeyRange::Bound {
                lower,
                upper,
                lower_exclusive: !include_start,
                upper_exclusive: !include_end,
            },
        ),
        (Some(value), None) => Some(KeyRange::LowerBound { value, exclusive: !include_start }),
        (None, Some(value)) => Some(KeyRange::UpperBound { value, exclusive: !include_end }),
        (None, None) => None,
    }
}

/// An optional value.
pub open spec fn optional_value(value: Option<&Value>) -> Option<ValueView> {
    match value {
        Some(value) => Some(value@),
        None => None,
    }
}

/// What an optional range covers.
pub open spec fn optional_range(range: Option<KeyRange<Value>>) -> Option<KeyRange<ValueView>> {
    match range {
        Some(range) => Some(scalar_range_view(range)),
        None => None,
    }
}

/// The keys between two bounds.
pub fn scalar_range(
    start: Option<&Value>,
    end: Option<&Value>,
    include_start: bool,
    include_end: bool,
) -> (range: Option<KeyRange<Value>>)
    ensures
        optional_range(range) == range_between(
            optional_value(start),
            optional_value(end),
            include_start,
            include_end,
        ),
{
    match (start, end) {
        (Some(lower), Some(upper)) => Some(
            KeyRange::Bound {
                lower: lower.clone(),
                upper: upper.clone(),
                lower_exclusive: !include_start,
                upper_exclusive: !include_end,
            },
        ),
        (Some(value), None) => Some(
            KeyRange::LowerBound { value: value.clone(), exclusive: !include_start },
        ),
        (None, Some(value)) => Some(
            KeyRange::UpperBound { value: value.clone(), exclusive: !include_end },
        ),
        (None, None) => None,
    }
}

/// The name of a table that does not exist.
#[derive(Debug)]
pub struct TableNotFound {
    pub table: String,
}

/// How the rows that an executor asks for are limited.
#[derive(Clone, Copy, Debug, PartialEq, Eq, Structural)]
pub enum RowScope {
    /// All rows of the table.
    Table,
    /// The rows of a subset, looked up one by one.
    SubsetDriven,
    /// The rows that an index finds, as far as they are in a subset.
    IndexDriven,
}

/// A source of the rows of all tables, of which one may be limited to some of its rows.
#[derive(Debug)]
pub struct TableSubsetDataSource {
    subset_table: String,
    sorted_allowed_row_ids: Vec<u64>,
    mode: SubsetExecutionMode,
}

impl TableSubsetDataSource {
    /// The table that is limited.
    pub closed spec fn table(&self) -> Seq<char> {
        self.subset_table@
    }

    /// The rows that the table is limited to.
    pub closed spec fn allowed(&self) -> Seq<u64> {
        self.sorted_allowed_row_ids@
    }

    /// How the rows of the subset are found.
    pub closed spec fn access(&self) -> SubsetExecutionMode {
        self.mode
    }

    /// Limits a table to some of its rows. `table_rows` is the number of its rows, none if there is
    /// no such table.
    pub fn try_new(table: &str, table_rows: Option<usize>, allowed: &RowIdSet) -> (result: Result<
        Self,
        TableNotFound,
    >)
        ensures
            match table_rows {
                None => result matches Err(error) && error.table@ == table@,
                Some(rows) => result matches Ok(source) && source.table() == table@ && ascending(
                    source.allowed(),
                ) && source.allowed().to_set() == allowed@ && source.access() == execution_mode(
                    allowed@.len() as usize,
                    rows,
                ),
            },
    {
        match table_rows {
            None => Err(TableNotFound { table: table.to_owned() }),
            Some(rows) => {
                let sorted_allowed_row_ids = allowed.sorted();
                let mode = SubsetExecutionMode::choose_mode(allowed.len(), rows);
                Ok(
                    TableSubsetDataSource {
                        subset_table: table.to_owned(),
                        sorted_allowed_row_ids,
                        mode,
                    },
                )
            },
        }
    }

    /// Tells whether a table is the limited one.
    pub fn is_subset_table(&self, table: &str) -> (result: bool)
        ensures
            result == (table@ == self.table()),
    {
        same_text(table, self.subset_table.as_str())
    }

    /// The rows that the limited table is limited to, in ascending order.
    pub fn restricted_row_ids(&self) -> (ids: &[u64])
        ensures
            ids@ == self.allowed(),
    {
        self.sorted_allowed_row_ids.as_slice()
    }

    /// The scope of what an executor asks for: that of the limited table is the subset, that of
    /// another table is the table.
    pub open spec fn scope_of(&self, table: Seq<char>) -> RowScope {
        if table != self.table() {
            RowScope::Table
        } else if self.access() == SubsetExecutionMode::SubsetDriven {
            RowScope::SubsetDriven
        } else {
            RowScope::IndexDriven
        }
    }

    /// The scope of the rows of an index that an executor asks for. `known` tells whether there is
    /// such a table.
    pub fn index_scope(&self, table: &str, known: bool) -> (result: Result<RowScope, TableNotFound>)
        ensures
            if known {
                result == Ok::<_, TableNotFound>(self.scope_of(table@))
            } else {
                result matches Err(error) && error.table@ == table@
            },
    {
        if !known {
            return Err(TableNotFound { table: table.to_owned() });
        }
        if !self.is_subset_table(table) {
            return Ok(RowScope::Table);
        }
        match self.mode {
            SubsetExecutionMode::SubsetDriven => Ok(RowScope::SubsetDriven),
            _ => Ok(RowScope::IndexDriven),
        }
    }

    /// The scope of all rows of a table that an executor asks for or counts: rows of the subset are
    /// always looked up one by one.
    pub fn table_scope(&self, table: &str, known: bool) -> (result: Result<RowScope, TableNotFound>)
        ensures
            if known {
                result == Ok::<_, TableNotFound>(
                    if table@ == self.table() {
                        RowScope::SubsetDriven
                    } else {
                        RowScope::Table
                    },
                )
            } else {
                result matches Err(error) && error.table@ == table@
            },
    {
        if !known {
            return Err(TableNotFound { table: table.to_owned() });
        }
        if self.is_subset_table(table) {
            Ok(RowScope::SubsetDriven)
        } else {
            Ok(RowScope::Table)
        }
    }
}

/// An index scan that the store is asked for.
#[derive(Debug)]
pub struct IndexScan {
    pub scope: RowScope,
    pub range: Option<KeyRange<Value>>,
    pub limit: Option<usize>,
    pub offset: usize,
    pub reverse: bool,
}

/// An index scan that the store is asked for.
#[verifier::ext_equal]
pub struct IndexScanView {
    pub scope: RowScope,
    pub range: Option<KeyRange<ValueView>>,
    pub limit: Option<usize>,
    pub offset: usize,
    pub reverse: bool,
}

impl View for IndexScan {
    type V = IndexScanView;

    open spec fn view(&self) -> IndexScanView {
        IndexScanView {
            scope: self.scope,
            range: optional_range(self.range),
            limit: self.limit,
            offset: self.offset,
            reverse: self.reverse,
        }
    }
}

/// The scan for the keys between two bounds.
pub fn index_range_scan(
    scope: RowScope,
    start: Option<&Value>,
    end: Option<&Value>,
    include_start: bool,
    include_end: bool,
    limit: Option<usize>,
    offset: usize,
    reverse: bool,
) -> (scan: IndexScan)
    ensures
        scan@ == (IndexScanView {
            scope,
            range: range_between(
                optional_value(start),
                optional_value(end),
                include_start,
                include_end,
            ),
            limit,
            offset,
            reverse,
        }),
{
    IndexScan {
        scope,
        range: scalar_range(start, end, include_start, include_end),
        limit,
        offset,
        reverse,
    }
}

/// The scan for one key: forward, from its first row on.
pub fn index_point_scan(scope: RowScope, key: &Value, limit: Option<usize>) -> (scan: IndexScan)
    ensures
        scan@ == (IndexScanView {
            scope,
            range: Some(KeyRange::Only(key@)),
            limit,
            offset: 0,
            reverse: false,
        }),
{
    IndexScan {
        scope,
        range: Some(KeyRange::Only(key.clone())),
        limit,
        offset: 0,
        reverse: false,
    }
}

/// A value lies in a range of keys.
pub open spec fn lies_in(value: ValueView, range: KeyRange<ValueView>) -> bool {
    match range {
        KeyRange::All => true,
        KeyRange::Only(key) => value == key,
        KeyRange::LowerBound { value: bound, exclusive } => value_precedes(bound, value) || (
        !exclusive && value == bound),
        KeyRange::UpperBound { value: bound, exclusive } => value_precedes(value, bound) || (
        !exclusive && value == bound),
        KeyRange::Bound { lower, upper, lower_exclusive, upper_exclusive } => (value_precedes(
            lower,
            value,
        ) || (!lower_exclusive && value == lower)) && (value_precedes(value, upper) || (
        !upper_exclusive && value == upper)),
    }
}

/// The keys of a scan are those from its start to its end, with the start and with the end just
/// where they are included. A scan without either has no range.
pub proof fn law_ranges_hold_the_keys_between(
    start: Option<ValueView>,
    end: Option<ValueView>,
    include_start: bool,
    include_end: bool,
    value: ValueView,
)
    ensures
        range_between(start, end, include_start, include_end) is None <==> start is None
            && end is None,
        range_between(start, end, include_start, include_end) matches Some(range) ==> (lies_in(
            value,
            range,
        ) <==> (start matches Some(first) ==> value_precedes(first, value) || (include_start
            && value == first)) && (end matches Some(last) ==> value_precedes(value, last) || (
        include_end && value == last))),
{
}

/// A query that is restricted to rows of one table is restricted on that table and on no other.
pub proof fn law_only_the_subset_table_is_restricted(source: TableSubsetDataSource, table: Seq<char>)
    ensures
        source.scope_of(table) is Table <==> table != source.table(),
        table == source.table() ==> (source.scope_of(table) is SubsetDriven <==> source.access()
            == SubsetExecutionMode::SubsetDriven),
{
}

} // verus!
