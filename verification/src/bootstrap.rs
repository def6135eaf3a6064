//! Access paths by which the sources of a dataflow are filled.
use vstd::prelude::*;

use crate::collections::RowIdSet;
use crate::dataflow::{
    filtered_source_result, join_result, plan_result, source_result, CompiledView, NodeView,
    ResolverView,
};
use crate::eval::whole_number;
use crate::expr::{binary_view, BinaryOp, ExprView};
use crate::index_predicate::{column_view, index_columns_of, index_scan_predicate};
use crate::plan::{
    clone_composite_range, clone_scalar_range, composite_range_view, scalar_range_view,
    IndexBounds, JoinType, KeyRange, PhysicalPlan,
};
use crate::root_subset::clone_rows;
use crate::row::{rows_view, Row, RowView};
use crate::schema::{SchemaCatalog, Table, TableId, TableIdMap};
use crate::text::{names_view, same_text};
use crate::value::{clone_values, values_view, Value, ValueView};

verus! {

/// How the rows of a source are read.
#[derive(Debug)]
#[allow(inconsistent_fields)]
pub enum TraceBootstrapAccessPath {
    FullScan,
    IndexScanScalar {
        index: String,
        range: Option<KeyRange<Value>>,
        limit: Option<usize>,
        offset: usize,
        reverse: bool,
    },
    IndexScanComposite {
        index: String,
        range: Option<KeyRange<Vec<Value>>>,
        limit: Option<usize>,
        offset: usize,
        reverse: bool,
    },
    IndexGet { index: String, key: Value, limit: Option<usize> },
    IndexInGet { index: String, keys: Vec<Value> },
    GinKeyValue { index: String, key: String, value: String },
    GinKey { index: String, key: String },
    GinMulti { index: String, pairs: Vec<(String, String)>, match_all: bool },
}

/// How the rows of a source are read.
#[allow(inconsistent_fields)]
pub enum AccessPathView {
    FullScan,
    IndexScanScalar {
        index: Seq<char>,
        range: Option<KeyRange<ValueView>>,
        limit: Option<usize>,
        offset: usize,
        reverse: bool,
    },
    IndexScanComposite {
        index: Seq<char>,
        range: Option<KeyRange<Seq<ValueView>>>,
        limit: Option<usize>,
        offset: usize,
        reverse: bool,
    },
    IndexGet { index: Seq<char>, key: ValueView, limit: Option<usize> },
    IndexInGet { index: Seq<char>, keys: Seq<ValueView> },
    GinKeyValue { index: Seq<char>, key: Seq<char>, value: Seq<char> },
    GinKey { index: Seq<char>, key: Seq<char> },
    GinMulti { index: Seq<char>, pairs: Seq<(Seq<char>, Seq<char>)>, match_all: bool },
}

/// Pairs of texts.
pub open spec fn pairs_view(pairs: Seq<(String, String)>) -> Seq<(Seq<char>, Seq<char>)> {
    pairs.map_values(|pair: (String, String)| (pair.0@, pair.1@))
}

/// What a range of scalar keys covers, if there is one.
pub open spec fn optional_scalar_range(range: Option<KeyRange<Value>>) -> Option<
    KeyRange<ValueView>,
> {
    match range {
        Some(range) => Some(scalar_range_view(range)),
        None => None,
    }
}

/// What a range of composite keys covers, if there is one.
pub open spec fn optional_composite_range(range: Option<KeyRange<Vec<Value>>>) -> Option<
    KeyRange<Seq<ValueView>>,
> {
    match range {
        Some(range) => Some(composite_range_view(range)),
        None => None,
    }
}

impl View for TraceBootstrapAccessPath {
    type V = AccessPathView;

    open spec fn view(&self) -> AccessPathView {
        match self {
            TraceBootstrapAccessPath::FullScan => AccessPathView::FullScan,
            TraceBootstrapAccessPath::IndexScanScalar { index, range, limit, offset, reverse } =>
            AccessPathView::IndexScanScalar {
                index: index@,
                range: optional_scalar_range(*range),
                limit: *limit,
                offset: *offset,
                reverse: *reverse,
            },
            TraceBootstrapAccessPath::IndexScanComposite { index, range, limit, offset, reverse } =>
            AccessPathView::IndexScanComposite {
                index: index@,
                range: optional_composite_range(*range),
                limit: *limit,
                offset: *offset,
                reverse: *reverse,
            },
            TraceBootstrapAccessPath::IndexGet { index, key, limit } => AccessPathView::IndexGet {
                index: index@,
                key: key@,
                limit: *limit,
            },
            TraceBootstrapAccessPath::IndexInGet { index, keys } => AccessPathView::IndexInGet {
                index: index@,
                keys: values_view(keys@),
            },
            TraceBootstrapAccessPath::GinKeyValue { index, key, value } =>
            AccessPathView::GinKeyValue { index: index@, key: key@, value: value@ },
            TraceBootstrapAccessPath::GinKey { index, key } => AccessPathView::GinKey {
                index: index@,
                key: key@,
            },
            TraceBootstrapAccessPath::GinMulti { index, pairs, match_all } =>
            AccessPathView::GinMulti {
                index: index@,
                pairs: pairs_view(pairs@),
                match_all: *match_all,
            },
        }
    }
}

/// A source of a dataflow with its access path.
#[derive(Debug)]
pub struct TraceBootstrapSourceBinding {
    pub source_index: usize,
    pub table_id: TableId,
    pub table_name: String,
    pub access_path: TraceBootstrapAccessPath,
    pub covers_source_filter: bool,
}

/// A source of a dataflow with its access path.
pub struct BindingView {
    pub source_index: usize,
    pub table_id: TableId,
    pub table_name: Seq<char>,
    pub access_path: AccessPathView,
    pub covers_source_filter: bool,
}

impl View for TraceBootstrapSourceBinding {
    type V = BindingView;

    open spec fn view(&self) -> BindingView {
        BindingView {
            source_index: self.source_index,
            table_id: self.table_id,
            table_name: self.table_name@,
            access_path: self.access_path@,
            covers_source_filter: self.covers_source_filter,
        }
    }
}

/// Sources of a dataflow.
pub open spec fn bindings_view(bindings: Seq<TraceBootstrapSourceBinding>) -> Seq<BindingView> {
    bindings.map_values(|binding: TraceBootstrapSourceBinding| binding@)
}

/// The values under which an index may hold a number: an integer is looked up in both widths, as
/// far as it fits.
pub open spec fn lookup_keys(key: ValueView) -> Seq<ValueView> {
    match key {
        ValueView::Int32(value) => seq![ValueView::Int32(value), ValueView::Int64(value as i64)],
        ValueView::Int64(value) => if i32::MIN <= value <= i32::MAX {
            seq![ValueView::Int64(value), ValueView::Int32(value as i32)]
        } else {
            seq![ValueView::Int64(value)]
        },
        _ => seq![key],
    }
}

/// The values under which an index may hold a number.
pub fn trace_bootstrap_sql_point_lookup_keys(key: &Value) -> (keys: Vec<Value>)
    ensures
        values_view(keys@) == lookup_keys(key@),
{
    let mut keys: Vec<Value> = Vec::new();
    match key {
        Value::Int32(value) => {
            keys.push(Value::Int32(*value));
            keys.push(Value::Int64(*value as i64));
        },
        Value::Int64(value) => {
            keys.push(Value::Int64(*value));
            if *value >= i32::MIN as i64 && *value <= i32::MAX as i64 {
                keys.push(Value::Int32(*value as i32));
            }
        },
        _ => {
            keys.push(key.clone());
        },
    }
    assert(values_view(keys@) =~= lookup_keys(key@));
    keys
}

/// The number of columns of an index.
pub fn trace_index_column_arity(schema: &Table, index_name: &str) -> (arity: Option<usize>)
    ensures
        match schema.index_named(index_name@) {
            Some(index) => arity == Some(index.columns.len()),
            None => arity is None,
        },
{
    match schema.find_index(index_name) {
        Some(index) => Some(index.columns.len()),
        None => None,
    }
}

/// An index that is known to have more than one column.
pub open spec fn is_composite(schema: Option<Table>, index: Seq<char>) -> bool {
    match schema {
        Some(schema) => match schema.index_named(index) {
            Some(index) => index.columns@.len() > 1,
            None => false,
        },
        None => false,
    }
}

/// How an index scan reads rows. Without bounds the columns of the index tell the kind of scan.
pub open spec fn scan_path(
    schema: Option<Table>,
    index: Seq<char>,
    bounds: IndexBounds,
    limit: Option<usize>,
    offset: Option<usize>,
    reverse: bool,
) -> AccessPathView {
    let start = match offset {
        Some(offset) => offset,
        None => 0,
    };
    match bounds {
        IndexBounds::Scalar(range) => AccessPathView::IndexScanScalar {
            index,
            range: Some(scalar_range_view(range)),
            limit,
            offset: start,
            reverse,
        },
        IndexBounds::Composite(range) => AccessPathView::IndexScanComposite {
            index,
            range: Some(composite_range_view(range)),
            limit,
            offset: start,
            reverse,
        },
        IndexBounds::Unbounded => if is_composite(schema, index) {
            AccessPathView::IndexScanComposite { index, range: None, limit, offset: start, reverse }
        } else {
            AccessPathView::IndexScanScalar { index, range: None, limit, offset: start, reverse }
        },
    }
}

/// How an index scan reads rows.
pub fn trace_index_scan_access_path(
    schema: Option<&Table>,
    index: &String,
    bounds: &IndexBounds,
    limit: Option<usize>,
    offset: Option<usize>,
    reverse: bool,
) -> (path: TraceBootstrapAccessPath)
    ensures
        path@ == scan_path(
            match schema {
                Some(schema) => Some(*schema),
                None => None,
            },
            index@,
            *bounds,
            limit,
            offset,
            reverse,
        ),
{
    let offset = match offset {
        Some(offset) => offset,
        None => 0,
    };
    match bounds {
        IndexBounds::Scalar(range) => TraceBootstrapAccessPath::IndexScanScalar {
            index: index.clone(),
            range: Some(clone_scalar_range(range)),
            limit,
            offset,
            reverse,
        },
        IndexBounds::Composite(range) => TraceBootstrapAccessPath::IndexScanComposite {
            index: index.clone(),
            range: Some(clone_composite_range(range)),
            limit,
            offset,
            reverse,
        },
        IndexBounds::Unbounded => {
            let arity: usize = match schema {
                Some(schema) => match trace_index_column_arity(schema, index.as_str()) {
                    Some(arity) => arity,
                    None => 1,
                },
                None => 1,
            };
            if arity > 1 {
                TraceBootstrapAccessPath::IndexScanComposite {
                    index: index.clone(),
                    range: None,
                    limit,
                    offset,
                    reverse,
                }
            } else {
                TraceBootstrapAccessPath::IndexScanScalar {
                    index: index.clone(),
                    range: None,
                    limit,
                    offset,
                    reverse,
                }
            }
        },
    }
}

/// A table that a plan reads, with the way in which it reads it.
pub struct SourceView {
    pub table_name: Seq<char>,
    pub access_path: AccessPathView,
    pub covers_source_filter: bool,
}

/// A table that a plan reads whole.
pub open spec fn full_scan(table_name: Seq<char>) -> SourceView {
    SourceView { table_name, access_path: AccessPathView::FullScan, covers_source_filter: false }
}

/// How an inverted index reads rows.
pub open spec fn gin_path(
    index: Seq<char>,
    key: Seq<char>,
    value: Option<Seq<char>>,
    query_type: Seq<char>,
) -> AccessPathView {
    if query_type == "eq"@ && value is Some {
        AccessPathView::GinKeyValue { index, key, value: value->0 }
    } else if query_type == "contains"@ || query_type == "exists"@ {
        AccessPathView::GinKey { index, key }
    } else {
        AccessPathView::FullScan
    }
}

/// The tables that a plan reads, from left to right.
pub open spec fn sources(plan: PhysicalPlan, schemas: SchemaCatalog) -> Seq<SourceView>
    decreases plan,
{
    match plan {
        PhysicalPlan::TableScan { table } => seq![full_scan(table@)],
        PhysicalPlan::IndexScan { table, index, bounds, limit, offset, reverse } => seq![
            SourceView {
                table_name: table@,
                access_path: scan_path(
                    schemas.lookup(table@),
                    index@,
                    bounds,
                    limit,
                    offset,
                    reverse,
                ),
                covers_source_filter: true,
            },
        ],
        PhysicalPlan::IndexGet { table, index, key, limit } => seq![
            SourceView {
                table_name: table@,
                access_path: AccessPathView::IndexGet { index: index@, key: key@, limit },
                covers_source_filter: true,
            },
        ],
        PhysicalPlan::IndexInGet { table, index, keys } => seq![
            SourceView {
                table_name: table@,
                access_path: AccessPathView::IndexInGet {
                    index: index@,
                    keys: values_view(keys@),
                },
                covers_source_filter: true,
            },
        ],
        PhysicalPlan::GinIndexScan { table, index, key, value, query_type, .. } => seq![
            SourceView {
                table_name: table@,
                access_path: gin_path(
                    index@,
                    key@,
                    match value {
                        Some(value) => Some(value@),
                        None => None,
                    },
                    query_type@,
                ),
                covers_source_filter: true,
            },
        ],
        PhysicalPlan::GinIndexScanMulti { table, index, pairs, match_all, .. } => seq![
            SourceView {
                table_name: table@,
                access_path: AccessPathView::GinMulti {
                    index: index@,
                    pairs: pairs_view(pairs@),
                    match_all,
                },
                covers_source_filter: true,
            },
        ],
        PhysicalPlan::Filter { input, .. } => sources(*input, schemas),
        PhysicalPlan::Project { input, .. } => sources(*input, schemas),
        PhysicalPlan::HashAggregate { input, .. } => sources(*input, schemas),
        PhysicalPlan::Sort { input, .. } => sources(*input, schemas),
        PhysicalPlan::TopN { input, .. } => sources(*input, schemas),
        PhysicalPlan::Limit { input, .. } => sources(*input, schemas),
        PhysicalPlan::NoOp { input } => sources(*input, schemas),
        PhysicalPlan::HashJoin { left, right, .. } => sources(*left, schemas) + sources(
            *right,
            schemas,
        ),
        PhysicalPlan::SortMergeJoin { left, right, .. } => sources(*left, schemas) + sources(
            *right,
            schemas,
        ),
        PhysicalPlan::NestedLoopJoin { left, right, .. } => sources(*left, schemas) + sources(
            *right,
            schemas,
        ),
        PhysicalPlan::CrossProduct { left, right } => sources(*left, schemas) + sources(
            *right,
            schemas,
        ),
        PhysicalPlan::Union { left, right, .. } => sources(*left, schemas) + sources(
            *right,
            schemas,
        ),
        PhysicalPlan::IndexNestedLoopJoin { outer, inner_table, outer_is_left, .. } => if outer_is_left {
            sources(*outer, schemas) + seq![full_scan(inner_table@)]
        } else {
            seq![full_scan(inner_table@)] + sources(*outer, schemas)
        },
        PhysicalPlan::Empty => Seq::empty(),
    }
}

/// Sources with one more, if its table is known. Sources are numbered in order.
pub open spec fn with_source(
    before: Seq<BindingView>,
    source: SourceView,
    ids: Map<Seq<char>, TableId>,
) -> Seq<BindingView> {
    if ids.dom().contains(source.table_name) {
        before.push(
            BindingView {
                source_index: before.len() as usize,
                table_id: ids[source.table_name],
                table_name: source.table_name,
                access_path: source.access_path,
                covers_source_filter: source.covers_source_filter,
            },
        )
    } else {
        before
    }
}

/// Sources with more of them.
pub open spec fn with_sources(
    before: Seq<BindingView>,
    added: Seq<SourceView>,
    ids: Map<Seq<char>, TableId>,
) -> Seq<BindingView>
    decreases added.len(),
{
    if added.len() == 0 {
        before
    } else {
        with_source(with_sources(before, added.drop_last(), ids), added.last(), ids)
    }
}

proof fn lemma_with_sources_concat(
    before: Seq<BindingView>,
    first: Seq<SourceView>,
    second: Seq<SourceView>,
    ids: Map<Seq<char>, TableId>,
)
    ensures
        with_sources(before, first + second, ids) == with_sources(
            with_sources(before, first, ids),
            second,
            ids,
        ),
    decreases second.len(),
{
    if second.len() == 0 {
        assert(first + second =~= first);
    } else {
        assert((first + second).drop_last() =~= first + second.drop_last());
        lemma_with_sources_concat(before, first, second.drop_last(), ids);
    }
}

proof fn lemma_with_one(
    before: Seq<BindingView>,
    source: SourceView,
    ids: Map<Seq<char>, TableId>,
)
    ensures
        with_sources(before, seq![source], ids) == with_source(before, source, ids),
{
    assert(seq![source].drop_last() =~= Seq::empty());
    assert(with_sources(before, Seq::empty(), ids) == before);
}

/// The sources of a plan are numbered by their positions.
pub proof fn law_sources_are_numbered(added: Seq<SourceView>, ids: Map<Seq<char>, TableId>)
    ensures
        forall|i: int|
            0 <= i < with_sources(Seq::empty(), added, ids).len() && i <= usize::MAX ==> (
            #[trigger] with_sources(Seq::empty(), added, ids)[i]).source_index == i as usize,
        with_sources(Seq::empty(), added, ids).len() <= added.len(),
    decreases added.len(),
{
    if added.len() > 0 {
        law_sources_are_numbered(added.drop_last(), ids);
    }
}

/// Adds a source, if its table is known.
pub fn push_trace_bootstrap_source_binding(
    bindings: &mut Vec<TraceBootstrapSourceBinding>,
    table_ids: &TableIdMap,
    table_name: &String,
    access_path: TraceBootstrapAccessPath,
    covers_source_filter: bool,
)
    ensures
        bindings_view(final(bindings)@) == with_source(
            bindings_view(old(bindings)@),
            SourceView {
                table_name: table_name@,
                access_path: access_path@,
                covers_source_filter,
            },
            table_ids@,
        ),
{
    let ghost before = bindings_view(bindings@);
    if let Some(table_id) = table_ids.get(table_name.as_str()) {
        let binding = TraceBootstrapSourceBinding {
            source_index: bindings.len(),
            table_id,
            table_name: table_name.clone(),
            access_path,
            covers_source_filter,
        };
        let ghost added = binding@;
        bindings.push(binding);
        assert(bindings_view(bindings@) =~= before.push(added));
    }
}

fn clone_pairs(pairs: &[(String, String)]) -> (result: Vec<(String, String)>)
    ensures
        pairs_view(result@) == pairs_view(pairs@),
{
    let mut result: Vec<(String, String)> = Vec::new();
    let mut i: usize = 0;
    while i < pairs.len()
        invariant
            i <= pairs.len(),
            result.len() == i,
            forall|j: int|
                0 <= j < i ==> (#[trigger] result@[j]).0@ == pairs@[j].0@ && result@[j].1@
                    == pairs@[j].1@,
        decreases pairs.len() - i,
    {
        result.push((pairs[i].0.clone(), pairs[i].1.clone()));
        i += 1;
    }
    assert(pairs_view(result@) =~= pairs_view(pairs@));
    result
}

/// Adds the sources of a plan.
pub fn collect_trace_bootstrap_source_bindings_into(
    plan: &PhysicalPlan,
    table_ids: &TableIdMap,
    table_schemas: &SchemaCatalog,
    bindings: &mut Vec<TraceBootstrapSourceBinding>,
)
    ensures
        bindings_view(final(bindings)@) == with_sources(
            bindings_view(old(bindings)@),
            sources(*plan, *table_schemas),
            table_ids@,
        ),
    decreases plan,
{
    let ghost before = bindings_view(bindings@);
    match plan {
        PhysicalPlan::TableScan { table } => {
            push_trace_bootstrap_source_binding(
                bindings,
                table_ids,
                table,
                TraceBootstrapAccessPath::FullScan,
                false,
            );
            proof {
                lemma_with_one(before, full_scan(table@), table_ids@);
            }
        },
        PhysicalPlan::IndexScan { table, index, bounds, limit, offset, reverse } => {
            let path = trace_index_scan_access_path(
                table_schemas.get(table.as_str()),
                index,
                bounds,
                *limit,
                *offset,
                *reverse,
            );
            proof {
                lemma_with_one(before, sources(*plan, *table_schemas)[0], table_ids@);
            }
            push_trace_bootstrap_source_binding(bindings, table_ids, table, path, true);
        },
        PhysicalPlan::IndexGet { table, index, key, limit } => {
            proof {
                lemma_with_one(before, sources(*plan, *table_schemas)[0], table_ids@);
            }
            push_trace_bootstrap_source_binding(
                bindings,
                table_ids,
                table,
                TraceBootstrapAccessPath::IndexGet {
                    index: index.clone(),
                    key: key.clone(),
                    limit: *limit,
                },
                true,
            );
        },
        PhysicalPlan::IndexInGet { table, index, keys } => {
            proof {
                lemma_with_one(before, sources(*plan, *table_schemas)[0], table_ids@);
            }
            push_trace_bootstrap_source_binding(
                bindings,
                table_ids,
                table,
                TraceBootstrapAccessPath::IndexInGet {
                    index: index.clone(),
                    keys: clone_values(keys.as_slice()),
                },
                true,
            );
        },
        PhysicalPlan::GinIndexScan { table, index, key, value, query_type, .. } => {
            let is_key = same_text(query_type.as_str(), "contains") || same_text(
                query_type.as_str(),
                "exists",
            );
            let is_eq = same_text(query_type.as_str(), "eq");
            let path = match value {
                Some(value) => if is_eq {
                    TraceBootstrapAccessPath::GinKeyValue {
                        index: index.clone(),
                        key: key.clone(),
                        value: value.clone(),
                    }
                } else if is_key {
                    TraceBootstrapAccessPath::GinKey { index: index.clone(), key: key.clone() }
                } else {
                    TraceBootstrapAccessPath::FullScan
                },
                None => if is_key {
                    TraceBootstrapAccessPath::GinKey { index: index.clone(), key: key.clone() }
                } else {
                    TraceBootstrapAccessPath::FullScan
                },
            };
            proof {
                lemma_with_one(before, sources(*plan, *table_schemas)[0], table_ids@);
            }
            push_trace_bootstrap_source_binding(bindings, table_ids, table, path, true);
        },
        PhysicalPlan::GinIndexScanMulti { table, index, pairs, match_all, .. } => {
            proof {
                lemma_with_one(before, sources(*plan, *table_schemas)[0], table_ids@);
            }
            push_trace_bootstrap_source_binding(
                bindings,
                table_ids,
                table,
                TraceBootstrapAccessPath::GinMulti {
                    index: index.clone(),
                    pairs: clone_pairs(pairs.as_slice()),
                    match_all: *match_all,
                },
                true,
            );
        },
        PhysicalPlan::Filter { input, .. } => {
            collect_trace_bootstrap_source_bindings_into(input, table_ids, table_schemas, bindings);
        },
        PhysicalPlan::Project { input, .. } => {
            collect_trace_bootstrap_source_bindings_into(input, table_ids, table_schemas, bindings);
        },
        PhysicalPlan::HashAggregate { input, .. } => {
            collect_trace_bootstrap_source_bindings_into(input, table_ids, table_schemas, bindings);
        },
        PhysicalPlan::Sort { input, .. } => {
            collect_trace_bootstrap_source_bindings_into(input, table_ids, table_schemas, bindings);
        },
        PhysicalPlan::TopN { input, .. } => {
            collect_trace_bootstrap_source_bindings_into(input, table_ids, table_schemas, bindings);
        },
        PhysicalPlan::Limit { input, .. } => {
            collect_trace_bootstrap_source_bindings_into(input, table_ids, table_schemas, bindings);
        },
        PhysicalPlan::NoOp { input } => {
            collect_trace_bootstrap_source_bindings_into(input, table_ids, table_schemas, bindings);
        },
        PhysicalPlan::HashJoin { left, right, .. } => {
            proof {
                lemma_with_sources_concat(
                    before,
                    sources(**left, *table_schemas),
                    sources(**right, *table_schemas),
                    table_ids@,
                );
            }
            collect_trace_bootstrap_source_bindings_into(left, table_ids, table_schemas, bindings);
            collect_trace_bootstrap_source_bindings_into(right, table_ids, table_schemas, bindings);
        },
        PhysicalPlan::SortMergeJoin { left, right, .. } => {
            proof {
                lemma_with_sources_concat(
                    before,
                    sources(**left, *table_schemas),
                    sources(**right, *table_schemas),
                    table_ids@,
                );
            }
            collect_trace_bootstrap_source_bindings_into(left, table_ids, table_schemas, bindings);
            collect_trace_bootstrap_source_bindings_into(right, table_ids, table_schemas, bindings);
        },
        PhysicalPlan::NestedLoopJoin { left, right, .. } => {
            proof {
                lemma_with_sources_concat(
                    before,
                    sources(**left, *table_schemas),
                    sources(**right, *table_schemas),
                    table_ids@,
                );
            }
            collect_trace_bootstrap_source_bindings_into(left, table_ids, table_schemas, bindings);
            collect_trace_bootstrap_source_bindings_into(right, table_ids, table_schemas, bindings);
        },
        PhysicalPlan::CrossProduct { left, right } => {
            proof {
                lemma_with_sources_concat(
                    before,
                    sources(**left, *table_schemas),
                    sources(**right, *table_schemas),
                    table_ids@,
                );
            }
            collect_trace_bootstrap_source_bindings_into(left, table_ids, table_schemas, bindings);
            collect_trace_bootstrap_source_bindings_into(right, table_ids, table_schemas, bindings);
        },
        PhysicalPlan::Union { left, right, .. } => {
            proof {
                lemma_with_sources_concat(
                    before,
                    sources(**left, *table_schemas),
                    sources(**right, *table_schemas),
                    table_ids@,
                );
            }
            collect_trace_bootstrap_source_bindings_into(left, table_ids, table_schemas, bindings);
            collect_trace_bootstrap_source_bindings_into(right, table_ids, table_schemas, bindings);
        },
        PhysicalPlan::IndexNestedLoopJoin { outer, inner_table, outer_is_left, .. } => {
            let ghost inner = seq![full_scan(inner_table@)];
            let ghost outer_sources = sources(**outer, *table_schemas);
            if *outer_is_left {
                proof {
                    lemma_with_sources_concat(before, outer_sources, inner, table_ids@);
                    lemma_with_one(
                        with_sources(before, outer_sources, table_ids@),
                        full_scan(inner_table@),
                        table_ids@,
                    );
                }
                collect_trace_bootstrap_source_bindings_into(
                    outer,
                    table_ids,
                    table_schemas,
                    bindings,
                );
                push_trace_bootstrap_source_binding(
                    bindings,
                    table_ids,
                    inner_table,
                    TraceBootstrapAccessPath::FullScan,
                    false,
                );
            } else {
                proof {
                    lemma_with_sources_concat(before, inner, outer_sources, table_ids@);
                    lemma_with_one(before, full_scan(inner_table@), table_ids@);
                }
                push_trace_bootstrap_source_binding(
                    bindings,
                    table_ids,
                    inner_table,
                    TraceBootstrapAccessPath::FullScan,
                    false,
                );
                collect_trace_bootstrap_source_bindings_into(
                    outer,
                    table_ids,
                    table_schemas,
                    bindings,
                );
            }
        },
        PhysicalPlan::Empty => {},
    }
}

/// Lists the sources of a plan.
pub fn collect_trace_bootstrap_source_bindings(
    plan: &PhysicalPlan,
    table_ids: &TableIdMap,
    table_schemas: &SchemaCatalog,
) -> (bindings: Vec<TraceBootstrapSourceBinding>)
    ensures
        bindings_view(bindings@) == with_sources(
            Seq::empty(),
            sources(*plan, *table_schemas),
            table_ids@,
        ),
{
    let mut bindings: Vec<TraceBootstrapSourceBinding> = Vec::new();
    assert(bindings_view(bindings@) =~= Seq::empty());
    collect_trace_bootstrap_source_bindings_into(plan, table_ids, table_schemas, &mut bindings);
    bindings
}

/// A read of stored rows.
#[derive(Debug)]
#[allow(inconsistent_fields)]
pub enum StoreQuery {
    All,
    Scan {
        index: String,
        range: Option<KeyRange<Value>>,
        limit: Option<usize>,
        offset: usize,
        reverse: bool,
    },
    CompositeScan {
        index: String,
        range: Option<KeyRange<Vec<Value>>>,
        limit: Option<usize>,
        offset: usize,
        reverse: bool,
    },
    GinKeyValue { index: String, key: String, value: String },
    GinKey { index: String, key: String },
    GinAll { index: String, pairs: Vec<(String, String)> },
    GinAny { index: String, pairs: Vec<(String, String)> },
}

/// A read of stored rows.
#[allow(inconsistent_fields)]
pub enum QueryView {
    All,
    Scan {
        index: Seq<char>,
        range: Option<KeyRange<ValueView>>,
        limit: Option<usize>,
        offset: usize,
        reverse: bool,
    },
    CompositeScan {
        index: Seq<char>,
        range: Option<KeyRange<Seq<ValueView>>>,
        limit: Option<usize>,
        offset: usize,
        reverse: bool,
    },
    GinKeyValue { index: Seq<char>, key: Seq<char>, value: Seq<char> },
    GinKey { index: Seq<char>, key: Seq<char> },
    GinAll { index: Seq<char>, pairs: Seq<(Seq<char>, Seq<char>)> },
    GinAny { index: Seq<char>, pairs: Seq<(Seq<char>, Seq<char>)> },
}

impl View for StoreQuery {
    type V = QueryView;

    open spec fn view(&self) -> QueryView {
        match self {
            StoreQuery::All => QueryView::All,
            StoreQuery::Scan { index, range, limit, offset, reverse } => QueryView::Scan {
                index: index@,
                range: optional_scalar_range(*range),
                limit: *limit,
                offset: *offset,
                reverse: *reverse,
            },
            StoreQuery::CompositeScan { index, range, limit, offset, reverse } =>
            QueryView::CompositeScan {
                index: index@,
                range: optional_composite_range(*range),
                limit: *limit,
                offset: *offset,
                reverse: *reverse,
            },
            StoreQuery::GinKeyValue { index, key, value } => QueryView::GinKeyValue {
                index: index@,
                key: key@,
                value: value@,
            },
            StoreQuery::GinKey { index, key } => QueryView::GinKey { index: index@, key: key@ },
            StoreQuery::GinAll { index, pairs } => QueryView::GinAll {
                index: index@,
                pairs: pairs_view(pairs@),
            },
            StoreQuery::GinAny { index, pairs } => QueryView::GinAny {
                index: index@,
                pairs: pairs_view(pairs@),
            },
        }
    }
}

/// The values under which an index may hold the keys of a list.
pub open spec fn all_lookup_keys(keys: Seq<ValueView>) -> Seq<ValueView>
    decreases keys.len(),
{
    if keys.len() == 0 {
        Seq::empty()
    } else {
        all_lookup_keys(keys.drop_last()) + lookup_keys(keys.last())
    }
}

impl AccessPathView {
    /// The path looks single keys up, and reads no row twice.
    pub open spec fn is_lookup(self) -> bool {
        self is IndexGet || self is IndexInGet
    }

    /// The keys that the path looks up.
    pub open spec fn probes(self) -> Seq<ValueView> {
        match self {
            AccessPathView::IndexGet { key, .. } => lookup_keys(key),
            AccessPathView::IndexInGet { keys, .. } => all_lookup_keys(keys),
            _ => Seq::empty(),
        }
    }

    /// The largest number of rows that looking keys up gives.
    pub open spec fn lookup_limit(self) -> Option<usize> {
        match self {
            AccessPathView::IndexGet { limit, .. } => limit,
            _ => None,
        }
    }

    /// The number of reads that the path takes.
    pub open spec fn read_count(self) -> nat {
        if self.is_lookup() {
            self.probes().len()
        } else {
            1
        }
    }

    /// A read of the path, with the number of rows that are left to be read.
    pub open spec fn read(self, position: int, remaining: usize) -> QueryView {
        match self {
            AccessPathView::FullScan => QueryView::All,
            AccessPathView::IndexScanScalar { index, range, limit, offset, reverse } =>
            QueryView::Scan { index, range, limit, offset, reverse },
            AccessPathView::IndexScanComposite { index, range, limit, offset, reverse } =>
            QueryView::CompositeScan { index, range, limit, offset, reverse },
            AccessPathView::IndexGet { index, limit, .. } => QueryView::Scan {
                index,
                range: Some(KeyRange::Only(self.probes()[position])),
                limit: match limit {
                    Some(_) => Some(remaining),
                    None => None,
                },
                offset: 0,
                reverse: false,
            },
            AccessPathView::IndexInGet { index, .. } => QueryView::Scan {
                index,
                range: Some(KeyRange::Only(self.probes()[position])),
                limit: None,
                offset: 0,
                reverse: false,
            },
            AccessPathView::GinKeyValue { index, key, value } => QueryView::GinKeyValue {
                index,
                key,
                value,
            },
            AccessPathView::GinKey { index, key } => QueryView::GinKey { index, key },
            AccessPathView::GinMulti { index, pairs, match_all } => if match_all {
                QueryView::GinAll { index, pairs }
            } else {
                QueryView::GinAny { index, pairs }
            },
        }
    }
}

/// What reading the rows of a source has come to.
#[verifier::ext_equal]
pub struct VisitView {
    pub path: AccessPathView,
    pub position: nat,
    pub rows: Seq<RowView>,
    pub seen: Set<u64>,
    pub remaining: usize,
}

impl VisitView {
    /// Nothing was read.
    pub open spec fn begun(path: AccessPathView) -> VisitView {
        VisitView {
            path,
            position: 0,
            rows: Seq::empty(),
            seen: Set::empty(),
            remaining: match path.lookup_limit() {
                Some(limit) => limit,
                None => usize::MAX,
            },
        }
    }

    /// The limit is reached.
    pub open spec fn is_full(self) -> bool {
        self.path.lookup_limit() is Some && self.remaining == 0
    }

    /// The next read, if there is one.
    pub open spec fn next(self) -> Option<QueryView> {
        if self.position >= self.path.read_count() || self.is_full() {
            None
        } else {
            Some(self.path.read(self.position as int, self.remaining))
        }
    }

    /// A row was read while keys are looked up. A row that came before does not count, nor does
    /// one behind the limit.
    pub open spec fn with_row(self, row: RowView) -> VisitView {
        if self.is_full() || self.seen.contains(row.id) {
            self
        } else {
            VisitView {
                rows: self.rows.push(row),
                seen: self.seen.insert(row.id),
                remaining: if self.path.lookup_limit() is Some {
                    (self.remaining - 1) as usize
                } else {
                    self.remaining
                },
                ..self
            }
        }
    }

    /// Rows were read while keys are looked up.
    pub open spec fn with_rows(self, rows: Seq<RowView>) -> VisitView
        decreases rows.len(),
    {
        if rows.len() == 0 {
            self
        } else {
            self.with_rows(rows.drop_last()).with_row(rows.last())
        }
    }

    /// The rows of a read were taken.
    pub open spec fn fed(self, rows: Seq<RowView>) -> VisitView {
        if self.path.is_lookup() {
            VisitView { position: self.position + 1, ..self.with_rows(rows) }
        } else {
            VisitView { position: self.position + 1, rows: self.rows + rows, ..self }
        }
    }

    /// No row was taken twice, and the rows taken and those left make up the limit.
    pub open spec fn well_formed(self) -> bool {
        self.path.is_lookup() ==> {
            &&& forall|i: int, j: int|
                0 <= i < j < self.rows.len() ==> (#[trigger] self.rows[i]).id != (
                #[trigger] self.rows[j]).id
            &&& forall|i: int|
                0 <= i < self.rows.len() ==> self.seen.contains((#[trigger] self.rows[i]).id)
            &&& self.path.lookup_limit() matches Some(limit) ==> self.rows.len() + self.remaining
                == limit
        }
    }
}

/// Looking keys up reads no row twice, and no more rows than the limit allows.
pub proof fn law_lookups_are_distinct_and_limited(visit: VisitView, rows: Seq<RowView>)
    requires
        visit.well_formed(),
    ensures
        visit.fed(rows).well_formed(),
        visit.path.lookup_limit() matches Some(limit) ==> visit.fed(rows).rows.len() <= limit,
{
    if visit.path.is_lookup() {
        lemma_rows_well_formed(visit, rows);
    }
}

/// A read starts without rows.
pub proof fn law_visit_starts_well_formed(path: AccessPathView)
    ensures
        VisitView::begun(path).well_formed(),
{
}

proof fn lemma_rows_well_formed(visit: VisitView, rows: Seq<RowView>)
    requires
        visit.well_formed(),
    ensures
        visit.with_rows(rows).well_formed(),
        visit.with_rows(rows).path == visit.path,
    decreases rows.len(),
{
    if rows.len() > 0 {
        lemma_rows_well_formed(visit, rows.drop_last());
        let before = visit.with_rows(rows.drop_last());
        let after = before.with_row(rows.last());
        if visit.path.is_lookup() && after.rows.len() > before.rows.len() {
            assert forall|i: int, j: int| 0 <= i < j < after.rows.len() implies (
            #[trigger] after.rows[i]).id != (#[trigger] after.rows[j]).id by {
                assert(after.rows[i] == before.rows[i]);
                if j < before.rows.len() {
                    assert(after.rows[j] == before.rows[j]);
                }
            }
            assert forall|i: int| 0 <= i < after.rows.len() implies after.seen.contains(
                (#[trigger] after.rows[i]).id,
            ) by {
                if i < before.rows.len() {
                    assert(after.rows[i] == before.rows[i]);
                }
            }
        }
    }
}

/// The rows of reads, one read after the other.
pub open spec fn joined_reads(reads: Seq<Seq<RowView>>) -> Seq<RowView>
    decreases reads.len(),
{
    if reads.len() == 0 {
        Seq::empty()
    } else {
        joined_reads(reads.drop_last()) + reads.last()
    }
}

/// One of the rows has the identifier.
pub open spec fn has_row(rows: Seq<RowView>, id: u64) -> bool {
    exists|i: int| 0 <= i < rows.len() && (#[trigger] rows[i]).id == id
}

/// The rows without those whose identifier an earlier one has.
pub open spec fn first_rows(rows: Seq<RowView>) -> Seq<RowView>
    decreases rows.len(),
{
    if rows.len() == 0 {
        Seq::empty()
    } else {
        let before = first_rows(rows.drop_last());
        if has_row(rows.drop_last(), rows.last().id) {
            before
        } else {
            before.push(rows.last())
        }
    }
}

/// The first rows of a list, up to a limit.
pub open spec fn up_to(rows: Seq<RowView>, limit: Option<usize>) -> Seq<RowView> {
    match limit {
        Some(limit) => if limit < rows.len() {
            rows.take(limit as int)
        } else {
            rows
        },
        None => rows,
    }
}

impl AccessPathView {
    /// The rows that the reads of a path give: all of them, one read after the other. Lookups take
    /// each row once, and no more rows than the limit allows.
    pub open spec fn visited(self, reads: Seq<Seq<RowView>>) -> Seq<RowView> {
        if self.is_lookup() {
            up_to(first_rows(joined_reads(reads)), self.lookup_limit())
        } else {
            joined_reads(reads)
        }
    }

    /// The read that follows reads, if there is one. A limited lookup asks for as many rows as are
    /// left of the limit.
    pub open spec fn read_after(self, reads: Seq<Seq<RowView>>) -> Option<QueryView> {
        let taken = self.visited(reads).len();
        if reads.len() >= self.read_count() {
            None
        } else {
            match self.lookup_limit() {
                Some(limit) => if taken >= limit {
                    None
                } else {
                    Some(self.read(reads.len() as int, (limit - taken) as usize))
                },
                None => Some(self.read(reads.len() as int, usize::MAX)),
            }
        }
    }
}

impl VisitView {
    /// The rows of reads were taken, in order.
    pub open spec fn fed_all(self, reads: Seq<Seq<RowView>>) -> VisitView
        decreases reads.len(),
    {
        if reads.len() == 0 {
            self
        } else {
            self.fed_all(reads.drop_last()).fed(reads.last())
        }
    }

    /// The visit has taken the rows of a list while keys are looked up.
    spec fn has_taken(self, path: AccessPathView, all: Seq<RowView>) -> bool {
        &&& self.path == path
        &&& self.rows == up_to(first_rows(all), path.lookup_limit())
        &&& forall|id: u64| #[trigger] self.seen.contains(id) <==> has_row(self.rows, id)
        &&& self.remaining == (match path.lookup_limit() {
            Some(limit) => limit - self.rows.len(),
            None => usize::MAX as int,
        })
    }
}

proof fn lemma_first_rows(rows: Seq<RowView>, id: u64)
    ensures
        has_row(first_rows(rows), id) <==> has_row(rows, id),
    decreases rows.len(),
{
    if rows.len() > 0 {
        let front = rows.drop_last();
        let before = first_rows(front);
        let after = first_rows(rows);
        lemma_first_rows(front, id);
        if has_row(front, id) {
            let i = choose|i: int| 0 <= i < front.len() && (#[trigger] front[i]).id == id;
            assert(rows[i].id == id);
        }
        if has_row(rows, id) && !has_row(front, id) {
            let i = choose|i: int| 0 <= i < rows.len() && (#[trigger] rows[i]).id == id;
            if i < front.len() {
                assert(front[i].id == id);
            }
            assert(after[before.len() as int].id == id);
        }
        if has_row(before, id) {
            let i = choose|i: int| 0 <= i < before.len() && (#[trigger] before[i]).id == id;
            assert(after[i].id == id);
        }
        if has_row(after, id) {
            let i = choose|i: int| 0 <= i < after.len() && (#[trigger] after[i]).id == id;
            if i < before.len() {
                assert(before[i].id == id);
            } else {
                assert(rows[rows.len() - 1].id == id);
            }
        }
    }
}

proof fn lemma_row_taken(visit: VisitView, path: AccessPathView, all: Seq<RowView>, row: RowView)
    requires
        path.is_lookup(),
        visit.has_taken(path, all),
    ensures
        visit.with_row(row).has_taken(path, all.push(row)),
{
    let longer = all.push(row);
    let before = first_rows(all);
    let after = visit.with_row(row);
    assert(longer.drop_last() =~= all);
    assert(longer.last() == row);
    lemma_first_rows(all, row.id);
    if visit.is_full() {
        let limit = path.lookup_limit()->0;
        assert(before.len() >= limit);
        assert(up_to(first_rows(longer), Some(limit)) =~= up_to(before, Some(limit)));
    } else {
        assert(visit.rows =~= before) by {
            if let Some(limit) = path.lookup_limit() {
                if limit < before.len() {
                    assert(visit.rows.len() == limit);
                }
            }
        }
        if !visit.seen.contains(row.id) {
            assert(first_rows(longer) == before.push(row));
            assert(after.rows =~= up_to(before.push(row), path.lookup_limit()));
            assert forall|id: u64| #[trigger] after.seen.contains(id) <==> has_row(
                after.rows,
                id,
            ) by {
                if has_row(visit.rows, id) {
                    let i = choose|i: int|
                        0 <= i < visit.rows.len() && (#[trigger] visit.rows[i]).id == id;
                    assert(after.rows[i].id == id);
                }
                assert(after.rows[visit.rows.len() as int].id == row.id);
                if has_row(after.rows, id) && id != row.id {
                    let i = choose|i: int|
                        0 <= i < after.rows.len() && (#[trigger] after.rows[i]).id == id;
                    assert(visit.rows[i].id == id);
                }
            }
        }
    }
}

proof fn lemma_rows_taken(
    visit: VisitView,
    path: AccessPathView,
    all: Seq<RowView>,
    rows: Seq<RowView>,
)
    requires
        path.is_lookup(),
        visit.has_taken(path, all),
    ensures
        visit.with_rows(rows).has_taken(path, all + rows),
        visit.with_rows(rows).position == visit.position,
    decreases rows.len(),
{
    if rows.len() == 0 {
        assert(all + rows =~= all);
    } else {
        lemma_rows_taken(visit, path, all, rows.drop_last());
        lemma_row_taken(
            visit.with_rows(rows.drop_last()),
            path,
            all + rows.drop_last(),
            rows.last(),
        );
        assert((all + rows.drop_last()).push(rows.last()) =~= all + rows);
    }
}

proof fn lemma_reads_taken(path: AccessPathView, reads: Seq<Seq<RowView>>)
    ensures
        ({
            let visit = VisitView::begun(path).fed_all(reads);
            &&& visit.path == path
            &&& visit.position == reads.len()
            &&& visit.rows == path.visited(reads)
            &&& path.is_lookup() ==> visit.has_taken(path, joined_reads(reads))
            &&& !path.is_lookup() ==> visit.remaining == usize::MAX
        }),
    decreases reads.len(),
{
    let start = VisitView::begun(path);
    if reads.len() == 0 {
        assert(start.rows =~= path.visited(reads));
        assert forall|id: u64| #[trigger] start.seen.contains(id) <==> has_row(start.rows, id) by {}
    } else {
        lemma_reads_taken(path, reads.drop_last());
        let before = start.fed_all(reads.drop_last());
        if path.is_lookup() {
            lemma_rows_taken(before, path, joined_reads(reads.drop_last()), reads.last());
            let taken = before.with_rows(reads.last());
            let after = start.fed_all(reads);
            assert(after.rows == taken.rows && after.seen == taken.seen);
        }
    }
}

/// Reading a source comes to the rows of its reads, in order: whatever the reads give, the rows
/// taken are those of each read, one read after the other. Lookups skip rows that came before and
/// are cut at the limit. The next read is fixed by the rows taken so far, and rows of an earlier
/// read are not touched by a later one.
pub proof fn law_visit_takes_rows_in_order(path: AccessPathView, reads: Seq<Seq<RowView>>)
    ensures
        ({
            let visit = VisitView::begun(path).fed_all(reads);
            &&& visit.rows == path.visited(reads)
            &&& visit.next() == path.read_after(reads)
            &&& visit.well_formed()
            &&& path.lookup_limit() matches Some(limit) ==> visit.rows.len() <= limit
            &&& reads.len() > 0 ==> path.visited(reads.drop_last()).is_prefix_of(visit.rows)
        }),
    decreases reads.len(),
{
    lemma_reads_taken(path, reads);
    if reads.len() > 0 {
        law_visit_takes_rows_in_order(path, reads.drop_last());
        let before = VisitView::begun(path).fed_all(reads.drop_last());
        law_lookups_are_distinct_and_limited(before, reads.last());
        lemma_reads_taken(path, reads.drop_last());
        let visit = before.fed(reads.last());
        if path.is_lookup() {
            lemma_rows_grow(before, reads.last());
        }
        assert(before.rows.is_prefix_of(visit.rows));
    } else {
        law_visit_starts_well_formed(path);
    }
}

proof fn lemma_rows_grow(visit: VisitView, rows: Seq<RowView>)
    ensures
        visit.rows.is_prefix_of(visit.with_rows(rows).rows),
    decreases rows.len(),
{
    if rows.len() > 0 {
        lemma_rows_grow(visit, rows.drop_last());
    }
}

/// Reads the rows of a source. [`BootstrapVisit::next_query`] tells what to read, and
/// [`BootstrapVisit::feed`] takes the rows.
pub struct BootstrapVisit {
    path: TraceBootstrapAccessPath,
    probes: Vec<Value>,
    position: usize,
    rows: Vec<Row>,
    seen: RowIdSet,
    remaining: usize,
}

impl BootstrapVisit {
    /// What the reads have come to.
    pub closed spec fn view(&self) -> VisitView {
        VisitView {
            path: self.path@,
            position: self.position as nat,
            rows: rows_view(self.rows@),
            seen: self.seen@,
            remaining: self.remaining,
        }
    }

    #[verifier::type_invariant]
    spec fn consistent(self) -> bool {
        &&& values_view(self.probes@) == self.path@.probes()
        &&& self.position <= self.path@.read_count()
    }

    /// Starts to read a source.
    pub fn new(path: TraceBootstrapAccessPath) -> (result: Self)
        ensures
            result@ == VisitView::begun(path@),
    {
        let mut probes: Vec<Value> = Vec::new();
        let mut remaining = usize::MAX;
        match &path {
            TraceBootstrapAccessPath::IndexGet { key, limit, .. } => {
                probes = trace_bootstrap_sql_point_lookup_keys(key);
                if let Some(limit) = limit {
                    remaining = *limit;
                }
            },
            TraceBootstrapAccessPath::IndexInGet { keys, .. } => {
                let ghost views = values_view(keys@);
                let mut i: usize = 0;
                assert(views.take(0) =~= Seq::empty());
                assert(values_view(probes@) =~= Seq::empty());
                while i < keys.len()
                    invariant
                        i <= keys.len(),
                        views == values_view(keys@),
                        values_view(probes@) == all_lookup_keys(views.take(i as int)),
                    decreases keys.len() - i,
                {
                    let ghost before = values_view(probes@);
                    assert(views.take(i + 1).drop_last() =~= views.take(i as int));
                    assert(views.take(i + 1).last() == keys@[i as int]@);
                    let mut more = trace_bootstrap_sql_point_lookup_keys(&keys[i]);
                    let ghost added = values_view(more@);
                    probes.append(&mut more);
                    assert(values_view(probes@) =~= before + added);
                    i += 1;
                }
                assert(views.take(views.len() as int) =~= views);
            },
            _ => {
                assert(values_view(probes@) =~= Seq::empty());
            },
        }
        let result = BootstrapVisit {
            path,
            probes,
            position: 0,
            rows: Vec::new(),
            seen: RowIdSet::new(),
            remaining,
        };
        assert(result@ =~= VisitView::begun(path@));
        result
    }

    /// The next read, if there is one.
    pub fn next_query(&self) -> (query: Option<StoreQuery>)
        ensures
            match self@.next() {
                Some(expected) => query is Some && query->0@ == expected,
                None => query is None,
            },
    {
        proof {
            use_type_invariant(self);
            assert(values_view(self.probes@).len() == self.probes@.len());
        }
        match &self.path {
            TraceBootstrapAccessPath::IndexGet { index, limit, .. } => {
                if self.position >= self.probes.len() || (limit.is_some() && self.remaining == 0) {
                    return None;
                }
                Some(
                    StoreQuery::Scan {
                        index: index.clone(),
                        range: Some(KeyRange::Only(self.probes[self.position].clone())),
                        limit: if limit.is_some() {
                            Some(self.remaining)
                        } else {
                            None
                        },
                        offset: 0,
                        reverse: false,
                    },
                )
            },
            TraceBootstrapAccessPath::IndexInGet { index, .. } => {
                if self.position >= self.probes.len() {
                    return None;
                }
                Some(
                    StoreQuery::Scan {
                        index: index.clone(),
                        range: Some(KeyRange::Only(self.probes[self.position].clone())),
                        limit: None,
                        offset: 0,
                        reverse: false,
                    },
                )
            },
            path => {
                if self.position >= 1 {
                    return None;
                }
                Some(single_read(path))
            },
        }
    }

    /// Takes the rows of the next read.
    pub fn feed(&mut self, rows: Vec<Row>)
        requires
            old(self)@.next() is Some,
        ensures
            final(self)@ == old(self)@.fed(rows_view(rows@)),
    {
        let probe_count = self.probes.len();
        proof {
            use_type_invariant(&*self);
            assert(values_view(self.probes@).len() == probe_count);
            assert(self.position < usize::MAX);
        }
        let ghost start = self@;
        let ghost views = rows_view(rows@);
        let lookup = match &self.path {
            TraceBootstrapAccessPath::IndexGet { .. } => true,
            TraceBootstrapAccessPath::IndexInGet { .. } => true,
            _ => false,
        };
        let limited = match &self.path {
            TraceBootstrapAccessPath::IndexGet { limit, .. } => limit.is_some(),
            _ => false,
        };
        let position = self.position;
        let mut taken: Vec<Row> = Vec::new();
        let mut seen = RowIdSet::new();
        let mut remaining = self.remaining;
        core::mem::swap(&mut self.rows, &mut taken);
        core::mem::swap(&mut self.seen, &mut seen);
        if lookup {
            let mut i: usize = 0;
            assert(views.take(0) =~= Seq::empty());
            while i < rows.len()
                invariant
                    i <= rows.len(),
                    views == rows_view(rows@),
                    start.path.is_lookup(),
                    limited == (start.path.lookup_limit() is Some),
                    start.with_rows(views.take(i as int)) == (VisitView {
                        rows: rows_view(taken@),
                        seen: seen@,
                        remaining,
                        ..start
                    }),
                decreases rows.len() - i,
            {
                let ghost before = rows_view(taken@);
                assert(views.take(i + 1).drop_last() =~= views.take(i as int));
                assert(views.take(i + 1).last() == rows@[i as int]@);
                if !(limited && remaining == 0) && !seen.contains(rows[i].id()) {
                    let _ = seen.insert(rows[i].id());
                    taken.push(rows[i].clone());
                    assert(rows_view(taken@) =~= before.push(rows@[i as int]@));
                    if limited {
                        remaining = remaining - 1;
                    }
                }
                i += 1;
            }
            assert(views.take(views.len() as int) =~= views);
        } else {
            let ghost before = rows_view(taken@);
            let mut rows = rows;
            taken.append(&mut rows);
            assert(rows_view(taken@) =~= before + views);
        }
        self.rows = taken;
        self.seen = seen;
        self.remaining = remaining;
        self.position = position + 1;
        assert(self@ =~= start.fed(views));
    }

    /// Adds the rows that were read to a slot, behind those that it holds.
    pub fn append_to(&self, slot: &mut Vec<Row>)
        ensures
            rows_view(final(slot)@) == rows_view(old(slot)@) + self@.rows,
    {
        let ghost held = rows_view(slot@);
        let mut rows = clone_rows(self.rows.as_slice());
        let ghost added = rows_view(rows@);
        slot.append(&mut rows);
        assert(rows_view(slot@) =~= held + added);
    }

    /// The rows that were read.
    pub fn rows(&self) -> (rows: &[Row])
        ensures
            rows_view(rows@) == self@.rows,
    {
        self.rows.as_slice()
    }
}

fn single_read(path: &TraceBootstrapAccessPath) -> (query: StoreQuery)
    requires
        !path@.is_lookup(),
    ensures
        forall|remaining: usize| query@ == #[trigger] path@.read(0, remaining),
{
    match path {
        TraceBootstrapAccessPath::IndexScanScalar { index, range, limit, offset, reverse } =>
        StoreQuery::Scan {
            index: index.clone(),
            range: match range {
                Some(range) => Some(clone_scalar_range(range)),
                None => None,
            },
            limit: *limit,
            offset: *offset,
            reverse: *reverse,
        },
        TraceBootstrapAccessPath::IndexScanComposite { index, range, limit, offset, reverse } =>
        StoreQuery::CompositeScan {
            index: index.clone(),
            range: match range {
                Some(range) => Some(clone_composite_range(range)),
                None => None,
            },
            limit: *limit,
            offset: *offset,
            reverse: *reverse,
        },
        TraceBootstrapAccessPath::GinKeyValue { index, key, value } => StoreQuery::GinKeyValue {
            index: index.clone(),
            key: key.clone(),
            value: value.clone(),
        },
        TraceBootstrapAccessPath::GinKey { index, key } => StoreQuery::GinKey {
            index: index.clone(),
            key: key.clone(),
        },
        TraceBootstrapAccessPath::GinMulti { index, pairs, match_all } => if *match_all {
            StoreQuery::GinAll { index: index.clone(), pairs: clone_pairs(pairs.as_slice()) }
        } else {
            StoreQuery::GinAny { index: index.clone(), pairs: clone_pairs(pairs.as_slice()) }
        },
        _ => StoreQuery::All,
    }
}

/// The sum of costs, which stops at the largest number.
pub open spec fn cost_sum(costs: Seq<usize>) -> int
    decreases costs.len(),
{
    if costs.len() == 0 {
        0
    } else {
        let sum = cost_sum(costs.drop_last()) + costs.last();
        if sum <= usize::MAX {
            sum
        } else {
            usize::MAX as int
        }
    }
}

/// The smallest cost.
pub open spec fn smallest_cost(costs: Seq<usize>) -> Option<usize>
    decreases costs.len(),
{
    if costs.len() == 0 {
        None
    } else {
        match smallest_cost(costs.drop_last()) {
            Some(cost) => Some(
                if costs.last() < cost {
                    costs.last()
                } else {
                    cost
                },
            ),
            None => Some(costs.last()),
        }
    }
}

/// How many rows a source is expected to give. `costs` are the costs of the keys that an inverted
/// index looks up.
pub open spec fn expected_rows(path: AccessPathView, row_count: usize, costs: Seq<usize>) -> Option<
    usize,
> {
    match path {
        AccessPathView::FullScan => Some(row_count),
        AccessPathView::IndexScanScalar { limit, .. } => limit,
        AccessPathView::IndexScanComposite { limit, .. } => limit,
        AccessPathView::IndexGet { limit, .. } => Some(
            match limit {
                Some(limit) => limit,
                None => 1,
            },
        ),
        AccessPathView::IndexInGet { keys, .. } => Some(keys.len() as usize),
        AccessPathView::GinKeyValue { .. } => smallest_cost(costs),
        AccessPathView::GinKey { .. } => smallest_cost(costs),
        AccessPathView::GinMulti { match_all, .. } => if match_all {
            smallest_cost(costs)
        } else {
            Some(
                if cost_sum(costs) < row_count {
                    cost_sum(costs) as usize
                } else {
                    row_count
                },
            )
        },
    }
}

/// How many rows a source is expected to give. `costs` holds one cost for each key, or pair of
/// key and value, that an inverted index looks up.
pub fn trace_bootstrap_slot_capacity_hint(
    path: &TraceBootstrapAccessPath,
    row_count: usize,
    costs: &[usize],
) -> (hint: Option<usize>)
    ensures
        hint == expected_rows(path@, row_count, costs@),
{
    let mut sum: usize = 0;
    let mut smallest: Option<usize> = None;
    let mut i: usize = 0;
    assert(costs@.take(0) =~= Seq::empty());
    while i < costs.len()
        invariant
            i <= costs.len(),
            sum == cost_sum(costs@.take(i as int)),
            smallest == smallest_cost(costs@.take(i as int)),
        decreases costs.len() - i,
    {
        assert(costs@.take(i + 1).drop_last() =~= costs@.take(i as int));
        assert(costs@.take(i + 1).last() == costs@[i as int]);
        sum = sum.saturating_add(costs[i]);
        smallest = Some(
            match smallest {
                Some(cost) => if costs[i] < cost {
                    costs[i]
                } else {
                    cost
                },
                None => costs[i],
            },
        );
        i += 1;
    }
    assert(costs@.take(costs@.len() as int) =~= costs@);
    match path {
        TraceBootstrapAccessPath::FullScan => Some(row_count),
        TraceBootstrapAccessPath::IndexScanScalar { limit, .. } => *limit,
        TraceBootstrapAccessPath::IndexScanComposite { limit, .. } => *limit,
        TraceBootstrapAccessPath::IndexGet { limit, .. } => match limit {
            Some(limit) => Some(*limit),
            None => Some(1),
        },
        TraceBootstrapAccessPath::IndexInGet { keys, .. } => {
            assert(values_view(keys@).len() == keys@.len());
            Some(keys.len())
        },
        TraceBootstrapAccessPath::GinKeyValue { .. } => smallest,
        TraceBootstrapAccessPath::GinKey { .. } => smallest,
        TraceBootstrapAccessPath::GinMulti { match_all, .. } => if *match_all {
            smallest
        } else if sum < row_count {
            Some(sum)
        } else {
            Some(row_count)
        },
    }
}

/// Which sources have an access path that covers the filter of the source.
pub fn source_filter_coverage(bindings: &[TraceBootstrapSourceBinding]) -> (coverage: Vec<bool>)
    ensures
        coverage@ == bindings_view(bindings@).map_values(
            |binding: BindingView| binding.covers_source_filter,
        ),
{
    let mut coverage: Vec<bool> = Vec::new();
    let mut i: usize = 0;
    while i < bindings.len()
        invariant
            i <= bindings.len(),
            coverage.len() == i,
            forall|j: int| 0 <= j < i ==> coverage@[j] == bindings@[j].covers_source_filter,
        decreases bindings.len() - i,
    {
        coverage.push(bindings[i].covers_source_filter);
        i += 1;
    }
    assert(coverage@ =~= bindings_view(bindings@).map_values(
        |binding: BindingView| binding.covers_source_filter,
    ));
    coverage
}

/// The tables of the sources.
pub open spec fn source_tables(bindings: Seq<BindingView>) -> Set<u64> {
    bindings.map_values(|binding: BindingView| binding.table_id as u64).to_set()
}

/// The number of different tables of the sources.
pub fn source_table_count(bindings: &[TraceBootstrapSourceBinding]) -> (count: usize)
    ensures
        count == source_tables(bindings_view(bindings@)).len(),
{
    let mut ids: Vec<u64> = Vec::new();
    let mut i: usize = 0;
    while i < bindings.len()
        invariant
            i <= bindings.len(),
            ids.len() == i,
            forall|j: int| 0 <= j < i ==> ids@[j] == bindings@[j].table_id as u64,
        decreases bindings.len() - i,
    {
        ids.push(bindings[i].table_id as u64);
        i += 1;
    }
    assert(ids@ =~= bindings_view(bindings@).map_values(
        |binding: BindingView| binding.table_id as u64,
    ));
    RowIdSet::from_list(ids.as_slice()).len()
}

/// The tables that a graph reads, from left to right.
pub open spec fn graph_sources(node: NodeView) -> Seq<TableId>
    decreases node,
{
    match node {
        NodeView::Source { table_id } => seq![table_id],
        NodeView::Filter { input, .. } => graph_sources(*input),
        NodeView::Project { input, .. } => graph_sources(*input),
        NodeView::Compute { input, .. } => graph_sources(*input),
        NodeView::Join { left, right, .. } => graph_sources(*left) + graph_sources(*right),
        NodeView::Aggregate { input, .. } => graph_sources(*input),
    }
}

/// Every leaf of a plan reads a table.
pub open spec fn reads_tables(plan: PhysicalPlan) -> bool
    decreases plan,
{
    match plan {
        PhysicalPlan::Empty => false,
        PhysicalPlan::Filter { input, .. } => reads_tables(*input),
        PhysicalPlan::Project { input, .. } => reads_tables(*input),
        PhysicalPlan::HashAggregate { input, .. } => reads_tables(*input),
        PhysicalPlan::NoOp { input } => reads_tables(*input),
        PhysicalPlan::HashJoin { left, right, .. } => reads_tables(*left) && reads_tables(*right),
        PhysicalPlan::SortMergeJoin { left, right, .. } => reads_tables(*left) && reads_tables(
            *right,
        ),
        PhysicalPlan::NestedLoopJoin { left, right, .. } => reads_tables(*left) && reads_tables(
            *right,
        ),
        PhysicalPlan::CrossProduct { left, right } => reads_tables(*left) && reads_tables(*right),
        PhysicalPlan::IndexNestedLoopJoin { outer, .. } => reads_tables(*outer),
        _ => true,
    }
}

/// Tables that are registered have their registered identifiers.
pub open spec fn keeps_registered(ids: ResolverView) -> bool {
    forall|table: Seq<char>| #[trigger]
        ids.used.dom().contains(table) && ids.existing.dom().contains(table) ==> ids.used[table]
            == ids.existing[table]
}

/// The tables of sources are registered.
pub open spec fn all_registered(
    sources: Seq<SourceView>,
    existing: Map<Seq<char>, TableId>,
) -> bool {
    forall|i: int|
        0 <= i < sources.len() ==> existing.dom().contains((#[trigger] sources[i]).table_name)
}

/// The identifiers of the tables of sources.
pub open spec fn source_ids(
    sources: Seq<SourceView>,
    existing: Map<Seq<char>, TableId>,
) -> Seq<TableId> {
    sources.map_values(|source: SourceView| existing[source.table_name])
}

proof fn lemma_registered_parts(
    left: Seq<SourceView>,
    right: Seq<SourceView>,
    existing: Map<Seq<char>, TableId>,
)
    requires
        all_registered(left + right, existing),
    ensures
        all_registered(left, existing),
        all_registered(right, existing),
        source_ids(left + right, existing) == source_ids(left, existing) + source_ids(
            right,
            existing,
        ),
{
    let both = left + right;
    assert forall|i: int| 0 <= i < left.len() implies existing.dom().contains(
        (#[trigger] left[i]).table_name,
    ) by {
        assert(both[i] == left[i]);
    }
    assert forall|i: int| 0 <= i < right.len() implies existing.dom().contains(
        (#[trigger] right[i]).table_name,
    ) by {
        assert(both[left.len() + i] == right[i]);
    }
    assert(source_ids(both, existing) =~= source_ids(left, existing) + source_ids(
        right,
        existing,
    ));
}

proof fn lemma_source_is_read(table: Seq<char>, ids: ResolverView, schemas: SchemaCatalog)
    requires
        keeps_registered(ids),
        ids.existing.dom().contains(table),
    ensures
        keeps_registered(source_result(table, ids, schemas).1),
        source_result(table, ids, schemas).1.existing == ids.existing,
        source_result(table, ids, schemas).0 matches Some(compiled) ==> graph_sources(compiled.node)
            == seq![ids.existing[table]],
{
}

proof fn lemma_filtered_source_is_read(
    source: SourceView,
    predicate: Option<ExprView>,
    ids: ResolverView,
    schemas: SchemaCatalog,
)
    requires
        keeps_registered(ids),
        all_registered(seq![source], ids.existing),
    ensures
        ({
            let (compiled, after) = filtered_source_result(
                source.table_name,
                predicate,
                ids,
                schemas,
            );
            &&& keeps_registered(after)
            &&& after.existing == ids.existing
            &&& compiled matches Some(compiled) ==> graph_sources(compiled.node) == source_ids(
                seq![source],
                ids.existing,
            )
        }),
{
    assert(seq![source][0] == source);
    lemma_source_is_read(source.table_name, ids, schemas);
    assert(source_ids(seq![source], ids.existing) =~= seq![ids.existing[source.table_name]]);
    reveal_with_fuel(graph_sources, 2);
}

proof fn lemma_join_reads_both(
    left: CompiledView,
    right: CompiledView,
    condition: ExprView,
    join_type: JoinType,
    output_tables: Seq<Seq<char>>,
)
    ensures
        graph_sources(join_result(left, right, condition, join_type, output_tables).node)
            == graph_sources(left.node) + graph_sources(right.node),
{
    reveal_with_fuel(graph_sources, 3);
}

#[verifier::rlimit(60)]
#[verifier::spinoff_prover]
proof fn lemma_graph_reads_sources(plan: PhysicalPlan, ids: ResolverView, schemas: SchemaCatalog)
    requires
        keeps_registered(ids),
        reads_tables(plan),
        all_registered(sources(plan, schemas), ids.existing),
    ensures
        keeps_registered(plan_result(plan, ids, schemas).1),
        plan_result(plan, ids, schemas).1.existing == ids.existing,
        plan_result(plan, ids, schemas).0 matches Some(compiled) ==> graph_sources(compiled.node)
            == source_ids(sources(plan, schemas), ids.existing),
    decreases plan,
{
    match plan {
        PhysicalPlan::TableScan { table } => {
            lemma_filtered_source_is_read(full_scan(table@), None, ids, schemas);
        },
        PhysicalPlan::IndexScan { table, index, bounds, .. } => {
            let source = sources(plan, schemas)[0];
            assert(sources(plan, schemas) =~= seq![source]);
            if let Some(columns) = index_columns_of(schemas, table@, index@) {
                if let Ok(predicate) = index_scan_predicate(table@, columns, bounds) {
                    lemma_filtered_source_is_read(source, predicate, ids, schemas);
                }
            }
        },
        PhysicalPlan::IndexGet { table, index, key, .. } => {
            let source = sources(plan, schemas)[0];
            assert(sources(plan, schemas) =~= seq![source]);
            if let Some(columns) = index_columns_of(schemas, table@, index@) {
                lemma_filtered_source_is_read(
                    source,
                    Some(
                        binary_view(
                            column_view(table@, columns[0]),
                            BinaryOp::Eq,
                            ExprView::Literal(key@),
                        ),
                    ),
                    ids,
                    schemas,
                );
            }
        },
        PhysicalPlan::IndexInGet { table, index, keys } => {
            let source = sources(plan, schemas)[0];
            assert(sources(plan, schemas) =~= seq![source]);
            if let Some(columns) = index_columns_of(schemas, table@, index@) {
                lemma_filtered_source_is_read(
                    source,
                    Some(
                        ExprView::In {
                            expr: Box::new(column_view(table@, columns[0])),
                            list: values_view(keys@).map_values(
                                |key: ValueView| ExprView::Literal(key),
                            ),
                        },
                    ),
                    ids,
                    schemas,
                );
            }
        },
        PhysicalPlan::GinIndexScan { recheck, .. } => {
            let source = sources(plan, schemas)[0];
            assert(sources(plan, schemas) =~= seq![source]);
            if let Some(recheck) = recheck {
                lemma_filtered_source_is_read(source, Some(recheck@), ids, schemas);
            }
        },
        PhysicalPlan::GinIndexScanMulti { recheck, .. } => {
            let source = sources(plan, schemas)[0];
            assert(sources(plan, schemas) =~= seq![source]);
            if let Some(recheck) = recheck {
                lemma_filtered_source_is_read(source, Some(recheck@), ids, schemas);
            }
        },
        PhysicalPlan::Filter { input, .. } => {
            lemma_graph_reads_sources(*input, ids, schemas);
        },
        PhysicalPlan::Project { input, .. } => {
            lemma_graph_reads_sources(*input, ids, schemas);
        },
        PhysicalPlan::HashAggregate { input, .. } => {
            lemma_graph_reads_sources(*input, ids, schemas);
        },
        PhysicalPlan::NoOp { input } => {
            lemma_graph_reads_sources(*input, ids, schemas);
        },
        PhysicalPlan::HashJoin { left, right, condition, join_type, output_tables } => {
            lemma_registered_parts(
                sources(*left, schemas),
                sources(*right, schemas),
                ids.existing,
            );
            let (first, after) = plan_result(*left, ids, schemas);
            lemma_graph_reads_sources(*left, ids, schemas);
            lemma_graph_reads_sources(*right, after, schemas);
            if let (Some(l), Some(r)) = (first, plan_result(*right, after, schemas).0) {
                lemma_join_reads_both(l, r, condition@, join_type, names_view(output_tables@));
            }
        },
        PhysicalPlan::SortMergeJoin { left, right, condition, join_type, output_tables } => {
            lemma_registered_parts(
                sources(*left, schemas),
                sources(*right, schemas),
                ids.existing,
            );
            let (first, after) = plan_result(*left, ids, schemas);
            lemma_graph_reads_sources(*left, ids, schemas);
            lemma_graph_reads_sources(*right, after, schemas);
            if let (Some(l), Some(r)) = (first, plan_result(*right, after, schemas).0) {
                lemma_join_reads_both(l, r, condition@, join_type, names_view(output_tables@));
            }
        },
        PhysicalPlan::NestedLoopJoin { left, right, condition, join_type, output_tables } => {
            lemma_registered_parts(
                sources(*left, schemas),
                sources(*right, schemas),
                ids.existing,
            );
            let (first, after) = plan_result(*left, ids, schemas);
            lemma_graph_reads_sources(*left, ids, schemas);
            lemma_graph_reads_sources(*right, after, schemas);
            if let (Some(l), Some(r)) = (first, plan_result(*right, after, schemas).0) {
                lemma_join_reads_both(l, r, condition@, join_type, names_view(output_tables@));
            }
        },
        PhysicalPlan::CrossProduct { left, right } => {
            lemma_registered_parts(
                sources(*left, schemas),
                sources(*right, schemas),
                ids.existing,
            );
            lemma_graph_reads_sources(*left, ids, schemas);
            lemma_graph_reads_sources(*right, plan_result(*left, ids, schemas).1, schemas);
        },
        PhysicalPlan::IndexNestedLoopJoin {
            outer,
            inner_table,
            condition,
            join_type,
            outer_is_left,
            output_tables,
            ..
        } => {
            let inner = seq![full_scan(inner_table@)];
            if outer_is_left {
                lemma_registered_parts(sources(*outer, schemas), inner, ids.existing);
            } else {
                lemma_registered_parts(inner, sources(*outer, schemas), ids.existing);
            }
            lemma_graph_reads_sources(*outer, ids, schemas);
            let (first, after) = plan_result(*outer, ids, schemas);
            if let Some(o) = first {
                assert(inner[0].table_name == inner_table@);
                lemma_source_is_read(inner_table@, after, schemas);
                assert(source_ids(inner, ids.existing) =~= seq![ids.existing[inner_table@]]);
                if let Some(i) = source_result(inner_table@, after, schemas).0 {
                    let (l, r) = if outer_is_left {
                        (o, i)
                    } else {
                        (i, o)
                    };
                    lemma_join_reads_both(l, r, condition@, join_type, names_view(output_tables@));
                }
            }
        },
        _ => {},
    }
}

proof fn lemma_bound_ids(sources: Seq<SourceView>, existing: Map<Seq<char>, TableId>)
    requires
        all_registered(sources, existing),
    ensures
        with_sources(Seq::empty(), sources, existing).map_values(
            |binding: BindingView| binding.table_id,
        ) == source_ids(sources, existing),
    decreases sources.len(),
{
    let bound = with_sources(Seq::empty(), sources, existing);
    if sources.len() > 0 {
        let shorter = sources.drop_last();
        assert forall|i: int| 0 <= i < shorter.len() implies existing.dom().contains(
            (#[trigger] shorter[i]).table_name,
        ) by {
            assert(shorter[i] == sources[i]);
        }
        lemma_bound_ids(shorter, existing);
        let before = with_sources(Seq::empty(), shorter, existing);
        let ids = before.map_values(|binding: BindingView| binding.table_id);
        assert(sources[sources.len() - 1] == sources.last());
        assert(bound == before.push(bound.last()));
        assert(bound.map_values(|binding: BindingView| binding.table_id) =~= ids.push(
            existing[sources.last().table_name],
        ));
        assert(source_ids(sources, existing) =~= source_ids(shorter, existing).push(
            existing[sources.last().table_name],
        ));
    } else {
        assert(bound.map_values(|binding: BindingView| binding.table_id) =~= source_ids(
            sources,
            existing,
        ));
    }
}

/// The sources that a maintained query is started from are those that its graph reads, in the same
/// order, if all its tables are registered and every leaf of its plan reads a table.
pub proof fn law_sources_follow_graph(
    plan: PhysicalPlan,
    ids: ResolverView,
    schemas: SchemaCatalog,
)
    requires
        keeps_registered(ids),
        reads_tables(plan),
        all_registered(sources(plan, schemas), ids.existing),
        plan_result(plan, ids, schemas).0 is Some,
    ensures
        with_sources(Seq::empty(), sources(plan, schemas), ids.existing).map_values(
            |binding: BindingView| binding.table_id,
        ) == graph_sources(plan_result(plan, ids, schemas).0->0.node),
{
    lemma_graph_reads_sources(plan, ids, schemas);
    lemma_bound_ids(sources(plan, schemas), ids.existing);
}

/// Two values are the same number, in whatever width, or the same value.
pub open spec fn same_number(left: ValueView, right: ValueView) -> bool {
    left == right || (whole_number(left) is Some && whole_number(left) == whole_number(right))
}

proof fn lemma_lookup_keys(key: ValueView, value: ValueView)
    ensures
        lookup_keys(key).contains(value) <==> same_number(key, value),
        lookup_keys(key).len() >= 1,
        lookup_keys(key)[0] == key,
{
    let keys = lookup_keys(key);
    if keys.contains(value) {
        let i = keys.index_of(value);
        assert(i == 0 || i == 1);
    }
    if same_number(key, value) {
        if key == value {
            assert(keys[0] == value);
        } else {
            assert(keys[1] == value);
        }
    }
}

proof fn lemma_all_lookup_keys(keys: Seq<ValueView>, value: ValueView)
    ensures
        all_lookup_keys(keys).contains(value) <==> exists|i: int|
            0 <= i < keys.len() && same_number(#[trigger] keys[i], value),
    decreases keys.len(),
{
    if keys.len() > 0 {
        let front = keys.drop_last();
        let last = keys.len() - 1;
        let before = all_lookup_keys(front);
        let added = lookup_keys(keys.last());
        let all = before + added;
        lemma_all_lookup_keys(front, value);
        lemma_lookup_keys(keys.last(), value);
        assert(forall|i: int| 0 <= i < last ==> front[i] == keys[i]);
        assert(keys[last] == keys.last());
        if before.contains(value) {
            assert(all[before.index_of(value)] == value);
            let i = choose|i: int| 0 <= i < front.len() && same_number(#[trigger] front[i], value);
            assert(same_number(keys[i], value));
        }
        if added.contains(value) {
            assert(all[before.len() + added.index_of(value)] == value);
        }
        if all.contains(value) {
            let k = all.index_of(value);
            if k < before.len() {
                assert(before[k] == value);
            } else {
                assert(added[k - before.len()] == value);
            }
        }
        if exists|i: int| 0 <= i < keys.len() && same_number(#[trigger] keys[i], value) {
            let i = choose|i: int| 0 <= i < keys.len() && same_number(#[trigger] keys[i], value);
            if i < last {
                assert(same_number(front[i], value));
            }
        }
    }
}

/// A lookup of keys reads just the entries of an index that are one of the keys: the key itself, and
/// for an integer the same number in the other width. It reads each entry whole, but for a limit.
pub proof fn law_lookups_read_the_entries_of_their_keys(path: AccessPathView, value: ValueView)
    requires
        path.is_lookup(),
    ensures
        path.probes().contains(value) <==> (path matches AccessPathView::IndexGet { key, .. }
            && same_number(key, value)) || (path matches AccessPathView::IndexInGet { keys, .. }
            && exists|i: int| 0 <= i < keys.len() && same_number(#[trigger] keys[i], value)),
        path.read_count() == path.probes().len(),
        forall|position: int, remaining: usize|
            #![trigger path.read(position, remaining)]
            0 <= position < path.read_count() ==> {
                &&& path.read(position, remaining) matches QueryView::Scan {
                    index,
                    range,
                    limit,
                    offset,
                    reverse,
                }
                &&& range == Some(KeyRange::Only(path.probes()[position]))
                &&& offset == 0
                &&& !reverse
                &&& path matches AccessPathView::IndexGet { index: named, limit: most, .. } ==> index
                    == named && (limit is Some <==> most is Some) && (limit is Some ==> limit->0
                    == remaining)
                &&& path matches AccessPathView::IndexInGet { index: named, .. } ==> index == named
                    && limit is None
            },
{
    match path {
        AccessPathView::IndexGet { key, .. } => {
            lemma_lookup_keys(key, value);
        },
        AccessPathView::IndexInGet { keys, .. } => {
            lemma_all_lookup_keys(keys, value);
        },
        _ => {},
    }
}

/// Any other path takes one read: all rows, a scan of the index with the range, the limit, the
/// offset and the direction of the path, or the keys or pairs of the path in an inverted index, all
/// of them or any of them as the path says.
pub proof fn law_other_paths_take_one_read(path: AccessPathView, remaining: usize)
    requires
        !path.is_lookup(),
    ensures
        path.read_count() == 1,
        path is FullScan <==> path.read(0, remaining) is All,
        path.read(0, remaining) matches QueryView::Scan { index, range, limit, offset, reverse }
            ==> path == (AccessPathView::IndexScanScalar { index, range, limit, offset, reverse }),
        path.read(0, remaining) matches QueryView::CompositeScan {
            index,
            range,
            limit,
            offset,
            reverse,
        } ==> path == (AccessPathView::IndexScanComposite { index, range, limit, offset, reverse }),
        path.read(0, remaining) matches QueryView::GinKeyValue { index, key, value } ==> path == (
        AccessPathView::GinKeyValue { index, key, value }),
        path.read(0, remaining) matches QueryView::GinKey { index, key } ==> path == (
        AccessPathView::GinKey { index, key }),
        path.read(0, remaining) matches QueryView::GinAll { index, pairs } ==> path == (
        AccessPathView::GinMulti { index, pairs, match_all: true }),
        path.read(0, remaining) matches QueryView::GinAny { index, pairs } ==> path == (
        AccessPathView::GinMulti { index, pairs, match_all: false }),
{
}

/// A scan of an index keeps its limit, direction and bounds, and starts at the front without an
/// offset. It is a scan of composite keys just if its bounds are, or if without bounds its index has
/// more than one column.
pub proof fn law_scans_keep_their_window(
    schema: Option<Table>,
    index: Seq<char>,
    bounds: IndexBounds,
    limit: Option<usize>,
    offset: Option<usize>,
    reverse: bool,
)
    ensures
        ({
            let path = scan_path(schema, index, bounds, limit, offset, reverse);
            &&& path matches AccessPathView::IndexScanScalar {
                index: named,
                range,
                limit: most,
                offset: start,
                reverse: backwards,
            } ==> {
                &&& named == index && most == limit && backwards == reverse
                &&& offset is Some ==> start == offset->0
                &&& offset is None ==> start == 0
                &&& bounds is Scalar || (bounds is Unbounded && !is_composite(schema, index))
                &&& range is None <==> bounds is Unbounded
                &&& bounds matches IndexBounds::Scalar(given) ==> range == Some(
                    scalar_range_view(given),
                )
            }
            &&& path matches AccessPathView::IndexScanComposite {
                index: named,
                range,
                limit: most,
                offset: start,
                reverse: backwards,
            } ==> {
                &&& named == index && most == limit && backwards == reverse
                &&& offset is Some ==> start == offset->0
                &&& offset is None ==> start == 0
                &&& bounds is Composite || (bounds is Unbounded && is_composite(schema, index))
                &&& range is None <==> bounds is Unbounded
                &&& bounds matches IndexBounds::Composite(given) ==> range == Some(
                    composite_range_view(given),
                )
            }
            &&& path is IndexScanScalar || path is IndexScanComposite
        }),
{
}

/// An inverted index is read by key and value for an equality with a value, by key for a test of
/// part or presence, and not at all for anything else: then all rows are read.
pub proof fn law_inverted_indexes_serve_their_queries(
    index: Seq<char>,
    key: Seq<char>,
    value: Option<Seq<char>>,
    query_type: Seq<char>,
)
    ensures
        ({
            let path = gin_path(index, key, value, query_type);
            &&& path matches AccessPathView::GinKeyValue { index: named, key: found, value: text }
                ==> named == index && found == key && value == Some(text) && query_type == "eq"@
            &&& path matches AccessPathView::GinKey { index: named, key: found } ==> named == index
                && found == key && (query_type == "contains"@ || query_type == "exists"@)
            &&& query_type == "eq"@ && value is Some ==> path is GinKeyValue
            &&& query_type == "contains"@ ==> path is GinKey
            &&& query_type == "exists"@ ==> path is GinKey
            &&& path is GinKeyValue || path is GinKey || path is FullScan
            &&& query_type != "eq"@ && query_type != "contains"@ && query_type != "exists"@
                ==> path is FullScan
            &&& query_type == "eq"@ && value is None ==> path is FullScan
        }),
{
    reveal_strlit("eq");
    reveal_strlit("contains");
    reveal_strlit("exists");
    assert("eq"@.len() == 2);
    assert("contains"@.len() == 8);
    assert("exists"@.len() == 6);
}

/// The smallest cost is one of the costs, and none is smaller. The sum of costs is their sum as far
/// as a number can hold it.
pub proof fn law_costs_are_added_and_compared(costs: Seq<usize>, at: int, more: usize)
    ensures
        smallest_cost(costs) is None <==> costs.len() == 0,
        smallest_cost(costs) matches Some(cost) ==> costs.contains(cost) && (0 <= at < costs.len()
            ==> cost <= costs[at]),
        cost_sum(Seq::empty()) == 0,
        0 <= cost_sum(costs) <= usize::MAX,
        cost_sum(costs) + more <= usize::MAX ==> cost_sum(costs.push(more)) == cost_sum(costs)
            + more,
        cost_sum(costs) + more > usize::MAX ==> cost_sum(costs.push(more)) == usize::MAX,
    decreases costs.len(),
{
    assert(costs.push(more).drop_last() =~= costs);
    if costs.len() > 0 {
        let front = costs.drop_last();
        let last = costs.len() - 1;
        law_costs_are_added_and_compared(front, at, more);
        assert(costs[last] == costs.last());
        if let Some(cost) = smallest_cost(front) {
            assert(costs[front.index_of(cost)] == cost);
        }
        if 0 <= at < last {
            assert(front[at] == costs[at]);
        }
        if front.len() == 0 {
            assert(smallest_cost(front) is None);
        }
    }
}

/// A source is expected to give no more rows than its limit, one row for each key that is looked up,
/// all rows of a table that is read whole, and of an inverted index no more than what its cheapest
/// key gives where all keys must match.
pub proof fn law_sources_expect_their_rows(
    path: AccessPathView,
    row_count: usize,
    costs: Seq<usize>,
    at: int,
)
    ensures
        path is FullScan ==> expected_rows(path, row_count, costs) == Some(row_count),
        path matches AccessPathView::IndexScanScalar { limit, .. } ==> expected_rows(
            path,
            row_count,
            costs,
        ) == limit,
        path matches AccessPathView::IndexScanComposite { limit, .. } ==> expected_rows(
            path,
            row_count,
            costs,
        ) == limit,
        path matches AccessPathView::IndexGet { limit, .. } ==> (limit is Some ==> expected_rows(
            path,
            row_count,
            costs,
        ) == limit) && (limit is None ==> expected_rows(path, row_count, costs) == Some(1usize)),
        path matches AccessPathView::IndexInGet { keys, .. } ==> (keys.len() <= usize::MAX
            ==> expected_rows(path, row_count, costs)->0 == keys.len()),
        path matches AccessPathView::GinMulti { match_all, .. } ==> {
            &&& !match_all ==> expected_rows(path, row_count, costs) is Some && expected_rows(
                path,
                row_count,
                costs,
            )->0 <= row_count && expected_rows(path, row_count, costs)->0 <= cost_sum(costs)
            &&& match_all && 0 <= at < costs.len() ==> expected_rows(path, row_count, costs) is Some
                && expected_rows(path, row_count, costs)->0 <= costs[at]
        },
        (path is GinKey || path is GinKeyValue) && 0 <= at < costs.len() ==> expected_rows(
            path,
            row_count,
            costs,
        ) is Some && expected_rows(path, row_count, costs)->0 <= costs[at] && costs.contains(
            expected_rows(path, row_count, costs)->0,
        ),
{
    law_costs_are_added_and_compared(costs, at, 0);
}

} // verus!
