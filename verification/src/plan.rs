//! Physical query plans.
use vstd::prelude::*;

use crate::expr::{AggregateFunc, Expr};
use crate::value::{clone_values, values_view, Value, ValueView};

verus! {

/// A range of index keys.
#[derive(Debug)]
#[allow(inconsistent_fields)]
pub enum KeyRange<K> {
    All,
    Only(K),
    LowerBound { value: K, exclusive: bool },
    UpperBound { value: K, exclusive: bool },
    Bound { lower: K, upper: K, lower_exclusive: bool, upper_exclusive: bool },
}

/// The keys that an index scan covers.
#[derive(Debug)]
pub enum IndexBounds {
    Unbounded,
    Scalar(KeyRange<Value>),
    Composite(KeyRange<Vec<Value>>),
}

/// The kinds of joins of a query.
#[derive(Clone, Copy, Debug, PartialEq, Eq, Structural)]
pub enum JoinType {
    Inner,
    Cross,
    LeftOuter,
    RightOuter,
    FullOuter,
}

/// The directions of a sort.
#[derive(Clone, Copy, Debug, PartialEq, Eq, Structural)]
pub enum SortOrder {
    Asc,
    Desc,
}

/// A physical query plan.
#[derive(Debug)]
#[allow(inconsistent_fields)]
pub enum PhysicalPlan {
    TableScan { table: String },
    IndexScan {
        table: String,
        index: String,
        bounds: IndexBounds,
        limit: Option<usize>,
        offset: Option<usize>,
        reverse: bool,
    },
    IndexGet { table: String, index: String, key: Value, limit: Option<usize> },
    IndexInGet { table: String, index: String, keys: Vec<Value> },
    GinIndexScan {
        table: String,
        index: String,
        key: String,
        value: Option<String>,
        query_type: String,
        recheck: Option<Expr>,
    },
    GinIndexScanMulti {
        table: String,
        index: String,
        pairs: Vec<(String, String)>,
        match_all: bool,
        recheck: Option<Expr>,
    },
    Filter { input: Box<PhysicalPlan>, predicate: Expr },
    Project { input: Box<PhysicalPlan>, columns: Vec<Expr> },
    HashJoin {
        left: Box<PhysicalPlan>,
        right: Box<PhysicalPlan>,
        condition: Expr,
        join_type: JoinType,
        output_tables: Vec<String>,
    },
    SortMergeJoin {
        left: Box<PhysicalPlan>,
        right: Box<PhysicalPlan>,
        condition: Expr,
        join_type: JoinType,
        output_tables: Vec<String>,
    },
    NestedLoopJoin {
        left: Box<PhysicalPlan>,
        right: Box<PhysicalPlan>,
        condition: Expr,
        join_type: JoinType,
        output_tables: Vec<String>,
    },
    IndexNestedLoopJoin {
        outer: Box<PhysicalPlan>,
        inner_table: String,
        inner_index: String,
        condition: Expr,
        join_type: JoinType,
        outer_is_left: bool,
        output_tables: Vec<String>,
    },
    CrossProduct { left: Box<PhysicalPlan>, right: Box<PhysicalPlan> },
    Union { left: Box<PhysicalPlan>, right: Box<PhysicalPlan>, all: bool },
    HashAggregate {
        input: Box<PhysicalPlan>,
        group_by: Vec<Expr>,
        aggregates: Vec<(AggregateFunc, Expr)>,
    },
    Sort { input: Box<PhysicalPlan>, order_by: Vec<(Expr, SortOrder)> },
    TopN {
        input: Box<PhysicalPlan>,
        order_by: Vec<(Expr, SortOrder)>,
        limit: usize,
        offset: usize,
    },
    Limit { input: Box<PhysicalPlan>, limit: usize, offset: usize },
    NoOp { input: Box<PhysicalPlan> },
    Empty,
}

/// What a range of scalar keys covers.
pub open spec fn scalar_range_view(range: KeyRange<Value>) -> KeyRange<ValueView> {
    match range {
        KeyRange::All => KeyRange::All,
        KeyRange::Only(key) => KeyRange::Only(key@),
        KeyRange::LowerBound { value, exclusive } => KeyRange::LowerBound {
            value: value@,
            exclusive,
        },
        KeyRange::UpperBound { value, exclusive } => KeyRange::UpperBound {
            value: value@,
            exclusive,
        },
        KeyRange::Bound { lower, upper, lower_exclusive, upper_exclusive } => KeyRange::Bound {
            lower: lower@,
            upper: upper@,
            lower_exclusive,
            upper_exclusive,
        },
    }
}

/// What a range of composite keys covers.
pub open spec fn composite_range_view(range: KeyRange<Vec<Value>>) -> KeyRange<Seq<ValueView>> {
    match range {
        KeyRange::All => KeyRange::All,
        KeyRange::Only(key) => KeyRange::Only(values_view(key@)),
        KeyRange::LowerBound { value, exclusive } => KeyRange::LowerBound {
            value: values_view(value@),
            exclusive,
        },
        KeyRange::UpperBound { value, exclusive } => KeyRange::UpperBound {
            value: values_view(value@),
            exclusive,
        },
        KeyRange::Bound { lower, upper, lower_exclusive, upper_exclusive } => KeyRange::Bound {
            lower: values_view(lower@),
            upper: values_view(upper@),
            lower_exclusive,
            upper_exclusive,
        },
    }
}

/// Copies a range of scalar keys.
pub fn clone_scalar_range(range: &KeyRange<Value>) -> (result: KeyRange<Value>)
    ensures
        scalar_range_view(result) == scalar_range_view(*range),
{
    match range {
        KeyRange::All => KeyRange::All,
        KeyRange::Only(key) => KeyRange::Only(key.clone()),
        KeyRange::LowerBound { value, exclusive } => KeyRange::LowerBound {
            value: value.clone(),
            exclusive: *exclusive,
        },
        KeyRange::UpperBound { value, exclusive } => KeyRange::UpperBound {
            value: value.clone(),
            exclusive: *exclusive,
        },
        KeyRange::Bound { lower, upper, lower_exclusive, upper_exclusive } => KeyRange::Bound {
            lower: lower.clone(),
            upper: upper.clone(),
            lower_exclusive: *lower_exclusive,
            upper_exclusive: *upper_exclusive,
        },
    }
}

/// Copies a range of composite keys.
pub fn clone_composite_range(range: &KeyRange<Vec<Value>>) -> (result: KeyRange<Vec<Value>>)
    ensures
        composite_range_view(result) == composite_range_view(*range),
{
    match range {
        KeyRange::All => KeyRange::All,
        KeyRange::Only(key) => KeyRange::Only(clone_values(key.as_slice())),
        KeyRange::LowerBound { value, exclusive } => KeyRange::LowerBound {
            value: clone_values(value.as_slice()),
            exclusive: *exclusive,
        },
        KeyRange::UpperBound { value, exclusive } => KeyRange::UpperBound {
            value: clone_values(value.as_slice()),
            exclusive: *exclusive,
        },
        KeyRange::Bound { lower, upper, lower_exclusive, upper_exclusive } => KeyRange::Bound {
            lower: clone_values(lower.as_slice()),
            upper: clone_values(upper.as_slice()),
            lower_exclusive: *lower_exclusive,
            upper_exclusive: *upper_exclusive,
        },
    }
}

/// No operator of the plan sorts, limits or keeps the first rows.
pub open spec fn incrementalizable(plan: PhysicalPlan) -> bool
    decreases plan,
{
    match plan {
        PhysicalPlan::Sort { .. } => false,
        PhysicalPlan::TopN { .. } => false,
        PhysicalPlan::Limit { .. } => false,
        PhysicalPlan::Filter { input, .. } => incrementalizable(*input),
        PhysicalPlan::Project { input, .. } => incrementalizable(*input),
        PhysicalPlan::HashAggregate { input, .. } => incrementalizable(*input),
        PhysicalPlan::NoOp { input } => incrementalizable(*input),
        PhysicalPlan::HashJoin { left, right, .. } => incrementalizable(*left)
            && incrementalizable(*right),
        PhysicalPlan::SortMergeJoin { left, right, .. } => incrementalizable(*left)
            && incrementalizable(*right),
        PhysicalPlan::NestedLoopJoin { left, right, .. } => incrementalizable(*left)
            && incrementalizable(*right),
        PhysicalPlan::CrossProduct { left, right } => incrementalizable(*left)
            && incrementalizable(*right),
        PhysicalPlan::Union { left, right, .. } => incrementalizable(*left) && incrementalizable(
            *right,
        ),
        PhysicalPlan::IndexNestedLoopJoin { outer, .. } => incrementalizable(*outer),
        _ => true,
    }
}

impl PhysicalPlan {
    /// Tells whether no operator of the plan sorts, limits or keeps the first rows.
    pub fn is_incrementalizable(&self) -> (result: bool)
        ensures
            result == incrementalizable(*self),
        decreases self,
    {
        match self {
            PhysicalPlan::Sort { .. } => false,
            PhysicalPlan::TopN { .. } => false,
            PhysicalPlan::Limit { .. } => false,
            PhysicalPlan::Filter { input, .. } => input.is_incrementalizable(),
            PhysicalPlan::Project { input, .. } => input.is_incrementalizable(),
            PhysicalPlan::HashAggregate { input, .. } => input.is_incrementalizable(),
            PhysicalPlan::NoOp { input } => input.is_incrementalizable(),
            PhysicalPlan::HashJoin { left, right, .. } => left.is_incrementalizable()
                && right.is_incrementalizable(),
            PhysicalPlan::SortMergeJoin { left, right, .. } => left.is_incrementalizable()
                && right.is_incrementalizable(),
            PhysicalPlan::NestedLoopJoin { left, right, .. } => left.is_incrementalizable()
                && right.is_incrementalizable(),
            PhysicalPlan::CrossProduct { left, right } => left.is_incrementalizable()
                && right.is_incrementalizable(),
            PhysicalPlan::Union { left, right, .. } => left.is_incrementalizable()
                && right.is_incrementalizable(),
            PhysicalPlan::IndexNestedLoopJoin { outer, .. } => outer.is_incrementalizable(),
            _ => true,
        }
    }
}

} // verus!
