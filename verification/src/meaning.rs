//! What plans and dataflow graphs stand for: the rows that they give for the rows of the tables.
use vstd::prelude::*;

use crate::binding::{
    bound_view, bound_views, column_indices_of, equi_join_pairs, left_positions,
    lemma_bound_lists, right_positions,
};
use crate::dataflow::{
    aggregate_column, aggregate_functions, aggregate_result, aggregate_type, cross_result,
    filter_result, filtered_source_result, ivm_join_type, join_keys, join_result, plan_result,
    project_result, reordered, source_result, AggregateType, CompiledView, JoinKeyView, NodeView,
    ResolverView,
};
use crate::eval::{column_value, eval_all, eval_view, found_in, whole_number, StepView};
use crate::expr::{binary_view, exprs_view, AggregateFunc, BinaryOp, ColumnRefView, Expr, ExprView};
use crate::facts::FactsView;
use crate::index_predicate::{column_view, index_columns_of, index_scan_predicate};
use crate::layout::{law_joined_columns_resolve, law_projection_moves_columns, LayoutView};
use crate::order::value_precedes;
use crate::plan::{incrementalizable, IndexBounds, JoinType, PhysicalPlan};
use crate::schema::{SchemaCatalog, TableId};
use crate::text::names_view;
use crate::value::{values_view, Value, ValueView};

verus! {

/// The value that a row holds for a column of a table.
pub open spec fn value_at(
    layout: LayoutView,
    row: Seq<ValueView>,
    table: Seq<char>,
    index: usize,
) -> ValueView {
    column_value(row, layout.resolve(table, index))
}

/// The expression with each column reference replaced by the value that a row holds for it.
pub open spec fn filled(expr: ExprView, layout: LayoutView, row: Seq<ValueView>) -> ExprView
    decreases expr,
{
    match expr {
        ExprView::Column(column) => ExprView::Literal(
            value_at(layout, row, column.table, column.index),
        ),
        ExprView::Literal(value) => ExprView::Literal(value),
        ExprView::BinaryOp { left, op, right } => ExprView::BinaryOp {
            left: Box::new(filled(*left, layout, row)),
            op,
            right: Box::new(filled(*right, layout, row)),
        },
        ExprView::UnaryOp { op, expr } => ExprView::UnaryOp {
            op,
            expr: Box::new(filled(*expr, layout, row)),
        },
        ExprView::Function { name, args } => ExprView::Function {
            name,
            args: Seq::new(
                args.len(),
                |i: int|
                    if 0 <= i < args.len() {
                        filled(args[i], layout, row)
                    } else {
                        ExprView::Literal(ValueView::Null)
                    },
            ),
        },
        ExprView::Aggregate { func, expr, distinct } => ExprView::Aggregate {
            func,
            expr: None,
            distinct,
        },
        ExprView::Between { expr, low, high } => ExprView::Between {
            expr: Box::new(filled(*expr, layout, row)),
            low: Box::new(filled(*low, layout, row)),
            high: Box::new(filled(*high, layout, row)),
        },
        ExprView::NotBetween { expr, low, high } => ExprView::NotBetween {
            expr: Box::new(filled(*expr, layout, row)),
            low: Box::new(filled(*low, layout, row)),
            high: Box::new(filled(*high, layout, row)),
        },
        ExprView::In { expr, list } => ExprView::In {
            expr: Box::new(filled(*expr, layout, row)),
            list: Seq::new(
                list.len(),
                |i: int|
                    if 0 <= i < list.len() {
                        filled(list[i], layout, row)
                    } else {
                        ExprView::Literal(ValueView::Null)
                    },
            ),
        },
        ExprView::NotIn { expr, list } => ExprView::NotIn {
            expr: Box::new(filled(*expr, layout, row)),
            list: Seq::new(
                list.len(),
                |i: int|
                    if 0 <= i < list.len() {
                        filled(list[i], layout, row)
                    } else {
                        ExprView::Literal(ValueView::Null)
                    },
            ),
        },
        ExprView::Like { expr, pattern } => ExprView::Like {
            expr: Box::new(filled(*expr, layout, row)),
            pattern,
        },
        ExprView::NotLike { expr, pattern } => ExprView::NotLike {
            expr: Box::new(filled(*expr, layout, row)),
            pattern,
        },
        ExprView::Match { expr, pattern } => ExprView::Match {
            expr: Box::new(filled(*expr, layout, row)),
            pattern,
        },
        ExprView::NotMatch { expr, pattern } => ExprView::NotMatch {
            expr: Box::new(filled(*expr, layout, row)),
            pattern,
        },
    }
}

/// Each expression of a list with its column references replaced.
pub open spec fn filled_all(exprs: Seq<ExprView>, layout: LayoutView, row: Seq<ValueView>) -> Seq<
    ExprView,
> {
    exprs.map_values(|expr: ExprView| filled(expr, layout, row))
}

proof fn lemma_filled_lists(expr: ExprView, layout: LayoutView, row: Seq<ValueView>)
    ensures
        expr matches ExprView::Function { name, args } ==> filled(expr, layout, row) == (
        ExprView::Function { name, args: filled_all(args, layout, row) }),
        expr matches ExprView::In { expr: inner, list } ==> filled(expr, layout, row) == (
        ExprView::In {
            expr: Box::new(filled(*inner, layout, row)),
            list: filled_all(list, layout, row),
        }),
        expr matches ExprView::NotIn { expr: inner, list } ==> filled(expr, layout, row) == (
        ExprView::NotIn {
            expr: Box::new(filled(*inner, layout, row)),
            list: filled_all(list, layout, row),
        }),
{
    match expr {
        ExprView::Function { name, args } => {
            assert(filled(expr, layout, row)->Function_args =~= filled_all(args, layout, row));
        },
        ExprView::In { expr: inner, list } => {
            assert(filled(expr, layout, row)->In_list =~= filled_all(list, layout, row));
        },
        ExprView::NotIn { expr: inner, list } => {
            assert(filled(expr, layout, row)->NotIn_list =~= filled_all(list, layout, row));
        },
        _ => {},
    }
}

proof fn lemma_bound_all(
    exprs: Seq<ExprView>,
    layout: LayoutView,
    row: Seq<ValueView>,
    other: Seq<ValueView>,
    facts: FactsView,
)
    ensures
        eval_all(bound_views(exprs, layout), row, facts) == eval_all(
            filled_all(exprs, layout, row),
            other,
            facts,
        ),
    decreases exprs,
{
    if exprs.len() > 0 {
        let bound = bound_views(exprs, layout);
        let full = filled_all(exprs, layout, row);
        assert(bound.drop_last() =~= bound_views(exprs.drop_last(), layout));
        assert(full.drop_last() =~= filled_all(exprs.drop_last(), layout, row));
        assert(bound.last() == bound_view(exprs.last(), layout));
        assert(full.last() == filled(exprs.last(), layout, row));
        lemma_bound_all(exprs.drop_last(), layout, row, other, facts);
        law_bound_columns_read_their_values(exprs.last(), layout, row, other, facts);
    }
}

proof fn lemma_bound_found(
    list: Seq<ExprView>,
    value: ValueView,
    layout: LayoutView,
    row: Seq<ValueView>,
    other: Seq<ValueView>,
    facts: FactsView,
)
    ensures
        found_in(bound_views(list, layout), value, row, facts) == found_in(
            filled_all(list, layout, row),
            value,
            other,
            facts,
        ),
    decreases list,
{
    if list.len() > 0 {
        let bound = bound_views(list, layout);
        let full = filled_all(list, layout, row);
        assert(bound.drop_last() =~= bound_views(list.drop_last(), layout));
        assert(full.drop_last() =~= filled_all(list.drop_last(), layout, row));
        assert(bound.last() == bound_view(list.last(), layout));
        assert(full.last() == filled(list.last(), layout, row));
        lemma_bound_found(list.drop_last(), value, layout, row, other, facts);
        law_bound_columns_read_their_values(list.last(), layout, row, other, facts);
    }
}

/// An expression that is bound to a layout has, on a row of the layout, the value that it has with
/// the value of each column written in its place.
pub proof fn law_bound_columns_read_their_values(
    expr: ExprView,
    layout: LayoutView,
    row: Seq<ValueView>,
    other: Seq<ValueView>,
    facts: FactsView,
)
    ensures
        eval_view(bound_view(expr, layout), row, facts) == eval_view(
            filled(expr, layout, row),
            other,
            facts,
        ),
    decreases expr,
{
    match expr {
        ExprView::BinaryOp { left, op, right } => {
            law_bound_columns_read_their_values(*left, layout, row, other, facts);
            law_bound_columns_read_their_values(*right, layout, row, other, facts);
        },
        ExprView::UnaryOp { op, expr: inner } => {
            law_bound_columns_read_their_values(*inner, layout, row, other, facts);
        },
        ExprView::Function { name, args } => {
            lemma_bound_lists(expr, layout);
            lemma_filled_lists(expr, layout, row);
            lemma_bound_all(args, layout, row, other, facts);
        },
        ExprView::Between { expr: inner, low, high } => {
            law_bound_columns_read_their_values(*inner, layout, row, other, facts);
            law_bound_columns_read_their_values(*low, layout, row, other, facts);
            law_bound_columns_read_their_values(*high, layout, row, other, facts);
        },
        ExprView::NotBetween { expr: inner, low, high } => {
            law_bound_columns_read_their_values(*inner, layout, row, other, facts);
            law_bound_columns_read_their_values(*low, layout, row, other, facts);
            law_bound_columns_read_their_values(*high, layout, row, other, facts);
        },
        ExprView::In { expr: inner, list } => {
            lemma_bound_lists(expr, layout);
            lemma_filled_lists(expr, layout, row);
            law_bound_columns_read_their_values(*inner, layout, row, other, facts);
            if let StepView::Done(value) = eval_view(bound_view(*inner, layout), row, facts) {
                lemma_bound_found(list, value, layout, row, other, facts);
            }
        },
        ExprView::NotIn { expr: inner, list } => {
            lemma_bound_lists(expr, layout);
            lemma_filled_lists(expr, layout, row);
            law_bound_columns_read_their_values(*inner, layout, row, other, facts);
            if let StepView::Done(value) = eval_view(bound_view(*inner, layout), row, facts) {
                lemma_bound_found(list, value, layout, row, other, facts);
            }
        },
        ExprView::Like { expr: inner, pattern } => {
            law_bound_columns_read_their_values(*inner, layout, row, other, facts);
        },
        ExprView::NotLike { expr: inner, pattern } => {
            law_bound_columns_read_their_values(*inner, layout, row, other, facts);
        },
        ExprView::Match { expr: inner, pattern } => {
            law_bound_columns_read_their_values(*inner, layout, row, other, facts);
        },
        ExprView::NotMatch { expr: inner, pattern } => {
            law_bound_columns_read_their_values(*inner, layout, row, other, facts);
        },
        ExprView::Column(_) => {},
        ExprView::Literal(_) => {},
        ExprView::Aggregate { .. } => {},
    }
}

/// What a graph is run on: the rows of the tables, the facts for its expressions, which values join,
/// and what the aggregates make of the values of a group.
pub struct World {
    pub tables: spec_fn(TableId) -> Seq<Seq<ValueView>>,
    pub facts: FactsView,
    pub same: spec_fn(ValueView, ValueView) -> bool,
    pub count: spec_fn(Seq<ValueView>) -> ValueView,
    pub sum: spec_fn(Seq<ValueView>) -> ValueView,
    pub mean: spec_fn(Seq<ValueView>) -> ValueView,
    pub least: spec_fn(Seq<ValueView>) -> ValueView,
    pub greatest: spec_fn(Seq<ValueView>) -> ValueView,
    pub ratio: spec_fn(int, nat) -> ValueView,
}

/// All values are whole numbers of one kind.
pub open spec fn all_whole(values: Seq<ValueView>) -> bool {
    forall|i: int| 0 <= i < values.len() ==> #[trigger] values[i] is Int64
}

/// The sum of whole numbers.
pub open spec fn total_of(values: Seq<ValueView>) -> int
    decreases values.len(),
{
    if values.len() == 0 {
        0
    } else {
        total_of(values.drop_last()) + match whole_number(values.last()) {
            Some(number) => number,
            None => 0,
        }
    }
}

impl World {
    /// The aggregates are what their names say, on groups of whole numbers whose sum is one.
    pub open spec fn sound(self) -> bool {
        forall|values: Seq<ValueView>|
            #![trigger all_whole(values)]
            0 < values.len() <= i64::MAX && all_whole(values) && i64::MIN <= total_of(values)
                <= i64::MAX ==> {
                &&& whole_number((self.count)(values)) == Some(values.len() as int)
                &&& whole_number((self.sum)(values)) == Some(total_of(values))
                &&& (self.mean)(values) == (self.ratio)(total_of(values), values.len())
                &&& values.contains((self.least)(values))
                &&& forall|i: int|
                    0 <= i < values.len() ==> !value_precedes(
                        #[trigger] values[i],
                        (self.least)(values),
                    )
                &&& values.contains((self.greatest)(values))
                &&& forall|i: int|
                    0 <= i < values.len() ==> !value_precedes(
                        (self.greatest)(values),
                        #[trigger] values[i],
                    )
            }
    }

    /// What an aggregate of a graph makes of the values of a group.
    pub open spec fn aggregate(self, kind: AggregateType, values: Seq<ValueView>) -> ValueView {
        match kind {
            AggregateType::Count => (self.count)(values),
            AggregateType::Sum => (self.sum)(values),
            AggregateType::Avg => (self.mean)(values),
            AggregateType::Min => (self.least)(values),
            AggregateType::Max => (self.greatest)(values),
        }
    }

    /// The value of an expression on a row.
    pub open spec fn value(self, expr: ExprView, row: Seq<ValueView>) -> ValueView {
        match eval_view(expr, row, self.facts) {
            StepView::Done(value) => value,
            StepView::Need(_) => ValueView::Null,
        }
    }

    /// A predicate is true of a row.
    pub open spec fn holds(self, predicate: ExprView, row: Seq<ValueView>) -> bool {
        self.value(predicate, row) == ValueView::Boolean(true)
    }

    /// Two keys join: their values do, one by one.
    pub open spec fn joins(self, left: Seq<ValueView>, right: Seq<ValueView>) -> bool {
        &&& left.len() == right.len()
        &&& forall|i: int| 0 <= i < left.len() ==> (self.same)(#[trigger] left[i], right[i])
    }
}

/// The columns of a row that a list names.
pub open spec fn picked(row: Seq<ValueView>, columns: Seq<usize>) -> Seq<ValueView> {
    columns.map_values(|column: usize| column_value(row, column))
}

/// The values of a column in rows.
pub open spec fn column_of(rows: Seq<Seq<ValueView>>, column: usize) -> Seq<ValueView> {
    rows.map_values(|row: Seq<ValueView>| column_value(row, column))
}

/// The key that a row is joined by.
pub open spec fn join_key(key: JoinKeyView, row: Seq<ValueView>) -> Seq<ValueView> {
    match key {
        JoinKeyView::Columns(columns) => picked(row, columns),
        JoinKeyView::Dynamic => row,
        JoinKeyView::Constant(values) => values,
    }
}

/// A row of nulls.
pub open spec fn nulls(width: usize) -> Seq<ValueView> {
    Seq::new(width as nat, |i: int| ValueView::Null)
}

/// The pairs of rows that match, one row behind the other.
pub open spec fn matched(
    left: Seq<Seq<ValueView>>,
    right: Seq<Seq<ValueView>>,
    matches: spec_fn(Seq<ValueView>, Seq<ValueView>) -> bool,
) -> Seq<Seq<ValueView>>
    decreases left.len(),
{
    if left.len() == 0 {
        Seq::empty()
    } else {
        let row = left.last();
        matched(left.drop_last(), right, matches) + right.filter(
            |other: Seq<ValueView>| matches(row, other),
        ).map_values(|other: Seq<ValueView>| row + other)
    }
}

/// The rows of the left side that match none of the right side, with nulls behind them.
pub open spec fn left_alone(
    left: Seq<Seq<ValueView>>,
    right: Seq<Seq<ValueView>>,
    matches: spec_fn(Seq<ValueView>, Seq<ValueView>) -> bool,
    width: usize,
) -> Seq<Seq<ValueView>> {
    left.filter(
        |row: Seq<ValueView>|
            forall|i: int| 0 <= i < right.len() ==> !matches(row, #[trigger] right[i]),
    ).map_values(|row: Seq<ValueView>| row + nulls(width))
}

/// The rows of the right side that match none of the left side, with nulls in front of them.
pub open spec fn right_alone(
    left: Seq<Seq<ValueView>>,
    right: Seq<Seq<ValueView>>,
    matches: spec_fn(Seq<ValueView>, Seq<ValueView>) -> bool,
    width: usize,
) -> Seq<Seq<ValueView>> {
    right.filter(
        |row: Seq<ValueView>|
            forall|i: int| 0 <= i < left.len() ==> !matches(#[trigger] left[i], row),
    ).map_values(|row: Seq<ValueView>| nulls(width) + row)
}

/// The rows of a join: the pairs that match, and of the sides that keep all their rows those that
/// match nothing.
pub open spec fn joined(
    left: Seq<Seq<ValueView>>,
    right: Seq<Seq<ValueView>>,
    matches: spec_fn(Seq<ValueView>, Seq<ValueView>) -> bool,
    keeps_left: bool,
    keeps_right: bool,
    left_width: usize,
    right_width: usize,
) -> Seq<Seq<ValueView>> {
    matched(left, right, matches) + (if keeps_left {
        left_alone(left, right, matches, right_width)
    } else {
        Seq::empty()
    }) + (if keeps_right {
        right_alone(left, right, matches, left_width)
    } else {
        Seq::empty()
    })
}

/// The keys of rows, each once, in the order of their first rows.
pub open spec fn group_keys(
    rows: Seq<Seq<ValueView>>,
    key: spec_fn(Seq<ValueView>) -> Seq<ValueView>,
) -> Seq<Seq<ValueView>>
    decreases rows.len(),
{
    if rows.len() == 0 {
        Seq::empty()
    } else {
        let before = group_keys(rows.drop_last(), key);
        if before.contains(key(rows.last())) {
            before
        } else {
            before.push(key(rows.last()))
        }
    }
}

/// The rows of a group.
pub open spec fn group_rows(
    rows: Seq<Seq<ValueView>>,
    key: spec_fn(Seq<ValueView>) -> Seq<ValueView>,
    group: Seq<ValueView>,
) -> Seq<Seq<ValueView>> {
    rows.filter(|row: Seq<ValueView>| key(row) == group)
}

/// The rows that a graph gives.
pub open spec fn graph_rows(node: NodeView, world: World) -> Seq<Seq<ValueView>>
    decreases node,
{
    match node {
        NodeView::Source { table_id } => (world.tables)(table_id),
        NodeView::Filter { input, predicate } => graph_rows(*input, world).filter(
            |row: Seq<ValueView>| world.holds(predicate, row),
        ),
        NodeView::Project { input, columns } => graph_rows(*input, world).map_values(
            |row: Seq<ValueView>| picked(row, columns),
        ),
        NodeView::Compute { input, exprs } => graph_rows(*input, world).map_values(
            |row: Seq<ValueView>| exprs.map_values(|expr: ExprView| world.value(expr, row)),
        ),
        NodeView::Join {
            left,
            right,
            left_key,
            right_key,
            join_type,
            left_width,
            right_width,
        } => joined(
            graph_rows(*left, world),
            graph_rows(*right, world),
            |l: Seq<ValueView>, r: Seq<ValueView>|
                world.joins(join_key(left_key, l), join_key(right_key, r)),
            join_type is LeftOuter || join_type is FullOuter,
            join_type is RightOuter || join_type is FullOuter,
            left_width,
            right_width,
        ),
        NodeView::Aggregate { input, group_by, functions } => {
            let rows = graph_rows(*input, world);
            let key = |row: Seq<ValueView>| picked(row, group_by);
            group_keys(rows, key).map_values(
                |group: Seq<ValueView>|
                    group + functions.map_values(
                        |function: (usize, AggregateType)|
                            world.aggregate(
                                function.1,
                                column_of(group_rows(rows, key, group), function.0),
                            ),
                    ),
            )
        },
    }
}

/// A filter keeps, in order, the rows of its input on which the predicate, with the values of its
/// columns written into it, is true. It moves no column.
pub proof fn law_filters_keep_rows_that_hold(
    input: CompiledView,
    predicate: ExprView,
    world: World,
)
    ensures
        filter_result(input, predicate).layout == input.layout,
        graph_rows(filter_result(input, predicate).node, world) == graph_rows(
            input.node,
            world,
        ).filter(
            |row: Seq<ValueView>|
                world.holds(filled(predicate, input.layout, row), Seq::empty()),
        ),
{
    let bound = |row: Seq<ValueView>| world.holds(bound_view(predicate, input.layout), row);
    let full = |row: Seq<ValueView>|
        world.holds(filled(predicate, input.layout, row), Seq::empty());
    assert forall|row: Seq<ValueView>| #[trigger] bound(row) == full(row) by {
        law_bound_columns_read_their_values(
            predicate,
            input.layout,
            row,
            Seq::empty(),
            world.facts,
        );
    }
    assert(bound =~= full);
}

proof fn lemma_column_indices(exprs: Seq<ExprView>)
    ensures
        column_indices_of(exprs).len() <= exprs.len(),
        column_indices_of(exprs).len() == exprs.len() ==> forall|i: int|
            0 <= i < exprs.len() ==> (#[trigger] exprs[i] matches ExprView::Column(column)
                && column_indices_of(exprs)[i] == column.index),
        (forall|i: int| 0 <= i < exprs.len() ==> #[trigger] exprs[i] is Column)
            ==> column_indices_of(exprs).len() == exprs.len(),
    decreases exprs.len(),
{
    if exprs.len() > 0 {
        let front = exprs.drop_last();
        lemma_column_indices(front);
        assert(forall|i: int| 0 <= i < front.len() ==> front[i] == exprs[i]);
    }
}

/// A projection gives for each row of its input, in order, the values of its expressions on that
/// row.
pub proof fn law_projections_compute_their_expressions(
    input: CompiledView,
    columns: Seq<ExprView>,
    world: World,
    at: int,
    k: int,
)
    requires
        0 <= at < graph_rows(input.node, world).len(),
        0 <= k < columns.len(),
    ensures
        ({
            let rows = graph_rows(input.node, world);
            let output = graph_rows(project_result(input, columns).node, world);
            &&& output.len() == rows.len()
            &&& output[at].len() == columns.len()
            &&& output[at][k] == world.value(
                filled(columns[k], input.layout, rows[at]),
                Seq::empty(),
            )
        }),
{
    let row = graph_rows(input.node, world)[at];
    let bound = bound_views(columns, input.layout);
    let indices = column_indices_of(bound);
    lemma_column_indices(bound);
    assert(bound[k] == bound_view(columns[k], input.layout));
    law_bound_columns_read_their_values(
        columns[k],
        input.layout,
        row,
        Seq::empty(),
        world.facts,
    );
    if indices.len() == columns.len() {
        assert(bound[k] is Column);
        assert(world.value(bound[k], row) == column_value(row, indices[k]));
    }
}

/// The value of a column of one of two rows that are joined.
pub open spec fn side_value(
    column: ColumnRefView,
    left_layout: LayoutView,
    right_layout: LayoutView,
    left: Seq<ValueView>,
    right: Seq<ValueView>,
) -> ValueView {
    if left_layout.tables.contains(column.table) {
        value_at(left_layout, left, column.table, column.index)
    } else {
        value_at(right_layout, right, column.table, column.index)
    }
}

/// A column of a table of one side is compared with one of a table of the other side.
pub open spec fn across(
    a: ColumnRefView,
    b: ColumnRefView,
    left: LayoutView,
    right: LayoutView,
) -> bool {
    ||| left.tables.contains(a.table) && right.tables.contains(b.table)
    ||| left.tables.contains(b.table) && right.tables.contains(a.table)
}

/// A condition that equates columns of the two sides, and nothing else.
pub open spec fn equates_sides(condition: ExprView, left: LayoutView, right: LayoutView) -> bool
    decreases condition,
{
    match condition {
        ExprView::BinaryOp { left: l, op: BinaryOp::Eq, right: r } => *l is Column && *r is Column
            && across((*l)->Column_0, (*r)->Column_0, left, right),
        ExprView::BinaryOp { left: l, op: BinaryOp::And, right: r } => equates_sides(
            *l,
            left,
            right,
        ) && equates_sides(*r, left, right),
        _ => false,
    }
}

/// A condition that equates columns is true of two rows: the values of equated columns join.
pub open spec fn equal_on(
    condition: ExprView,
    left_layout: LayoutView,
    right_layout: LayoutView,
    left: Seq<ValueView>,
    right: Seq<ValueView>,
    world: World,
) -> bool
    decreases condition,
{
    match condition {
        ExprView::BinaryOp { left: l, op: BinaryOp::Eq, right: r } => (world.same)(
            side_value((*l)->Column_0, left_layout, right_layout, left, right),
            side_value((*r)->Column_0, left_layout, right_layout, left, right),
        ),
        ExprView::BinaryOp { left: l, op: BinaryOp::And, right: r } => equal_on(
            *l,
            left_layout,
            right_layout,
            left,
            right,
            world,
        ) && equal_on(*r, left_layout, right_layout, left, right, world),
        _ => true,
    }
}

/// No table belongs to both sides.
pub open spec fn sides_apart(left: LayoutView, right: LayoutView) -> bool {
    forall|name: Seq<char>| #[trigger]
        left.tables.contains(name) ==> !right.tables.contains(name)
}

/// It does not matter in which order two values are compared.
pub open spec fn symmetric(world: World) -> bool {
    forall|a: ValueView, b: ValueView| #[trigger] (world.same)(a, b) == (world.same)(b, a)
}

spec fn pairs_join(
    pairs: Seq<(usize, usize)>,
    left: Seq<ValueView>,
    right: Seq<ValueView>,
    world: World,
) -> bool {
    forall|i: int|
        0 <= i < pairs.len() ==> (world.same)(
            column_value(left, (#[trigger] pairs[i]).0),
            column_value(right, pairs[i].1),
        )
}

proof fn lemma_pairs_join(
    condition: ExprView,
    left_layout: LayoutView,
    right_layout: LayoutView,
    left: Seq<ValueView>,
    right: Seq<ValueView>,
    world: World,
)
    requires
        equates_sides(condition, left_layout, right_layout),
        sides_apart(left_layout, right_layout),
        symmetric(world),
    ensures
        equi_join_pairs(condition, left_layout, right_layout).len() > 0,
        pairs_join(equi_join_pairs(condition, left_layout, right_layout), left, right, world)
            == equal_on(condition, left_layout, right_layout, left, right, world),
    decreases condition,
{
    let pairs = equi_join_pairs(condition, left_layout, right_layout);
    match condition {
        ExprView::BinaryOp { left: l, op: BinaryOp::Eq, right: r } => {
            assert(pairs.len() == 1);
            assert(pairs_join(pairs, left, right, world) == (world.same)(
                column_value(left, pairs[0].0),
                column_value(right, pairs[0].1),
            ));
        },
        ExprView::BinaryOp { left: l, op: BinaryOp::And, right: r } => {
            lemma_pairs_join(*l, left_layout, right_layout, left, right, world);
            lemma_pairs_join(*r, left_layout, right_layout, left, right, world);
            let front = equi_join_pairs(*l, left_layout, right_layout);
            let back = equi_join_pairs(*r, left_layout, right_layout);
            assert(pairs == front + back);
            if pairs_join(pairs, left, right, world) {
                assert forall|i: int| 0 <= i < front.len() implies (world.same)(
                    column_value(left, (#[trigger] front[i]).0),
                    column_value(right, front[i].1),
                ) by {
                    assert(pairs[i] == front[i]);
                }
                assert forall|i: int| 0 <= i < back.len() implies (world.same)(
                    column_value(left, (#[trigger] back[i]).0),
                    column_value(right, back[i].1),
                ) by {
                    assert(pairs[front.len() + i] == back[i]);
                }
            }
        },
        _ => {},
    }
}

proof fn lemma_keys_join(
    pairs: Seq<(usize, usize)>,
    left: Seq<ValueView>,
    right: Seq<ValueView>,
    world: World,
)
    ensures
        world.joins(
            picked(left, left_positions(pairs)),
            picked(right, right_positions(pairs)),
        ) == pairs_join(pairs, left, right, world),
{
    let l = picked(left, left_positions(pairs));
    let r = picked(right, right_positions(pairs));
    assert(forall|i: int|
        0 <= i < pairs.len() ==> l[i] == column_value(left, (#[trigger] pairs[i]).0) && r[i]
            == column_value(right, pairs[i].1));
    if world.joins(l, r) {
        assert forall|i: int| 0 <= i < pairs.len() implies (world.same)(
            column_value(left, (#[trigger] pairs[i]).0),
            column_value(right, pairs[i].1),
        ) by {
            assert((world.same)(l[i], r[i]));
        }
    }
    if pairs_join(pairs, left, right, world) {
        assert forall|i: int| 0 <= i < l.len() implies (world.same)(#[trigger] l[i], r[i]) by {
            assert((world.same)(column_value(left, pairs[i].0), column_value(right, pairs[i].1)));
        }
    }
}

proof fn lemma_wanted_counts(raw: LayoutView, tables: Seq<Seq<char>>)
    requires
        forall|i: int|
            0 <= i < tables.len() ==> raw.width_of(#[trigger] tables[i]) is Some,
    ensures
        ({
            let wanted = LayoutView::join(raw, LayoutView::empty(), tables);
            &&& wanted.counts.len() == tables.len()
            &&& forall|i: int|
                0 <= i < tables.len() ==> raw.width_of(#[trigger] tables[i]) == Some(
                    wanted.counts[i],
                )
        }),
    decreases tables.len(),
{
    if tables.len() > 0 {
        let front = tables.drop_last();
        assert(forall|i: int| 0 <= i < front.len() ==> front[i] == tables[i]);
        lemma_wanted_counts(raw, front);
    }
}

/// The rows that a join stands for, with the columns of the left side in front: pairs of rows of
/// which the condition is true, the rows of the left side that match none if the join keeps them,
/// and the rows of the right side that match none if the join keeps them.
pub open spec fn rows_joined(
    left: CompiledView,
    right: CompiledView,
    condition: ExprView,
    join_type: JoinType,
    world: World,
) -> Seq<Seq<ValueView>> {
    joined(
        graph_rows(left.node, world),
        graph_rows(right.node, world),
        |l: Seq<ValueView>, r: Seq<ValueView>|
            equal_on(condition, left.layout, right.layout, l, r, world),
        join_type is LeftOuter || join_type is FullOuter,
        join_type is RightOuter || join_type is FullOuter,
        left.layout.total(),
        right.layout.total(),
    )
}

/// The node of a join of two compiled sides.
spec fn join_node(
    left: CompiledView,
    right: CompiledView,
    condition: ExprView,
    join_type: JoinType,
) -> NodeView {
    let (left_key, right_key) = join_keys(condition, left.layout, right.layout);
    NodeView::Join {
        left: Box::new(left.node),
        right: Box::new(right.node),
        left_key,
        right_key,
        join_type: ivm_join_type(join_type),
        left_width: left.layout.total(),
        right_width: right.layout.total(),
    }
}

proof fn lemma_join_length(
    left: CompiledView,
    right: CompiledView,
    condition: ExprView,
    join_type: JoinType,
    output_tables: Seq<Seq<char>>,
    world: World,
)
    requires
        equates_sides(condition, left.layout, right.layout),
        sides_apart(left.layout, right.layout),
        symmetric(world),
    ensures
        ({
            let rows = rows_joined(left, right, condition, join_type, world);
            let result = join_result(left, right, condition, join_type, output_tables);
            &&& graph_rows(join_node(left, right, condition, join_type), world) == rows
            &&& graph_rows(result.node, world).len() == rows.len()
        }),
{
    let rows = rows_joined(left, right, condition, join_type, world);
    let pairs = equi_join_pairs(condition, left.layout, right.layout);
    let (left_key, right_key) = join_keys(condition, left.layout, right.layout);
    let by_key = |l: Seq<ValueView>, r: Seq<ValueView>|
        world.joins(join_key(left_key, l), join_key(right_key, r));
    let by_condition = |l: Seq<ValueView>, r: Seq<ValueView>|
        equal_on(condition, left.layout, right.layout, l, r, world);
    assert forall|l: Seq<ValueView>, r: Seq<ValueView>| #[trigger] by_key(l, r) == by_condition(
        l,
        r,
    ) by {
        lemma_pairs_join(condition, left.layout, right.layout, l, r, world);
        lemma_keys_join(pairs, l, r, world);
    }
    assert(by_key =~= by_condition);
    let node = join_node(left, right, condition, join_type);
    assert(graph_rows(node, world) == rows);
    let raw = LayoutView::combined(left.layout, right.layout);
    let result = join_result(left, right, condition, join_type, output_tables);
    assert(result == reordered(node, raw, output_tables));
}

/// A join gives the pairs of rows of which its condition is true, and the rows of a side that match
/// nothing where the join keeps that side. Each column of the rows that it gives holds what the
/// column of that table holds in the rows of the sides.
pub proof fn law_joins_pair_rows_that_match(
    left: CompiledView,
    right: CompiledView,
    condition: ExprView,
    join_type: JoinType,
    output_tables: Seq<Seq<char>>,
    world: World,
    at: int,
    table: Seq<char>,
    index: usize,
)
    requires
        equates_sides(condition, left.layout, right.layout),
        sides_apart(left.layout, right.layout),
        symmetric(world),
        LayoutView::combined(left.layout, right.layout).sound(),
        LayoutView::join(
            LayoutView::combined(left.layout, right.layout),
            LayoutView::empty(),
            output_tables,
        ).sound(),
        forall|i: int|
            0 <= i < output_tables.len() ==> LayoutView::combined(
                left.layout,
                right.layout,
            ).tables.contains(#[trigger] output_tables[i]) && LayoutView::combined(
                left.layout,
                right.layout,
            ).width_of(output_tables[i]) is Some,
        0 <= at < rows_joined(left, right, condition, join_type, world).len(),
        output_tables.contains(table),
        index < LayoutView::combined(left.layout, right.layout).width_of(table)->0,
    ensures
        ({
            let result = join_result(left, right, condition, join_type, output_tables);
            let rows = rows_joined(left, right, condition, join_type, world);
            let output = graph_rows(result.node, world);
            &&& output.len() == rows.len()
            &&& result.layout.tables == output_tables
            &&& value_at(result.layout, output[at], table, index) == value_at(
                LayoutView::combined(left.layout, right.layout),
                rows[at],
                table,
                index,
            )
        }),
{
    let raw = LayoutView::combined(left.layout, right.layout);
    let wanted = LayoutView::join(raw, LayoutView::empty(), output_tables);
    let result = join_result(left, right, condition, join_type, output_tables);
    let rows = rows_joined(left, right, condition, join_type, world);
    lemma_join_length(left, right, condition, join_type, output_tables, world);
    lemma_wanted_counts(raw, output_tables);
    if raw != wanted {
        let i = choose|i: int| 0 <= i < output_tables.len() && output_tables[i] == table;
        crate::text::lemma_first_position(output_tables, table);
        law_projection_moves_columns(raw, wanted, table, index);
        let columns = raw.projection(output_tables);
        let output = graph_rows(result.node, world);
        assert(output[at] == picked(rows[at], columns));
    }
}

/// A joined row holds both of its rows: the columns of the tables of the left side hold what they
/// hold in the left row, those of the right side what they hold in the right row.
pub proof fn law_joined_rows_hold_both_rows(
    left: LayoutView,
    right: LayoutView,
    left_row: Seq<ValueView>,
    right_row: Seq<ValueView>,
    table: Seq<char>,
    index: usize,
)
    requires
        left.sound(),
        right.sound(),
        sides_apart(left, right),
        left.total() + right.total() <= usize::MAX,
        left_row.len() == left.total(),
        right_row.len() == right.total(),
    ensures
        left.tables.contains(table) && index < left.width_of(table)->0 ==> value_at(
            LayoutView::combined(left, right),
            left_row + right_row,
            table,
            index,
        ) == value_at(left, left_row, table, index),
        right.tables.contains(table) && index < right.width_of(table)->0 ==> value_at(
            LayoutView::combined(left, right),
            left_row + right_row,
            table,
            index,
        ) == value_at(right, right_row, table, index),
{
    law_joined_columns_resolve(left, right, table, index);
    if left.tables.contains(table) && index < left.width_of(table)->0 {
        lemma_own_widths(left);
        law_projection_moves_columns(left, left, table, index);
    }
    if right.tables.contains(table) && index < right.width_of(table)->0 {
        lemma_own_widths(right);
        law_projection_moves_columns(right, right, table, index);
        let at = right.resolve(table, index);
        assert((left_row + right_row)[left.total() + at] == right_row[at as int]);
    }
}

proof fn lemma_own_widths(layout: LayoutView)
    requires
        layout.sound(),
    ensures
        forall|i: int|
            0 <= i < layout.tables.len() ==> layout.tables.contains(#[trigger] layout.tables[i])
                && layout.width_of(layout.tables[i]) == Some(layout.counts[i]),
{
    assert forall|i: int| 0 <= i < layout.tables.len() implies layout.tables.contains(
        #[trigger] layout.tables[i],
    ) && layout.width_of(layout.tables[i]) == Some(layout.counts[i]) by {
        crate::text::lemma_first_position(layout.tables, layout.tables[i]);
        let at = crate::text::first_position(layout.tables, layout.tables[i])->0;
        assert(layout.tables[at] == layout.tables[i]);
    }
}

/// A product gives every pair of rows, and nothing else.
pub proof fn law_products_pair_all_rows(left: CompiledView, right: CompiledView, world: World)
    requires
        (world.same)(ValueView::Int64(0), ValueView::Int64(0)),
    ensures
        graph_rows(cross_result(left, right).node, world) == joined(
            graph_rows(left.node, world),
            graph_rows(right.node, world),
            |l: Seq<ValueView>, r: Seq<ValueView>| true,
            false,
            false,
            left.layout.total(),
            right.layout.total(),
        ),
        cross_result(left, right).layout == LayoutView::combined(left.layout, right.layout),
{
    let key = JoinKeyView::Constant(seq![ValueView::Int64(0)]);
    let by_key = |l: Seq<ValueView>, r: Seq<ValueView>|
        world.joins(join_key(key, l), join_key(key, r));
    let always = |l: Seq<ValueView>, r: Seq<ValueView>| true;
    assert(by_key =~= always);
}

/// The column that an aggregate of a query is taken of, if it is one.
pub open spec fn aggregated(expr: ExprView) -> Option<ColumnRefView> {
    match expr {
        ExprView::Column(column) => Some(column),
        ExprView::Aggregate { expr: Some(inner), .. } => match *inner {
            ExprView::Column(column) => Some(column),
            _ => None,
        },
        _ => None,
    }
}

/// The values that a row has for the columns by which it is grouped.
pub open spec fn grouping(group_by: Seq<ExprView>, layout: LayoutView, row: Seq<ValueView>) -> Seq<
    ValueView,
> {
    group_by.map_values(
        |expr: ExprView|
            value_at(layout, row, expr->Column_0.table, expr->Column_0.index),
    )
}

/// The values of a column in rows.
pub open spec fn values_of(
    rows: Seq<Seq<ValueView>>,
    layout: LayoutView,
    column: ColumnRefView,
) -> Seq<ValueView> {
    rows.map_values(
        |row: Seq<ValueView>| value_at(layout, row, column.table, column.index),
    )
}

/// A value is what an aggregate of a query asks for: the number of the values, their sum or their
/// mean, the least of them or the greatest.
pub open spec fn answers(
    func: AggregateFunc,
    values: Seq<ValueView>,
    result: ValueView,
    world: World,
) -> bool {
    let whole = world.sound() && 0 < values.len() <= i64::MAX && all_whole(values) && i64::MIN
        <= total_of(values) <= i64::MAX;
    match func {
        AggregateFunc::Count => {
            &&& result == (world.count)(values)
            &&& whole ==> whole_number(result) == Some(values.len() as int)
        },
        AggregateFunc::Sum => {
            &&& result == (world.sum)(values)
            &&& whole ==> whole_number(result) == Some(total_of(values))
        },
        AggregateFunc::Avg => {
            &&& result == (world.mean)(values)
            &&& whole ==> result == (world.ratio)(total_of(values), values.len())
        },
        AggregateFunc::Min => {
            &&& result == (world.least)(values)
            &&& whole ==> values.contains(result) && forall|i: int|
                0 <= i < values.len() ==> !value_precedes(#[trigger] values[i], result)
        },
        AggregateFunc::Max => {
            &&& result == (world.greatest)(values)
            &&& whole ==> values.contains(result) && forall|i: int|
                0 <= i < values.len() ==> !value_precedes(result, #[trigger] values[i])
        },
        _ => result == (world.count)(values),
    }
}

proof fn lemma_aggregate_functions(aggregates: Seq<(AggregateFunc, Expr)>, layout: LayoutView)
    requires
        forall|i: int|
            0 <= i < aggregates.len() ==> aggregated((#[trigger] aggregates[i]).1@) is Some,
    ensures
        aggregate_functions(aggregates, layout).len() == aggregates.len(),
        forall|i: int|
            0 <= i < aggregates.len() ==> aggregate_functions(aggregates, layout)[i] == (
                layout.resolve(
                    aggregated((#[trigger] aggregates[i]).1@)->0.table,
                    aggregated(aggregates[i].1@)->0.index,
                ),
                aggregate_type(aggregates[i].0),
            ),
    decreases aggregates.len(),
{
    if aggregates.len() > 0 {
        let front = aggregates.drop_last();
        assert(forall|i: int| 0 <= i < front.len() ==> front[i] == aggregates[i]);
        lemma_aggregate_functions(front, layout);
        let last = aggregates.last();
        assert(aggregates[aggregates.len() - 1] == last);
        let expr = last.1@;
        let column = aggregated(expr)->0;
        match expr {
            ExprView::Column(_) => {},
            ExprView::Aggregate { expr: Some(inner), .. } => {
                assert(bound_view(*inner, layout)->Column_0.index == layout.resolve(
                    column.table,
                    column.index,
                ));
            },
            _ => {},
        }
        assert(aggregate_column(bound_view(expr, layout)) == Some(
            layout.resolve(column.table, column.index),
        ));
    }
}

/// Grouping gives one row for each group of the rows of its input, the rows with the same values in
/// the columns that it groups by. The row holds those values and then the answers of the aggregates
/// for the values that the group has in their columns.
pub proof fn law_aggregates_answer_for_their_groups(
    input: CompiledView,
    group_by: Seq<ExprView>,
    aggregates: Seq<(AggregateFunc, Expr)>,
    world: World,
    at: int,
    k: int,
)
    requires
        forall|i: int| 0 <= i < group_by.len() ==> #[trigger] group_by[i] is Column,
        forall|i: int|
            0 <= i < aggregates.len() ==> aggregated((#[trigger] aggregates[i]).1@) is Some,
        0 <= k < aggregates.len(),
    ensures
        ({
            let rows = graph_rows(input.node, world);
            let key = |row: Seq<ValueView>| grouping(group_by, input.layout, row);
            let groups = group_keys(rows, key);
            let output = graph_rows(aggregate_result(input, group_by, aggregates).node, world);
            &&& output.len() == groups.len()
            &&& 0 <= at < output.len() ==> {
                &&& output[at].len() == group_by.len() + aggregates.len()
                &&& output[at].take(group_by.len() as int) == groups[at]
                &&& answers(
                    aggregates[k].0,
                    values_of(
                        group_rows(rows, key, groups[at]),
                        input.layout,
                        aggregated(aggregates[k].1@)->0,
                    ),
                    output[at][group_by.len() + k],
                    world,
                )
            }
        }),
{
    let rows = graph_rows(input.node, world);
    let key = |row: Seq<ValueView>| grouping(group_by, input.layout, row);
    let groups = group_keys(rows, key);
    let output = graph_rows(aggregate_result(input, group_by, aggregates).node, world);
    let bound = bound_views(group_by, input.layout);
    let columns = column_indices_of(bound);
    let functions = aggregate_functions(aggregates, input.layout);
    assert forall|i: int| 0 <= i < bound.len() implies (#[trigger] bound[i]) is Column by {
        assert(group_by[i] is Column);
    }
    lemma_column_indices(bound);
    lemma_aggregate_functions(aggregates, input.layout);
    let by_index = |row: Seq<ValueView>| picked(row, columns);
    assert forall|row: Seq<ValueView>| #[trigger] by_index(row) == key(row) by {
        assert forall|i: int| 0 <= i < group_by.len() implies picked(row, columns)[i] == grouping(
            group_by,
            input.layout,
            row,
        )[i] by {
            assert(group_by[i] is Column);
            assert(bound[i] is Column);
            assert(columns[i] == bound[i]->Column_0.index);
        }
        assert(by_index(row) =~= key(row));
    }
    assert(by_index =~= key);
    if 0 <= at < output.len() {
        lemma_group_key_len(rows, key, group_by.len() as int, at);
        let members = group_rows(rows, key, groups[at]);
        let column = aggregated(aggregates[k].1@)->0;
        assert(functions[k] == (
            input.layout.resolve(column.table, column.index),
            aggregate_type(aggregates[k].0),
        ));
        let values = values_of(members, input.layout, column);
        assert(column_of(members, functions[k].0) =~= values);
        assert(output[at] == groups[at] + functions.map_values(
            |function: (usize, AggregateType)|
                world.aggregate(function.1, column_of(members, function.0)),
        ));
        assert(output[at].take(group_by.len() as int) =~= groups[at]);
        assert(output[at][group_by.len() + k] == world.aggregate(
            aggregate_type(aggregates[k].0),
            values,
        ));
    }
}

proof fn lemma_group_key_len(
    rows: Seq<Seq<ValueView>>,
    key: spec_fn(Seq<ValueView>) -> Seq<ValueView>,
    width: int,
    at: int,
)
    requires
        forall|row: Seq<ValueView>| (#[trigger] key(row)).len() == width,
        0 <= at < group_keys(rows, key).len(),
    ensures
        group_keys(rows, key)[at].len() == width,
    decreases rows.len(),
{
    if rows.len() > 0 {
        let before = group_keys(rows.drop_last(), key);
        if at < before.len() {
            lemma_group_key_len(rows.drop_last(), key, width, at);
        }
    }
}

proof fn lemma_filter_contains(
    rows: Seq<Seq<ValueView>>,
    keep: spec_fn(Seq<ValueView>) -> bool,
    row: Seq<ValueView>,
)
    ensures
        rows.filter(keep).contains(row) <==> rows.contains(row) && keep(row),
    decreases rows.len(),
{
    reveal(Seq::filter);
    if rows.len() > 0 {
        let front = rows.drop_last();
        lemma_filter_contains(front, keep, row);
        let kept = front.filter(keep);
        if front.contains(row) {
            assert(rows[front.index_of(row)] == row);
        }
        if rows.contains(row) && row != rows.last() {
            assert(front[rows.index_of(row)] == row);
        }
        if keep(rows.last()) {
            let all = kept.push(rows.last());
            if kept.contains(row) {
                assert(all[kept.index_of(row)] == row);
            }
            assert(all[kept.len() as int] == rows.last());
            if all.contains(row) && row != rows.last() {
                assert(kept[all.index_of(row)] == row);
            }
        }
        assert(rows[rows.len() - 1] == rows.last());
    }
}

/// Every row belongs to just one group: its key stands once among the keys of the groups, and the
/// rows of the group are those with its key.
pub proof fn law_groups_split_rows(
    rows: Seq<Seq<ValueView>>,
    key: spec_fn(Seq<ValueView>) -> Seq<ValueView>,
    row: Seq<ValueView>,
)
    ensures
        group_keys(rows, key).no_duplicates(),
        rows.contains(row) ==> group_keys(rows, key).contains(key(row)),
        forall|group: Seq<ValueView>|
            rows.contains(row) ==> (#[trigger] group_rows(rows, key, group).contains(row) <==> key(
                row,
            ) == group),
    decreases rows.len(),
{
    broadcast use vstd::seq_lib::group_seq_properties;

    if rows.len() > 0 {
        let front = rows.drop_last();
        law_groups_split_rows(front, key, row);
        let before = group_keys(front, key);
        if rows.contains(row) && !front.contains(row) {
            let i = rows.index_of(row);
            if i < front.len() {
                assert(front[i] == row);
            }
            assert(row == rows.last());
        }
        if before.contains(key(row)) && !before.contains(key(rows.last())) {
            let i = before.index_of(key(row));
            assert(group_keys(rows, key)[i] == key(row));
        }
        if !before.contains(key(rows.last())) {
            assert(group_keys(rows, key)[before.len() as int] == key(rows.last()));
        }
    }
    assert forall|group: Seq<ValueView>| rows.contains(row) implies (#[trigger] group_rows(
        rows,
        key,
        group,
    ).contains(row) <==> key(row) == group) by {
        let keep = |row: Seq<ValueView>| key(row) == group;
        lemma_filter_contains(rows, keep, row);
    }
}

/// No two of the five aggregates that graphs have are compiled to the same one: each is compiled to
/// the one of its name. The others count.
pub proof fn law_aggregates_keep_their_names(func: AggregateFunc, other: AggregateFunc)
    ensures
        aggregate_type(func) is Sum <==> func is Sum,
        aggregate_type(func) is Avg <==> func is Avg,
        aggregate_type(func) is Min <==> func is Min,
        aggregate_type(func) is Max <==> func is Max,
        func is Count ==> aggregate_type(func) is Count,
        func != other && aggregate_type(func) == aggregate_type(other) ==> aggregate_type(
            func,
        ) is Count,
{
}

/// What a compiled plan gives, if it compiles.
pub open spec fn compiled_rows(compiled: Option<CompiledView>, world: World) -> Option<
    Seq<Seq<ValueView>>,
> {
    match compiled {
        Some(compiled) => Some(graph_rows(compiled.node, world)),
        None => None,
    }
}

/// A scan of a table gives the rows of the table of that name. A table that is not known gives none.
pub proof fn law_scans_give_the_rows_of_their_table(
    table: String,
    ids: ResolverView,
    schemas: SchemaCatalog,
    world: World,
)
    ensures
        ({
            let (compiled, after) = plan_result(PhysicalPlan::TableScan { table }, ids, schemas);
            &&& compiled is Some <==> schemas.lookup(table@) is Some
            &&& compiled is Some ==> compiled_rows(compiled, world) == Some(
                (world.tables)(after.id_of(table@)),
            )
            &&& compiled is Some ==> compiled->0.layout.tables == seq![table@]
            &&& compiled is Some ==> compiled->0.layout.width_of(table@) == Some(
                schemas.lookup(table@)->0.columns@.len() as usize,
            )
            &&& after.used.dom().contains(table@)
        }),
{
    crate::text::lemma_first_position(seq![table@], table@);
}

/// A lookup by a key gives the rows of the table whose indexed column equals the key.
pub proof fn law_lookups_give_the_rows_of_their_key(
    table: String,
    index: String,
    key: Value,
    ids: ResolverView,
    schemas: SchemaCatalog,
    world: World,
)
    ensures
        ({
            let plan = PhysicalPlan::IndexGet { table, index, key, limit: None };
            let (compiled, after) = plan_result(plan, ids, schemas);
            compiled matches Some(compiled) ==> {
                &&& index_columns_of(schemas, table@, index@) matches Some(columns)
                &&& columns.len() == 1
                &&& graph_rows(compiled.node, world) == (world.tables)(
                    after.id_of(table@),
                ).filter(
                    |row: Seq<ValueView>|
                        world.holds(
                            binary_view(
                                ExprView::Literal(
                                    value_at(compiled.layout, row, table@, columns[0].index),
                                ),
                                BinaryOp::Eq,
                                ExprView::Literal(key@),
                            ),
                            Seq::empty(),
                        ),
                )
            }
        }),
{
    let plan = PhysicalPlan::IndexGet { table, index, key, limit: None };
    let (compiled, after) = plan_result(plan, ids, schemas);
    if let Some(compiled) = compiled {
        let columns = index_columns_of(schemas, table@, index@)->0;
        let source = source_result(table@, ids, schemas).0->0;
        let predicate = binary_view(
            column_view(table@, columns[0]),
            BinaryOp::Eq,
            ExprView::Literal(key@),
        );
        law_filters_keep_rows_that_hold(source, predicate, world);
        let by_plan = |row: Seq<ValueView>|
            world.holds(filled(predicate, source.layout, row), Seq::empty());
        let by_key = |row: Seq<ValueView>|
            world.holds(
                binary_view(
                    ExprView::Literal(value_at(compiled.layout, row, table@, columns[0].index)),
                    BinaryOp::Eq,
                    ExprView::Literal(key@),
                ),
                Seq::empty(),
            );
        assert forall|row: Seq<ValueView>| #[trigger] by_plan(row) == by_key(row) by {
            reveal_with_fuel(filled, 3);
            assert(filled(predicate, source.layout, row) == binary_view(
                ExprView::Literal(value_at(compiled.layout, row, table@, columns[0].index)),
                BinaryOp::Eq,
                ExprView::Literal(key@),
            ));
        }
        assert(by_plan =~= by_key);
    }
}

/// A plan that filters gives the rows of its input on which its predicate is true, a plan that does
/// nothing gives the rows of its input.
pub proof fn law_filter_plans_keep_rows_that_hold(
    input: Box<PhysicalPlan>,
    predicate: Expr,
    ids: ResolverView,
    schemas: SchemaCatalog,
    world: World,
)
    ensures
        ({
            let (before, after) = plan_result(*input, ids, schemas);
            let (compiled, end) = plan_result(
                PhysicalPlan::Filter { input, predicate },
                ids,
                schemas,
            );
            &&& end == after
            &&& compiled is Some <==> before is Some
            &&& compiled is Some ==> compiled->0.layout == before->0.layout
            &&& compiled is Some ==> graph_rows(compiled->0.node, world) == graph_rows(
                before->0.node,
                world,
            ).filter(
                |row: Seq<ValueView>|
                    world.holds(filled(predicate@, before->0.layout, row), Seq::empty()),
            )
            &&& plan_result(PhysicalPlan::NoOp { input }, ids, schemas) == (before, after)
        }),
{
    let (before, after) = plan_result(*input, ids, schemas);
    if let Some(inner) = before {
        law_filters_keep_rows_that_hold(inner, predicate@, world);
    }
}

/// A plan that projects gives the values of its expressions on each row of its input.
pub proof fn law_projection_plans_compute_their_expressions(
    input: Box<PhysicalPlan>,
    columns: Vec<Expr>,
    ids: ResolverView,
    schemas: SchemaCatalog,
    world: World,
    at: int,
    k: int,
)
    ensures
        ({
            let (before, after) = plan_result(*input, ids, schemas);
            let (compiled, end) = plan_result(
                PhysicalPlan::Project { input, columns },
                ids,
                schemas,
            );
            &&& end == after
            &&& compiled is Some <==> before is Some
            &&& compiled is Some && 0 <= at < graph_rows(before->0.node, world).len() && 0 <= k
                < columns@.len() ==> {
                let rows = graph_rows(before->0.node, world);
                let output = graph_rows(compiled->0.node, world);
                &&& output.len() == rows.len()
                &&& output[at].len() == columns@.len()
                &&& output[at][k] == world.value(
                    filled(columns@[k]@, before->0.layout, rows[at]),
                    Seq::empty(),
                )
            }
        }),
{
    let (before, after) = plan_result(*input, ids, schemas);
    if let Some(inner) = before {
        if 0 <= at < graph_rows(inner.node, world).len() && 0 <= k < columns@.len() {
            law_projections_compute_their_expressions(
                inner,
                exprs_view(columns@),
                world,
                at,
                k,
            );
        }
    }
}

/// A plan that groups gives a row for each group of the rows of its input: the values that the
/// group has in common and the answers of the aggregates of the plan for the group.
pub proof fn law_aggregate_plans_answer_for_their_groups(
    input: Box<PhysicalPlan>,
    group_by: Vec<Expr>,
    aggregates: Vec<(AggregateFunc, Expr)>,
    ids: ResolverView,
    schemas: SchemaCatalog,
    world: World,
    at: int,
    k: int,
)
    requires
        forall|i: int| 0 <= i < group_by@.len() ==> #[trigger] exprs_view(group_by@)[i] is Column,
        forall|i: int|
            0 <= i < aggregates@.len() ==> aggregated((#[trigger] aggregates@[i]).1@) is Some,
        0 <= k < aggregates@.len(),
    ensures
        ({
            let (before, after) = plan_result(*input, ids, schemas);
            let (compiled, end) = plan_result(
                PhysicalPlan::HashAggregate { input, group_by, aggregates },
                ids,
                schemas,
            );
            &&& end == after
            &&& compiled is Some <==> before is Some
            &&& compiled is Some ==> {
                let rows = graph_rows(before->0.node, world);
                let key = |row: Seq<ValueView>|
                    grouping(exprs_view(group_by@), before->0.layout, row);
                let groups = group_keys(rows, key);
                let output = graph_rows(compiled->0.node, world);
                &&& output.len() == groups.len()
                &&& 0 <= at < output.len() ==> {
                    &&& output[at].take(group_by@.len() as int) == groups[at]
                    &&& answers(
                        aggregates@[k].0,
                        values_of(
                            group_rows(rows, key, groups[at]),
                            before->0.layout,
                            aggregated(aggregates@[k].1@)->0,
                        ),
                        output[at][group_by@.len() + k],
                        world,
                    )
                }
            }
        }),
{
    let (before, after) = plan_result(*input, ids, schemas);
    if let Some(inner) = before {
        law_aggregates_answer_for_their_groups(
            inner,
            exprs_view(group_by@),
            aggregates@,
            world,
            at,
            k,
        );
    }
}

/// A plan that multiplies gives every pair of a row of its left input and one of its right input.
pub proof fn law_product_plans_pair_all_rows(
    left: Box<PhysicalPlan>,
    right: Box<PhysicalPlan>,
    ids: ResolverView,
    schemas: SchemaCatalog,
    world: World,
)
    requires
        (world.same)(ValueView::Int64(0), ValueView::Int64(0)),
    ensures
        ({
            let (first, middle) = plan_result(*left, ids, schemas);
            let (second, after) = plan_result(*right, middle, schemas);
            let (compiled, _) = plan_result(
                PhysicalPlan::CrossProduct { left, right },
                ids,
                schemas,
            );
            &&& compiled is Some <==> first is Some && second is Some
            &&& compiled is Some ==> graph_rows(compiled->0.node, world) == joined(
                graph_rows(first->0.node, world),
                graph_rows(second->0.node, world),
                |l: Seq<ValueView>, r: Seq<ValueView>| true,
                false,
                false,
                first->0.layout.total(),
                second->0.layout.total(),
            )
        }),
{
    let (first, middle) = plan_result(*left, ids, schemas);
    let (second, after) = plan_result(*right, middle, schemas);
    if first is Some && second is Some {
        law_products_pair_all_rows(first->0, second->0, world);
    }
}

/// Two compiled sides can be joined on a condition that equates their columns, and their tables can
/// be put in an order.
pub open spec fn joinable(
    left: CompiledView,
    right: CompiledView,
    condition: ExprView,
    output_tables: Seq<Seq<char>>,
    world: World,
) -> bool {
    let both = LayoutView::combined(left.layout, right.layout);
    &&& equates_sides(condition, left.layout, right.layout)
    &&& sides_apart(left.layout, right.layout)
    &&& symmetric(world)
    &&& both.sound()
    &&& LayoutView::join(both, LayoutView::empty(), output_tables).sound()
    &&& forall|i: int|
        0 <= i < output_tables.len() ==> both.tables.contains(#[trigger] output_tables[i])
            && both.width_of(output_tables[i]) is Some
}

/// A compiled plan gives the rows of a join.
pub open spec fn gives_join(
    compiled: CompiledView,
    left: CompiledView,
    right: CompiledView,
    condition: ExprView,
    join_type: JoinType,
    output_tables: Seq<Seq<char>>,
    world: World,
) -> bool {
    let both = LayoutView::combined(left.layout, right.layout);
    let rows = rows_joined(left, right, condition, join_type, world);
    let output = graph_rows(compiled.node, world);
    &&& output.len() == rows.len()
    &&& forall|at: int, table: Seq<char>, index: usize|
        #![trigger value_at(compiled.layout, output[at], table, index)]
        0 <= at < rows.len() && output_tables.contains(table) && index < both.width_of(table)->0
            ==> value_at(compiled.layout, output[at], table, index) == value_at(
            both,
            rows[at],
            table,
            index,
        )
}

proof fn lemma_join_gives(
    left: CompiledView,
    right: CompiledView,
    condition: ExprView,
    join_type: JoinType,
    output_tables: Seq<Seq<char>>,
    world: World,
)
    requires
        joinable(left, right, condition, output_tables, world),
    ensures
        ({
            let result = join_result(left, right, condition, join_type, output_tables);
            gives_join(result, left, right, condition, join_type, output_tables, world)
        }),
{
    let both = LayoutView::combined(left.layout, right.layout);
    let result = join_result(left, right, condition, join_type, output_tables);
    let rows = rows_joined(left, right, condition, join_type, world);
    let output = graph_rows(result.node, world);
    lemma_join_length(left, right, condition, join_type, output_tables, world);
    assert forall|at: int, table: Seq<char>, index: usize|
        #![trigger value_at(result.layout, output[at], table, index)]
        0 <= at < rows.len() && output_tables.contains(table) && index < both.width_of(
            table,
        )->0 implies value_at(result.layout, output[at], table, index) == value_at(
        both,
        rows[at],
        table,
        index,
    ) by {
        law_joins_pair_rows_that_match(
            left,
            right,
            condition,
            join_type,
            output_tables,
            world,
            at,
            table,
            index,
        );
    }
}

/// A plan that joins, in whichever way it finds its pairs, gives the pairs of rows of its inputs of
/// which its condition is true, and the rows that match nothing of the side or sides that it keeps.
pub proof fn law_join_plans_pair_rows_that_match(
    left: Box<PhysicalPlan>,
    right: Box<PhysicalPlan>,
    condition: Expr,
    join_type: JoinType,
    output_tables: Vec<String>,
    ids: ResolverView,
    schemas: SchemaCatalog,
    world: World,
)
    ensures
        ({
            let (first, middle) = plan_result(*left, ids, schemas);
            let (second, after) = plan_result(*right, middle, schemas);
            let names = names_view(output_tables@);
            let (hashed, _) = plan_result(
                PhysicalPlan::HashJoin { left, right, condition, join_type, output_tables },
                ids,
                schemas,
            );
            let (merged, _) = plan_result(
                PhysicalPlan::SortMergeJoin { left, right, condition, join_type, output_tables },
                ids,
                schemas,
            );
            let (nested, _) = plan_result(
                PhysicalPlan::NestedLoopJoin { left, right, condition, join_type, output_tables },
                ids,
                schemas,
            );
            &&& hashed is Some <==> first is Some && second is Some
            &&& merged is Some <==> first is Some && second is Some
            &&& nested is Some <==> first is Some && second is Some
            &&& first is Some && second is Some && joinable(
                first->0,
                second->0,
                condition@,
                names,
                world,
            ) ==> {
                &&& gives_join(
                    hashed->0,
                    first->0,
                    second->0,
                    condition@,
                    join_type,
                    names,
                    world,
                )
                &&& gives_join(
                    merged->0,
                    first->0,
                    second->0,
                    condition@,
                    join_type,
                    names,
                    world,
                )
                &&& gives_join(
                    nested->0,
                    first->0,
                    second->0,
                    condition@,
                    join_type,
                    names,
                    world,
                )
            }
        }),
{
    let (first, middle) = plan_result(*left, ids, schemas);
    let (second, after) = plan_result(*right, middle, schemas);
    let names = names_view(output_tables@);
    if first is Some && second is Some && joinable(
        first->0,
        second->0,
        condition@,
        names,
        world,
    ) {
        lemma_join_gives(first->0, second->0, condition@, join_type, names, world);
    }
}

/// A join that looks rows of a table up in an index gives the pairs of rows of its input and of the
/// table of which its condition is true. Its input is the left side or the right side, as it says.
pub proof fn law_index_join_plans_pair_rows_that_match(
    outer: Box<PhysicalPlan>,
    inner_table: String,
    inner_index: String,
    condition: Expr,
    join_type: JoinType,
    outer_is_left: bool,
    output_tables: Vec<String>,
    ids: ResolverView,
    schemas: SchemaCatalog,
    world: World,
)
    ensures
        ({
            let (input, middle) = plan_result(*outer, ids, schemas);
            let (table, after) = plan_result(
                PhysicalPlan::TableScan { table: inner_table },
                middle,
                schemas,
            );
            let names = names_view(output_tables@);
            let (compiled, _) = plan_result(
                PhysicalPlan::IndexNestedLoopJoin {
                    outer,
                    inner_table,
                    inner_index,
                    condition,
                    join_type,
                    outer_is_left,
                    output_tables,
                },
                ids,
                schemas,
            );
            &&& compiled is Some <==> input is Some && table is Some
            &&& compiled is Some && outer_is_left && joinable(
                input->0,
                table->0,
                condition@,
                names,
                world,
            ) ==> gives_join(
                compiled->0,
                input->0,
                table->0,
                condition@,
                join_type,
                names,
                world,
            )
            &&& compiled is Some && !outer_is_left && joinable(
                table->0,
                input->0,
                condition@,
                names,
                world,
            ) ==> gives_join(
                compiled->0,
                table->0,
                input->0,
                condition@,
                join_type,
                names,
                world,
            )
        }),
{
    let (input, middle) = plan_result(*outer, ids, schemas);
    let (table, after) = plan_result(
        PhysicalPlan::TableScan { table: inner_table },
        middle,
        schemas,
    );
    let names = names_view(output_tables@);
    if input is Some && table is Some {
        if joinable(input->0, table->0, condition@, names, world) {
            lemma_join_gives(input->0, table->0, condition@, join_type, names, world);
        }
        if joinable(table->0, input->0, condition@, names, world) {
            lemma_join_gives(table->0, input->0, condition@, join_type, names, world);
        }
    }
}

/// A plan that sorts, or that stops after some rows, wherever in it that happens.
pub open spec fn orders_rows(plan: PhysicalPlan) -> bool
    decreases plan,
{
    match plan {
        PhysicalPlan::Sort { .. } => true,
        PhysicalPlan::TopN { .. } => true,
        PhysicalPlan::Limit { .. } => true,
        PhysicalPlan::Filter { input, .. } => orders_rows(*input),
        PhysicalPlan::Project { input, .. } => orders_rows(*input),
        PhysicalPlan::HashAggregate { input, .. } => orders_rows(*input),
        PhysicalPlan::NoOp { input } => orders_rows(*input),
        PhysicalPlan::HashJoin { left, right, .. } => orders_rows(*left) || orders_rows(*right),
        PhysicalPlan::SortMergeJoin { left, right, .. } => orders_rows(*left) || orders_rows(
            *right,
        ),
        PhysicalPlan::NestedLoopJoin { left, right, .. } => orders_rows(*left) || orders_rows(
            *right,
        ),
        PhysicalPlan::CrossProduct { left, right } => orders_rows(*left) || orders_rows(*right),
        PhysicalPlan::Union { left, right, .. } => orders_rows(*left) || orders_rows(*right),
        PhysicalPlan::IndexNestedLoopJoin { outer, .. } => orders_rows(*outer),
        _ => false,
    }
}

/// A plan can be maintained incrementally just if nothing in it sorts or limits rows.
pub proof fn law_ordered_plans_are_not_maintained(plan: PhysicalPlan)
    ensures
        incrementalizable(plan) <==> !orders_rows(plan),
    decreases plan,
{
    match plan {
        PhysicalPlan::Filter { input, .. } => law_ordered_plans_are_not_maintained(*input),
        PhysicalPlan::Project { input, .. } => law_ordered_plans_are_not_maintained(*input),
        PhysicalPlan::HashAggregate { input, .. } => law_ordered_plans_are_not_maintained(*input),
        PhysicalPlan::NoOp { input } => law_ordered_plans_are_not_maintained(*input),
        PhysicalPlan::HashJoin { left, right, .. } => {
            law_ordered_plans_are_not_maintained(*left);
            law_ordered_plans_are_not_maintained(*right);
        },
        PhysicalPlan::SortMergeJoin { left, right, .. } => {
            law_ordered_plans_are_not_maintained(*left);
            law_ordered_plans_are_not_maintained(*right);
        },
        PhysicalPlan::NestedLoopJoin { left, right, .. } => {
            law_ordered_plans_are_not_maintained(*left);
            law_ordered_plans_are_not_maintained(*right);
        },
        PhysicalPlan::CrossProduct { left, right } => {
            law_ordered_plans_are_not_maintained(*left);
            law_ordered_plans_are_not_maintained(*right);
        },
        PhysicalPlan::Union { left, right, .. } => {
            law_ordered_plans_are_not_maintained(*left);
            law_ordered_plans_are_not_maintained(*right);
        },
        PhysicalPlan::IndexNestedLoopJoin { outer, .. } => {
            law_ordered_plans_are_not_maintained(*outer);
        },
        _ => {},
    }
}

proof fn lemma_filtered_source(
    table: Seq<char>,
    predicate: ExprView,
    ids: ResolverView,
    schemas: SchemaCatalog,
    world: World,
)
    ensures
        ({
            let (compiled, after) = filtered_source_result(table, Some(predicate), ids, schemas);
            &&& compiled is Some <==> schemas.lookup(table) is Some
            &&& compiled is Some ==> graph_rows(compiled->0.node, world) == (world.tables)(
                after.id_of(table),
            ).filter(
                |row: Seq<ValueView>|
                    world.holds(filled(predicate, compiled->0.layout, row), Seq::empty()),
            )
        }),
{
    let (source, after) = source_result(table, ids, schemas);
    if let Some(source) = source {
        law_filters_keep_rows_that_hold(source, predicate, world);
    }
}

/// A lookup by a list of keys gives the rows of the table whose indexed column is one of the keys.
pub proof fn law_key_lists_give_the_rows_of_their_keys(
    table: String,
    index: String,
    keys: Vec<Value>,
    ids: ResolverView,
    schemas: SchemaCatalog,
    world: World,
)
    ensures
        ({
            let plan = PhysicalPlan::IndexInGet { table, index, keys };
            let (compiled, after) = plan_result(plan, ids, schemas);
            compiled matches Some(compiled) ==> {
                &&& index_columns_of(schemas, table@, index@) matches Some(columns)
                &&& columns.len() == 1
                &&& graph_rows(compiled.node, world) == (world.tables)(
                    after.id_of(table@),
                ).filter(
                    |row: Seq<ValueView>|
                        world.holds(
                            ExprView::In {
                                expr: Box::new(
                                    ExprView::Literal(
                                        value_at(compiled.layout, row, table@, columns[0].index),
                                    ),
                                ),
                                list: values_view(keys@).map_values(
                                    |key: ValueView| ExprView::Literal(key),
                                ),
                            },
                            Seq::empty(),
                        ),
                )
            }
        }),
{
    let plan = PhysicalPlan::IndexInGet { table, index, keys };
    let (compiled, after) = plan_result(plan, ids, schemas);
    if let Some(compiled) = compiled {
        let columns = index_columns_of(schemas, table@, index@)->0;
        let list = values_view(keys@).map_values(|key: ValueView| ExprView::Literal(key));
        let predicate = ExprView::In {
            expr: Box::new(column_view(table@, columns[0])),
            list,
        };
        lemma_filtered_source(table@, predicate, ids, schemas, world);
        let by_plan = |row: Seq<ValueView>|
            world.holds(filled(predicate, compiled.layout, row), Seq::empty());
        let by_keys = |row: Seq<ValueView>|
            world.holds(
                ExprView::In {
                    expr: Box::new(
                        ExprView::Literal(
                            value_at(compiled.layout, row, table@, columns[0].index),
                        ),
                    ),
                    list,
                },
                Seq::empty(),
            );
        assert forall|row: Seq<ValueView>| #[trigger] by_plan(row) == by_keys(row) by {
            lemma_filled_lists(predicate, compiled.layout, row);
            assert forall|i: int| 0 <= i < list.len() implies filled(
                #[trigger] list[i],
                compiled.layout,
                row,
            ) == list[i] by {}
            assert(filled_all(list, compiled.layout, row) =~= list);
        }
        assert(by_plan =~= by_keys);
    }
}

/// A scan of an index gives the rows of the table on which the predicate of its bounds is true. One
/// that is limited, that skips rows or that runs backwards does not compile.
pub proof fn law_index_scans_give_the_rows_in_their_bounds(
    table: String,
    index: String,
    bounds: IndexBounds,
    limit: Option<usize>,
    offset: Option<usize>,
    reverse: bool,
    ids: ResolverView,
    schemas: SchemaCatalog,
    world: World,
)
    ensures
        ({
            let plan = PhysicalPlan::IndexScan { table, index, bounds, limit, offset, reverse };
            let (compiled, after) = plan_result(plan, ids, schemas);
            &&& reverse || limit is Some || (offset is Some && offset->0 > 0) ==> compiled is None
            &&& compiled is Some ==> {
                &&& index_columns_of(schemas, table@, index@) matches Some(columns)
                &&& index_scan_predicate(table@, columns, bounds) matches Ok(predicate)
                &&& predicate is None ==> graph_rows(compiled->0.node, world) == (world.tables)(
                    after.id_of(table@),
                )
                &&& predicate is Some ==> graph_rows(compiled->0.node, world) == (world.tables)(
                    after.id_of(table@),
                ).filter(
                    |row: Seq<ValueView>|
                        world.holds(filled(predicate->0, compiled->0.layout, row), Seq::empty()),
                )
            }
        }),
{
    let plan = PhysicalPlan::IndexScan { table, index, bounds, limit, offset, reverse };
    let (compiled, after) = plan_result(plan, ids, schemas);
    if compiled is Some {
        let columns = index_columns_of(schemas, table@, index@)->0;
        if let Ok(Some(predicate)) = index_scan_predicate(table@, columns, bounds) {
            lemma_filtered_source(table@, predicate, ids, schemas, world);
        }
    }
}

} // verus!
