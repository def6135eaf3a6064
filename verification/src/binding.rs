//! Binding of column references to row layouts.
use vstd::prelude::*;

use crate::expr::{
    exprs_view, lemma_list_views, BinaryOp, ColumnRef, ColumnRefView, Expr,
    ExprView,
};
use crate::layout::{CompileLayout, LayoutView};
use crate::value::ValueView;

verus! {

/// The expression with each column reference moved to where the layout holds the column.
pub open spec fn bound_view(expr: ExprView, layout: LayoutView) -> ExprView
    decreases expr,
{
    match expr {
        ExprView::Column(column) => ExprView::Column(
            ColumnRefView {
                table: column.table,
                column: column.column,
                index: layout.resolve(column.table, column.index),
            },
        ),
        ExprView::Literal(value) => ExprView::Literal(value),
        ExprView::BinaryOp { left, op, right } => ExprView::BinaryOp {
            left: Box::new(bound_view(*left, layout)),
            op,
            right: Box::new(bound_view(*right, layout)),
        },
        ExprView::UnaryOp { op, expr } => ExprView::UnaryOp {
            op,
            expr: Box::new(bound_view(*expr, layout)),
        },
        ExprView::Function { name, args } => ExprView::Function {
            name,
            args: Seq::new(
                args.len(),
                |i: int|
                    if 0 <= i < args.len() {
                        bound_view(args[i], layout)
                    } else {
                        ExprView::Literal(ValueView::Null)
                    },
            ),
        },
        ExprView::Aggregate { func, expr, distinct } => ExprView::Aggregate {
            func,
            expr: match expr {
                Some(inner) => Some(Box::new(bound_view(*inner, layout))),
                None => None,
            },
            distinct,
        },
        ExprView::Between { expr, low, high } => ExprView::Between {
            expr: Box::new(bound_view(*expr, layout)),
            low: Box::new(bound_view(*low, layout)),
            high: Box::new(bound_view(*high, layout)),
        },
        ExprView::NotBetween { expr, low, high } => ExprView::NotBetween {
            expr: Box::new(bound_view(*expr, layout)),
            low: Box::new(bound_view(*low, layout)),
            high: Box::new(bound_view(*high, layout)),
        },
        ExprView::In { expr, list } => ExprView::In {
            expr: Box::new(bound_view(*expr, layout)),
            list: Seq::new(
                list.len(),
                |i: int|
                    if 0 <= i < list.len() {
                        bound_view(list[i], layout)
                    } else {
                        ExprView::Literal(ValueView::Null)
                    },
            ),
        },
        ExprView::NotIn { expr, list } => ExprView::NotIn {
            expr: Box::new(bound_view(*expr, layout)),
            list: Seq::new(
                list.len(),
                |i: int|
                    if 0 <= i < list.len() {
                        bound_view(list[i], layout)
                    } else {
                        ExprView::Literal(ValueView::Null)
                    },
            ),
        },
        ExprView::Like { expr, pattern } => ExprView::Like {
            expr: Box::new(bound_view(*expr, layout)),
            pattern,
        },
        ExprView::NotLike { expr, pattern } => ExprView::NotLike {
            expr: Box::new(bound_view(*expr, layout)),
            pattern,
        },
        ExprView::Match { expr, pattern } => ExprView::Match {
            expr: Box::new(bound_view(*expr, layout)),
            pattern,
        },
        ExprView::NotMatch { expr, pattern } => ExprView::NotMatch {
            expr: Box::new(bound_view(*expr, layout)),
            pattern,
        },
    }
}

/// Each expression of a list, bound to the layout.
pub open spec fn bound_views(exprs: Seq<ExprView>, layout: LayoutView) -> Seq<ExprView> {
    exprs.map_values(|expr: ExprView| bound_view(expr, layout))
}

/// The list under a bound expression is the bound list.
pub broadcast proof fn lemma_bound_lists(expr: ExprView, layout: LayoutView)
    ensures
        #![trigger bound_view(expr, layout)]
        expr matches ExprView::Function { name, args } ==> bound_view(expr, layout) == (
        ExprView::Function { name, args: bound_views(args, layout) }),
        expr matches ExprView::In { expr: inner, list } ==> bound_view(expr, layout) == (
        ExprView::In { expr: Box::new(bound_view(*inner, layout)), list: bound_views(list, layout) }),
        expr matches ExprView::NotIn { expr: inner, list } ==> bound_view(expr, layout) == (
        ExprView::NotIn {
            expr: Box::new(bound_view(*inner, layout)),
            list: bound_views(list, layout),
        }),
{
    match expr {
        ExprView::Function { name, args } => {
            assert(bound_view(expr, layout)->Function_args =~= bound_views(args, layout));
        },
        ExprView::In { expr: inner, list } => {
            assert(bound_view(expr, layout)->In_list =~= bound_views(list, layout));
        },
        ExprView::NotIn { expr: inner, list } => {
            assert(bound_view(expr, layout)->NotIn_list =~= bound_views(list, layout));
        },
        _ => {},
    }
}

/// Binds each expression of a list to a layout.
pub fn bind_exprs_to_layout(exprs: &Vec<Expr>, layout: &CompileLayout) -> (result: Vec<Expr>)
    ensures
        exprs_view(result@) == bound_views(exprs_view(exprs@), layout@),
    decreases exprs,
{
    let mut result: Vec<Expr> = Vec::new();
    let mut i: usize = 0;
    while i < exprs.len()
        invariant
            i <= exprs.len(),
            result.len() == i,
            forall|j: int|
                0 <= j < i ==> (#[trigger] result@[j])@ == bound_view(exprs@[j]@, layout@),
        decreases exprs.len() - i,
    {
        result.push(bind_expr_to_layout(&exprs[i], layout));
        i += 1;
    }
    assert(exprs_view(result@) =~= bound_views(exprs_view(exprs@), layout@));
    result
}

/// Moves each column reference of an expression to where the layout holds the column.
pub fn bind_expr_to_layout(expr: &Expr, layout: &CompileLayout) -> (result: Expr)
    ensures
        result@ == bound_view(expr@, layout@),
    decreases expr,
{
    broadcast use {lemma_list_views, lemma_bound_lists};

    match expr {
        Expr::Column(column) => Expr::Column(
            ColumnRef {
                table: column.table.clone(),
                column: column.column.clone(),
                index: layout.resolve_column_index(column.table.as_str(), column.index),
            },
        ),
        Expr::Literal(value) => Expr::Literal(value.clone()),
        Expr::BinaryOp { left, op, right } => Expr::BinaryOp {
            left: Box::new(bind_expr_to_layout(left, layout)),
            op: *op,
            right: Box::new(bind_expr_to_layout(right, layout)),
        },
        Expr::UnaryOp { op, expr } => Expr::UnaryOp {
            op: *op,
            expr: Box::new(bind_expr_to_layout(expr, layout)),
        },
        Expr::Function { name, args } => Expr::Function {
            name: name.clone(),
            args: bind_exprs_to_layout(args, layout),
        },
        Expr::Aggregate { func, expr, distinct } => Expr::Aggregate {
            func: *func,
            expr: match expr {
                Some(inner) => Some(Box::new(bind_expr_to_layout(inner, layout))),
                None => None,
            },
            distinct: *distinct,
        },
        Expr::Between { expr, low, high } => Expr::Between {
            expr: Box::new(bind_expr_to_layout(expr, layout)),
            low: Box::new(bind_expr_to_layout(low, layout)),
            high: Box::new(bind_expr_to_layout(high, layout)),
        },
        Expr::NotBetween { expr, low, high } => Expr::NotBetween {
            expr: Box::new(bind_expr_to_layout(expr, layout)),
            low: Box::new(bind_expr_to_layout(low, layout)),
            high: Box::new(bind_expr_to_layout(high, layout)),
        },
        Expr::In { expr, list } => Expr::In {
            expr: Box::new(bind_expr_to_layout(expr, layout)),
            list: bind_exprs_to_layout(list, layout),
        },
        Expr::NotIn { expr, list } => Expr::NotIn {
            expr: Box::new(bind_expr_to_layout(expr, layout)),
            list: bind_exprs_to_layout(list, layout),
        },
        Expr::Like { expr, pattern } => Expr::Like {
            expr: Box::new(bind_expr_to_layout(expr, layout)),
            pattern: pattern.clone(),
        },
        Expr::NotLike { expr, pattern } => Expr::NotLike {
            expr: Box::new(bind_expr_to_layout(expr, layout)),
            pattern: pattern.clone(),
        },
        Expr::Match { expr, pattern } => Expr::Match {
            expr: Box::new(bind_expr_to_layout(expr, layout)),
            pattern: pattern.clone(),
        },
        Expr::NotMatch { expr, pattern } => Expr::NotMatch {
            expr: Box::new(bind_expr_to_layout(expr, layout)),
            pattern: pattern.clone(),
        },
    }
}

/// The position of an expression that is a plain column.
pub open spec fn column_index_of(expr: ExprView) -> Option<usize> {
    match expr {
        ExprView::Column(column) => Some(column.index),
        _ => None,
    }
}

/// The positions of those expressions of a list that are plain columns.
pub open spec fn column_indices_of(exprs: Seq<ExprView>) -> Seq<usize>
    decreases exprs.len(),
{
    if exprs.len() == 0 {
        Seq::empty()
    } else {
        let before = column_indices_of(exprs.drop_last());
        match column_index_of(exprs.last()) {
            Some(index) => before.push(index),
            None => before,
        }
    }
}

/// The position of an expression that is a plain column.
pub fn extract_column_index(expr: &Expr) -> (result: Option<usize>)
    ensures
        result == column_index_of(expr@),
{
    match expr {
        Expr::Column(column) => Some(column.index),
        _ => None,
    }
}

/// The column reference that an expression is.
pub fn extract_column_ref(expr: &Expr) -> (result: Option<&ColumnRef>)
    ensures
        match expr@ {
            ExprView::Column(column) => result is Some && result->0@ == column,
            _ => result is None,
        },
{
    match expr {
        Expr::Column(column) => Some(column),
        _ => None,
    }
}

/// The positions of those expressions of a list that are plain columns.
pub fn extract_column_indices(exprs: &Vec<Expr>) -> (result: Vec<usize>)
    ensures
        result@ == column_indices_of(exprs_view(exprs@)),
        result.len() <= exprs.len(),
{
    let mut result: Vec<usize> = Vec::new();
    let mut i: usize = 0;
    while i < exprs.len()
        invariant
            i <= exprs.len(),
            result.len() <= i,
            result@ == column_indices_of(exprs_view(exprs@).take(i as int)),
        decreases exprs.len() - i,
    {
        let ghost views = exprs_view(exprs@);
        assert(views.take(i + 1).drop_last() =~= views.take(i as int));
        if let Some(index) = extract_column_index(&exprs[i]) {
            result.push(index);
        }
        i += 1;
    }
    assert(exprs_view(exprs@).take(exprs@.len() as int) =~= exprs_view(exprs@));
    result
}

/// Pairs of positions, left and right, of the columns that a join condition equates: the
/// conjuncts of the form `column = column` with one side in each layout.
pub open spec fn equi_join_pairs(
    condition: ExprView,
    left_layout: LayoutView,
    right_layout: LayoutView,
) -> Seq<(usize, usize)>
    decreases condition,
{
    match condition {
        ExprView::BinaryOp { left, op: BinaryOp::Eq, right } => match (*left, *right) {
            (ExprView::Column(a), ExprView::Column(b)) => {
                if left_layout.tables.contains(a.table) && right_layout.tables.contains(b.table) {
                    seq![
                        (
                            left_layout.resolve(a.table, a.index),
                            right_layout.resolve(b.table, b.index),
                        ),
                    ]
                } else if left_layout.tables.contains(b.table) && right_layout.tables.contains(
                    a.table,
                ) {
                    seq![
                        (
                            left_layout.resolve(b.table, b.index),
                            right_layout.resolve(a.table, a.index),
                        ),
                    ]
                } else {
                    Seq::empty()
                }
            },
            _ => Seq::empty(),
        },
        ExprView::BinaryOp { left, op: BinaryOp::And, right } => equi_join_pairs(
            *left,
            left_layout,
            right_layout,
        ) + equi_join_pairs(*right, left_layout, right_layout),
        _ => Seq::empty(),
    }
}

/// Left positions of a list of pairs.
pub open spec fn left_positions(pairs: Seq<(usize, usize)>) -> Seq<usize> {
    pairs.map_values(|pair: (usize, usize)| pair.0)
}

/// Right positions of a list of pairs.
pub open spec fn right_positions(pairs: Seq<(usize, usize)>) -> Seq<usize> {
    pairs.map_values(|pair: (usize, usize)| pair.1)
}

/// Appends the positions of the columns that a join condition equates.
pub fn collect_equi_join_keys(
    expr: &Expr,
    left_layout: &CompileLayout,
    right_layout: &CompileLayout,
    left_indices: &mut Vec<usize>,
    right_indices: &mut Vec<usize>,
)
    ensures
        final(left_indices)@ == old(left_indices)@ + left_positions(
            equi_join_pairs(expr@, left_layout@, right_layout@),
        ),
        final(right_indices)@ == old(right_indices)@ + right_positions(
            equi_join_pairs(expr@, left_layout@, right_layout@),
        ),
    decreases expr,
{
    match expr {
        Expr::BinaryOp { left, op, right } => {
            if *op == BinaryOp::Eq {
                if let (Some(a), Some(b)) = (extract_column_ref(left), extract_column_ref(right)) {
                    if left_layout.contains_table(a.table.as_str())
                        && right_layout.contains_table(b.table.as_str()) {
                        left_indices.push(
                            left_layout.resolve_column_index(a.table.as_str(), a.index),
                        );
                        right_indices.push(
                            right_layout.resolve_column_index(b.table.as_str(), b.index),
                        );
                    } else if left_layout.contains_table(b.table.as_str())
                        && right_layout.contains_table(a.table.as_str()) {
                        left_indices.push(
                            left_layout.resolve_column_index(b.table.as_str(), b.index),
                        );
                        right_indices.push(
                            right_layout.resolve_column_index(a.table.as_str(), a.index),
                        );
                    }
                }
            } else if *op == BinaryOp::And {
                collect_equi_join_keys(left, left_layout, right_layout, left_indices, right_indices);
                collect_equi_join_keys(
                    right,
                    left_layout,
                    right_layout,
                    left_indices,
                    right_indices,
                );
            }
        },
        _ => {},
    }
    assert(left_indices@ =~= old(left_indices)@ + left_positions(
        equi_join_pairs(expr@, left_layout@, right_layout@),
    ));
    assert(right_indices@ =~= old(right_indices)@ + right_positions(
        equi_join_pairs(expr@, left_layout@, right_layout@),
    ));
}

} // verus!
