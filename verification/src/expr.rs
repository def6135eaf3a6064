//! Scalar expressions.
use vstd::prelude::*;

use crate::value::{Value, ValueView};

verus! {

/// Operators with two operands.
#[derive(Clone, Copy, Debug, PartialEq, Eq, Structural)]
pub enum BinaryOp {
    Eq,
    Ne,
    Lt,
    Le,
    Gt,
    Ge,
    And,
    Or,
    Add,
    Sub,
    Mul,
    Div,
    Mod,
    Like,
    In,
    Between,
}

/// Operators with one operand.
#[derive(Clone, Copy, Debug, PartialEq, Eq, Structural)]
pub enum UnaryOp {
    Not,
    Neg,
    IsNull,
    IsNotNull,
}

/// Aggregate functions of a query.
#[derive(Clone, Copy, Debug, PartialEq, Eq, Structural)]
pub enum AggregateFunc {
    Count,
    Sum,
    Avg,
    Min,
    Max,
    Distinct,
    StdDev,
    GeoMean,
}

/// A column of a table, by name and by position in the table.
#[derive(Debug)]
pub struct ColumnRef {
    pub table: String,
    pub column: String,
    pub index: usize,
}

/// What a [`ColumnRef`] names.
pub struct ColumnRefView {
    pub table: Seq<char>,
    pub column: Seq<char>,
    pub index: usize,
}

impl View for ColumnRef {
    type V = ColumnRefView;

    open spec fn view(&self) -> ColumnRefView {
        ColumnRefView { table: self.table@, column: self.column@, index: self.index }
    }
}

/// A scalar expression.
#[derive(Debug)]
#[allow(inconsistent_fields)]
pub enum Expr {
    Column(ColumnRef),
    Literal(Value),
    BinaryOp { left: Box<Expr>, op: BinaryOp, right: Box<Expr> },
    UnaryOp { op: UnaryOp, expr: Box<Expr> },
    Function { name: String, args: Vec<Expr> },
    Aggregate { func: AggregateFunc, expr: Option<Box<Expr>>, distinct: bool },
    Between { expr: Box<Expr>, low: Box<Expr>, high: Box<Expr> },
    NotBetween { expr: Box<Expr>, low: Box<Expr>, high: Box<Expr> },
    In { expr: Box<Expr>, list: Vec<Expr> },
    NotIn { expr: Box<Expr>, list: Vec<Expr> },
    Like { expr: Box<Expr>, pattern: String },
    NotLike { expr: Box<Expr>, pattern: String },
    Match { expr: Box<Expr>, pattern: String },
    NotMatch { expr: Box<Expr>, pattern: String },
}

/// The tree that an [`Expr`] is.
#[allow(inconsistent_fields)]
pub enum ExprView {
    Column(ColumnRefView),
    Literal(ValueView),
    BinaryOp { left: Box<ExprView>, op: BinaryOp, right: Box<ExprView> },
    UnaryOp { op: UnaryOp, expr: Box<ExprView> },
    Function { name: Seq<char>, args: Seq<ExprView> },
    Aggregate { func: AggregateFunc, expr: Option<Box<ExprView>>, distinct: bool },
    Between { expr: Box<ExprView>, low: Box<ExprView>, high: Box<ExprView> },
    NotBetween { expr: Box<ExprView>, low: Box<ExprView>, high: Box<ExprView> },
    In { expr: Box<ExprView>, list: Seq<ExprView> },
    NotIn { expr: Box<ExprView>, list: Seq<ExprView> },
    Like { expr: Box<ExprView>, pattern: Seq<char> },
    NotLike { expr: Box<ExprView>, pattern: Seq<char> },
    Match { expr: Box<ExprView>, pattern: Seq<char> },
    NotMatch { expr: Box<ExprView>, pattern: Seq<char> },
}

impl Expr {
    /// The tree of this expression.
    pub open spec fn view(&self) -> ExprView
        decreases self,
    {
        match self {
            Expr::Column(column) => ExprView::Column(column@),
            Expr::Literal(value) => ExprView::Literal(value@),
            Expr::BinaryOp { left, op, right } => ExprView::BinaryOp {
                left: Box::new(left.view()),
                op: *op,
                right: Box::new(right.view()),
            },
            Expr::UnaryOp { op, expr } => ExprView::UnaryOp {
                op: *op,
                expr: Box::new(expr.view()),
            },
            Expr::Function { name, args } => ExprView::Function {
                name: name@,
                args: Seq::new(
                    args@.len(),
                    |i: int|
                        if 0 <= i < args@.len() {
                            args@[i].view()
                        } else {
                            ExprView::Literal(ValueView::Null)
                        },
                ),
            },
            Expr::Aggregate { func, expr, distinct } => ExprView::Aggregate {
                func: *func,
                expr: match expr {
                    Some(inner) => Some(Box::new(inner.view())),
                    None => None,
                },
                distinct: *distinct,
            },
            Expr::Between { expr, low, high } => ExprView::Between {
                expr: Box::new(expr.view()),
                low: Box::new(low.view()),
                high: Box::new(high.view()),
            },
            Expr::NotBetween { expr, low, high } => ExprView::NotBetween {
                expr: Box::new(expr.view()),
                low: Box::new(low.view()),
                high: Box::new(high.view()),
            },
            Expr::In { expr, list } => ExprView::In {
                expr: Box::new(expr.view()),
                list: Seq::new(
                    list@.len(),
                    |i: int|
                        if 0 <= i < list@.len() {
                            list@[i].view()
                        } else {
                            ExprView::Literal(ValueView::Null)
                        },
                ),
            },
            Expr::NotIn { expr, list } => ExprView::NotIn {
                expr: Box::new(expr.view()),
                list: Seq::new(
                    list@.len(),
                    |i: int|
                        if 0 <= i < list@.len() {
                            list@[i].view()
                        } else {
                            ExprView::Literal(ValueView::Null)
                        },
                ),
            },
            Expr::Like { expr, pattern } => ExprView::Like {
                expr: Box::new(expr.view()),
                pattern: pattern@,
            },
            Expr::NotLike { expr, pattern } => ExprView::NotLike {
                expr: Box::new(expr.view()),
                pattern: pattern@,
            },
            Expr::Match { expr, pattern } => ExprView::Match {
                expr: Box::new(expr.view()),
                pattern: pattern@,
            },
            Expr::NotMatch { expr, pattern } => ExprView::NotMatch {
                expr: Box::new(expr.view()),
                pattern: pattern@,
            },
        }
    }
}

/// The trees of a list of expressions.
pub open spec fn exprs_view(exprs: Seq<Expr>) -> Seq<ExprView> {
    exprs.map_values(|expr: Expr| expr@)
}

/// The trees stored under an expression with a list are those of the list.
pub broadcast proof fn lemma_list_views(expr: Expr)
    ensures
        #![trigger expr@]
        expr matches Expr::Function { name, args } ==> expr@ == (ExprView::Function {
            name: name@,
            args: exprs_view(args@),
        }),
        expr matches Expr::In { expr: inner, list } ==> expr@ == (ExprView::In {
            expr: Box::new(inner@),
            list: exprs_view(list@),
        }),
        expr matches Expr::NotIn { expr: inner, list } ==> expr@ == (ExprView::NotIn {
            expr: Box::new(inner@),
            list: exprs_view(list@),
        }),
{
    match expr {
        Expr::Function { name, args } => {
            assert(expr@->Function_args =~= exprs_view(args@));
        },
        Expr::In { expr: inner, list } => {
            assert(expr@->In_list =~= exprs_view(list@));
        },
        Expr::NotIn { expr: inner, list } => {
            assert(expr@->NotIn_list =~= exprs_view(list@));
        },
        _ => {},
    }
}

impl Clone for ColumnRef {
    fn clone(&self) -> (result: Self)
        ensures
            result@ == self@,
    {
        ColumnRef { table: self.table.clone(), column: self.column.clone(), index: self.index }
    }
}

/// Copies a list of expressions.
pub fn clone_exprs(exprs: &Vec<Expr>) -> (result: Vec<Expr>)
    ensures
        exprs_view(result@) == exprs_view(exprs@),
    decreases exprs,
{
    let mut result: Vec<Expr> = Vec::new();
    let mut i: usize = 0;
    while i < exprs.len()
        invariant
            i <= exprs.len(),
            result.len() == i,
            forall|j: int| 0 <= j < i ==> (#[trigger] result@[j])@ == exprs@[j]@,
        decreases exprs.len() - i,
    {
        result.push(clone_expr(&exprs[i]));
        i += 1;
    }
    assert(exprs_view(result@) =~= exprs_view(exprs@));
    result
}

/// Copies an expression.
pub fn clone_expr(expr: &Expr) -> (result: Expr)
    ensures
        result@ == expr@,
    decreases expr,
{
    broadcast use lemma_list_views;

    match expr {
        Expr::Column(column) => Expr::Column(column.clone()),
        Expr::Literal(value) => Expr::Literal(value.clone()),
        Expr::BinaryOp { left, op, right } => Expr::BinaryOp {
            left: Box::new(clone_expr(left)),
            op: *op,
            right: Box::new(clone_expr(right)),
        },
        Expr::UnaryOp { op, expr } => Expr::UnaryOp { op: *op, expr: Box::new(clone_expr(expr)) },
        Expr::Function { name, args } => Expr::Function {
            name: name.clone(),
            args: clone_exprs(args),
        },
        Expr::Aggregate { func, expr, distinct } => Expr::Aggregate {
            func: *func,
            expr: match expr {
                Some(inner) => Some(Box::new(clone_expr(inner))),
                None => None,
            },
            distinct: *distinct,
        },
        Expr::Between { expr, low, high } => Expr::Between {
            expr: Box::new(clone_expr(expr)),
            low: Box::new(clone_expr(low)),
            high: Box::new(clone_expr(high)),
        },
        Expr::NotBetween { expr, low, high } => Expr::NotBetween {
            expr: Box::new(clone_expr(expr)),
            low: Box::new(clone_expr(low)),
            high: Box::new(clone_expr(high)),
        },
        Expr::In { expr, list } => Expr::In {
            expr: Box::new(clone_expr(expr)),
            list: clone_exprs(list),
        },
        Expr::NotIn { expr, list } => Expr::NotIn {
            expr: Box::new(clone_expr(expr)),
            list: clone_exprs(list),
        },
        Expr::Like { expr, pattern } => Expr::Like {
            expr: Box::new(clone_expr(expr)),
            pattern: pattern.clone(),
        },
        Expr::NotLike { expr, pattern } => Expr::NotLike {
            expr: Box::new(clone_expr(expr)),
            pattern: pattern.clone(),
        },
        Expr::Match { expr, pattern } => Expr::Match {
            expr: Box::new(clone_expr(expr)),
            pattern: pattern.clone(),
        },
        Expr::NotMatch { expr, pattern } => Expr::NotMatch {
            expr: Box::new(clone_expr(expr)),
            pattern: pattern.clone(),
        },
    }
}

/// The tree of a comparison or another operation on two operands.
pub open spec fn binary_view(left: ExprView, op: BinaryOp, right: ExprView) -> ExprView {
    ExprView::BinaryOp { left: Box::new(left), op, right: Box::new(right) }
}

impl Expr {
    /// A reference to a column.
    pub fn column(table: &str, column: &str, index: usize) -> (result: Expr)
        ensures
            result@ == ExprView::Column(
                ColumnRefView { table: table@, column: column@, index },
            ),
    {
        Expr::Column(ColumnRef { table: table.to_owned(), column: column.to_owned(), index })
    }

    /// A constant.
    pub fn literal(value: Value) -> (result: Expr)
        ensures
            result@ == ExprView::Literal(value@),
    {
        Expr::Literal(value)
    }

    /// An operation on two operands.
    pub fn binary(left: Expr, op: BinaryOp, right: Expr) -> (result: Expr)
        ensures
            result@ == binary_view(left@, op, right@),
    {
        Expr::BinaryOp { left: Box::new(left), op, right: Box::new(right) }
    }
}

} // verus!
