//! Predicates that stand for index access.
use vstd::prelude::*;

use crate::eval::{column_value, comparison_of, eval_view, StepView};
use crate::expr::{binary_view, clone_expr, exprs_view, BinaryOp, ColumnRefView, Expr, ExprView};
use crate::facts::{Comparison, FactsView};
use crate::plan::{composite_range_view, scalar_range_view, IndexBounds, KeyRange};
use crate::schema::{SchemaCatalog, Table};
use crate::text::names_view;
use crate::value::{same_values, values_view, Value, ValueView};

verus! {

/// A column of an index, by name and by position in its table.
pub struct IndexedColumnRef {
    pub name: String,
    pub index: usize,
}

/// What an [`IndexedColumnRef`] names.
pub struct IndexedColumnView {
    pub name: Seq<char>,
    pub index: usize,
}

impl View for IndexedColumnRef {
    type V = IndexedColumnView;

    open spec fn view(&self) -> IndexedColumnView {
        IndexedColumnView { name: self.name@, index: self.index }
    }
}

/// What a list of indexed columns names.
pub open spec fn indexed_columns_view(columns: Seq<IndexedColumnRef>) -> Seq<IndexedColumnView> {
    columns.map_values(|column: IndexedColumnRef| column@)
}

/// The columns of an index with their positions, if the table has all of them.
pub open spec fn positioned_columns(table: Table, names: Seq<Seq<char>>) -> Option<
    Seq<IndexedColumnView>,
> {
    if forall|i: int| 0 <= i < names.len() ==> table.column_position(#[trigger] names[i]) is Some {
        Some(
            Seq::new(
                names.len(),
                |i: int|
                    IndexedColumnView {
                        name: names[i],
                        index: table.column_position(names[i])->0 as usize,
                    },
            ),
        )
    } else {
        None
    }
}

/// The columns of the index that a name stands for, with their positions in the table.
pub open spec fn index_columns_of(
    catalog: SchemaCatalog,
    table: Seq<char>,
    index_name: Seq<char>,
) -> Option<Seq<IndexedColumnView>> {
    match catalog.lookup(table) {
        Some(schema) => match schema.index_named(index_name) {
            Some(index) => positioned_columns(schema, names_view(index.columns@)),
            None => None,
        },
        None => None,
    }
}

/// Finds the columns of the index that a name stands for, with their positions in the table.
pub fn lookup_index_columns(
    table_schemas: &SchemaCatalog,
    table: &str,
    index_name: &str,
) -> (result: Option<Vec<IndexedColumnRef>>)
    ensures
        match index_columns_of(*table_schemas, table@, index_name@) {
            Some(columns) => result is Some && indexed_columns_view(result->0@) == columns,
            None => result is None,
        },
{
    let schema = match table_schemas.get(table) {
        Some(schema) => schema,
        None => {
            return None;
        },
    };
    let index = match schema.find_index(index_name) {
        Some(index) => index,
        None => {
            return None;
        },
    };
    let ghost names = names_view(index.columns@);
    let mut columns: Vec<IndexedColumnRef> = Vec::new();
    let mut i: usize = 0;
    while i < index.columns.len()
        invariant
            i <= index.columns.len(),
            columns.len() == i,
            table_schemas.lookup(table@) == Some(*schema),
            schema.index_named(index_name@) == Some(*index),
            names == names_view(index.columns@),
            forall|j: int| 0 <= j < i ==> schema.column_position(#[trigger] names[j]) is Some,
            forall|j: int|
                0 <= j < i ==> (#[trigger] columns@[j])@ == (IndexedColumnView {
                    name: names[j],
                    index: schema.column_position(names[j])->0 as usize,
                }),
        decreases index.columns.len() - i,
    {
        assert(names[i as int] == index.columns@[i as int]@);
        match schema.get_column_index(index.columns[i].as_str()) {
            Some(position) => {
                columns.push(
                    IndexedColumnRef { name: index.columns[i].clone(), index: position },
                );
            },
            None => {
                return None;
            },
        }
        i += 1;
    }
    assert(indexed_columns_view(columns@) =~= positioned_columns(*schema, names)->0);
    Some(columns)
}

/// The reference to an indexed column.
pub open spec fn column_view(table: Seq<char>, column: IndexedColumnView) -> ExprView {
    ExprView::Column(ColumnRefView { table, column: column.name, index: column.index })
}

/// The reference to an indexed column.
pub fn column_expr(table: &str, column: &IndexedColumnRef) -> (result: Expr)
    ensures
        result@ == column_view(table@, column@),
{
    Expr::column(table, column.name.as_str(), column.index)
}

/// A conjunction: `first`, then each further predicate in order.
pub open spec fn conjunction(first: ExprView, rest: Seq<ExprView>) -> ExprView
    decreases rest.len(),
{
    if rest.len() == 0 {
        first
    } else {
        binary_view(conjunction(first, rest.drop_last()), BinaryOp::And, rest.last())
    }
}

/// The conjunction of a list of predicates, the last one in front.
pub open spec fn all_of(predicates: Seq<ExprView>) -> Option<ExprView> {
    if predicates.len() == 0 {
        None
    } else {
        Some(conjunction(predicates.last(), predicates.drop_last()))
    }
}

/// Joins a list of predicates by `AND`, the last one in front.
pub fn combine_with_and(predicates: Vec<Expr>) -> (result: Option<Expr>)
    ensures
        match all_of(exprs_view(predicates@)) {
            Some(expr) => result is Some && result->0@ == expr,
            None => result is None,
        },
{
    let ghost views = exprs_view(predicates@);
    if predicates.len() == 0 {
        return None;
    }
    let last: usize = predicates.len() - 1;
    let mut combined = clone_expr(&predicates[last]);
    let mut i: usize = 0;
    while i < last
        invariant
            i <= last,
            last == predicates.len() - 1,
            views == exprs_view(predicates@),
            combined@ == conjunction(views.last(), views.drop_last().take(i as int)),
        decreases last - i,
    {
        let ghost rest = views.drop_last();
        assert(rest.take(i + 1).drop_last() =~= rest.take(i as int));
        assert(rest.take(i + 1).last() == predicates@[i as int]@);
        combined = Expr::binary(combined, BinaryOp::And, clone_expr(&predicates[i]));
        i += 1;
    }
    assert(views.drop_last().take(last as int) =~= views.drop_last());
    Some(combined)
}

/// The predicate that a range of keys of one column stands for.
pub open spec fn scalar_predicate(
    table: Seq<char>,
    column: IndexedColumnView,
    range: KeyRange<ValueView>,
) -> Option<ExprView> {
    let expr = column_view(table, column);
    match range {
        KeyRange::All => None,
        KeyRange::Only(value) => Some(binary_view(expr, BinaryOp::Eq, ExprView::Literal(value))),
        KeyRange::LowerBound { value, exclusive } => Some(
            binary_view(
                expr,
                if exclusive {
                    BinaryOp::Gt
                } else {
                    BinaryOp::Ge
                },
                ExprView::Literal(value),
            ),
        ),
        KeyRange::UpperBound { value, exclusive } => Some(
            binary_view(
                expr,
                if exclusive {
                    BinaryOp::Lt
                } else {
                    BinaryOp::Le
                },
                ExprView::Literal(value),
            ),
        ),
        KeyRange::Bound { lower, upper, lower_exclusive, upper_exclusive } => Some(
            binary_view(
                binary_view(
                    expr,
                    if upper_exclusive {
                        BinaryOp::Lt
                    } else {
                        BinaryOp::Le
                    },
                    ExprView::Literal(upper),
                ),
                BinaryOp::And,
                binary_view(
                    expr,
                    if lower_exclusive {
                        BinaryOp::Gt
                    } else {
                        BinaryOp::Ge
                    },
                    ExprView::Literal(lower),
                ),
            ),
        ),
    }
}

/// Builds the predicate that a range of keys of one column stands for.
pub fn build_scalar_range_predicate(
    table: &str,
    column: &IndexedColumnRef,
    range: &KeyRange<Value>,
) -> (result: Option<Expr>)
    ensures
        match scalar_predicate(table@, column@, scalar_range_view(*range)) {
            Some(expr) => result is Some && result->0@ == expr,
            None => result is None,
        },
{
    let expr = column_expr(table, column);
    match range {
        KeyRange::All => None,
        KeyRange::Only(value) => Some(
            Expr::binary(expr, BinaryOp::Eq, Expr::literal(value.clone())),
        ),
        KeyRange::LowerBound { value, exclusive } => {
            let op = if *exclusive {
                BinaryOp::Gt
            } else {
                BinaryOp::Ge
            };
            Some(Expr::binary(expr, op, Expr::literal(value.clone())))
        },
        KeyRange::UpperBound { value, exclusive } => {
            let op = if *exclusive {
                BinaryOp::Lt
            } else {
                BinaryOp::Le
            };
            Some(Expr::binary(expr, op, Expr::literal(value.clone())))
        },
        KeyRange::Bound { lower, upper, lower_exclusive, upper_exclusive } => {
            let lower_op = if *lower_exclusive {
                BinaryOp::Gt
            } else {
                BinaryOp::Ge
            };
            let upper_op = if *upper_exclusive {
                BinaryOp::Lt
            } else {
                BinaryOp::Le
            };
            let above = Expr::binary(
                column_expr(table, column),
                lower_op,
                Expr::literal(lower.clone()),
            );
            let below = Expr::binary(expr, upper_op, Expr::literal(upper.clone()));
            let predicates = vec![above, below];
            let ghost views = exprs_view(predicates@);
            assert(views.drop_last() =~= seq![above@]);
            assert(views.drop_last().drop_last() =~= Seq::empty());
            proof {
                reveal_with_fuel(conjunction, 2);
            }
            combine_with_and(predicates)
        },
    }
}

/// The equalities of a composite key, column by column.
pub open spec fn composite_equalities(
    table: Seq<char>,
    columns: Seq<IndexedColumnView>,
    values: Seq<ValueView>,
) -> Seq<ExprView> {
    Seq::new(
        columns.len(),
        |i: int|
            binary_view(
                column_view(table, columns[i]),
                BinaryOp::Eq,
                ExprView::Literal(values[i]),
            ),
    )
}

/// The predicate that one composite key stands for, if it has a value for each column.
pub open spec fn composite_predicate(
    table: Seq<char>,
    columns: Seq<IndexedColumnView>,
    values: Seq<ValueView>,
) -> Option<ExprView> {
    if columns.len() == values.len() {
        all_of(composite_equalities(table, columns, values))
    } else {
        None
    }
}

/// Builds the predicate that one composite key stands for; there is none unless the key has a
/// value for each of one or more columns.
pub fn build_composite_only_predicate(
    table: &str,
    indexed_columns: &[IndexedColumnRef],
    values: &[Value],
) -> (result: Result<Expr, ()>)
    ensures
        match composite_predicate(
            table@,
            indexed_columns_view(indexed_columns@),
            values_view(values@),
        ) {
            Some(expr) => result is Ok && result->Ok_0@ == expr,
            None => result is Err,
        },
{
    if indexed_columns.len() != values.len() || indexed_columns.len() == 0 {
        return Err(());
    }
    let ghost equalities = composite_equalities(
        table@,
        indexed_columns_view(indexed_columns@),
        values_view(values@),
    );
    let mut predicates: Vec<Expr> = Vec::new();
    let mut i: usize = 0;
    while i < indexed_columns.len()
        invariant
            i <= indexed_columns.len(),
            indexed_columns.len() == values.len(),
            predicates.len() == i,
            equalities == composite_equalities(
                table@,
                indexed_columns_view(indexed_columns@),
                values_view(values@),
            ),
            forall|j: int| 0 <= j < i ==> (#[trigger] predicates@[j])@ == equalities[j],
        decreases indexed_columns.len() - i,
    {
        predicates.push(
            Expr::binary(
                column_expr(table, &indexed_columns[i]),
                BinaryOp::Eq,
                Expr::literal(values[i].clone()),
            ),
        );
        i += 1;
    }
    assert(exprs_view(predicates@) =~= equalities);
    match combine_with_and(predicates) {
        Some(expr) => Ok(expr),
        None => Err(()),
    }
}

/// The predicate that index bounds stand for. `Err` marks bounds that no predicate on the
/// indexed columns states.
pub open spec fn index_scan_predicate(
    table: Seq<char>,
    columns: Seq<IndexedColumnView>,
    bounds: IndexBounds,
) -> Result<Option<ExprView>, ()> {
    match bounds {
        IndexBounds::Unbounded => Ok(None),
        IndexBounds::Scalar(range) => if columns.len() == 1 {
            Ok(scalar_predicate(table, columns[0], scalar_range_view(range)))
        } else {
            Err(())
        },
        IndexBounds::Composite(range) => match composite_range_view(range) {
            KeyRange::All => Ok(None),
            KeyRange::Only(values) => match composite_predicate(table, columns, values) {
                Some(expr) => Ok(Some(expr)),
                None => Err(()),
            },
            KeyRange::Bound { lower, upper, lower_exclusive, upper_exclusive } => {
                if lower == upper && !lower_exclusive && !upper_exclusive {
                    match composite_predicate(table, columns, lower) {
                        Some(expr) => Ok(Some(expr)),
                        None => Err(()),
                    }
                } else {
                    Err(())
                }
            },
            _ => Err(()),
        },
    }
}

/// Builds the predicate that index bounds stand for.
pub fn build_index_scan_predicate(
    table: &str,
    indexed_columns: &[IndexedColumnRef],
    bounds: &IndexBounds,
) -> (result: Result<Option<Expr>, ()>)
    ensures
        match index_scan_predicate(table@, indexed_columns_view(indexed_columns@), *bounds) {
            Ok(Some(expr)) => result is Ok && result->Ok_0 is Some && (result->Ok_0)->0@ == expr,
            Ok(None) => result is Ok && result->Ok_0 is None,
            Err(_) => result is Err,
        },
{
    match bounds {
        IndexBounds::Unbounded => Ok(None),
        IndexBounds::Scalar(range) => {
            if indexed_columns.len() != 1 {
                return Err(());
            }
            Ok(build_scalar_range_predicate(table, &indexed_columns[0], range))
        },
        IndexBounds::Composite(range) => match range {
            KeyRange::All => Ok(None),
            KeyRange::Only(values) => match build_composite_only_predicate(
                table,
                indexed_columns,
                values.as_slice(),
            ) {
                Ok(expr) => Ok(Some(expr)),
                Err(_) => Err(()),
            },
            KeyRange::Bound { lower, upper, lower_exclusive, upper_exclusive } => {
                if same_values(lower.as_slice(), upper.as_slice()) && !*lower_exclusive
                    && !*upper_exclusive {
                    match build_composite_only_predicate(
                        table,
                        indexed_columns,
                        lower.as_slice(),
                    ) {
                        Ok(expr) => Ok(Some(expr)),
                        Err(_) => Err(()),
                    }
                } else {
                    Err(())
                }
            },
            _ => Err(()),
        },
    }
}

/// A value lies in a range of keys.
pub open spec fn in_range(value: ValueView, range: KeyRange<ValueView>, facts: FactsView) -> bool {
    let above = |bound: ValueView, exclusive: bool|
        comparison_of(value, bound, facts) == StepView::Done(Comparison::Greater) || (!exclusive
            && comparison_of(value, bound, facts) == StepView::Done(Comparison::Equal));
    let below = |bound: ValueView, exclusive: bool|
        comparison_of(value, bound, facts) == StepView::Done(Comparison::Less) || (!exclusive
            && comparison_of(value, bound, facts) == StepView::Done(Comparison::Equal));
    match range {
        KeyRange::All => true,
        KeyRange::Only(key) => comparison_of(value, key, facts) == StepView::Done(
            Comparison::Equal,
        ),
        KeyRange::LowerBound { value: bound, exclusive } => above(bound, exclusive),
        KeyRange::UpperBound { value: bound, exclusive } => below(bound, exclusive),
        KeyRange::Bound { lower, upper, lower_exclusive, upper_exclusive } => above(
            lower,
            lower_exclusive,
        ) && below(upper, upper_exclusive),
    }
}

/// The predicate of a range of keys is true on just the rows whose column lies in the range.
pub proof fn law_range_predicate_selects_range(
    table: Seq<char>,
    column: IndexedColumnView,
    range: KeyRange<ValueView>,
    row: Seq<ValueView>,
    facts: FactsView,
)
    requires
        scalar_predicate(table, column, range) is Some,
        eval_view(scalar_predicate(table, column, range)->0, row, facts) is Done,
    ensures
        eval_view(scalar_predicate(table, column, range)->0, row, facts) == StepView::Done(
            ValueView::Boolean(in_range(column_value(row, column.index), range, facts)),
        ),
{
    reveal_with_fuel(eval_view, 4);
}

/// The values of a row are those of a composite key.
pub open spec fn has_key(
    row: Seq<ValueView>,
    columns: Seq<IndexedColumnView>,
    values: Seq<ValueView>,
    facts: FactsView,
) -> bool {
    forall|i: int|
        0 <= i < columns.len() ==> comparison_of(
            column_value(row, (#[trigger] columns[i]).index),
            values[i],
            facts,
        ) == StepView::Done(Comparison::Equal)
}

proof fn lemma_conjunction_holds(
    first: ExprView,
    rest: Seq<ExprView>,
    row: Seq<ValueView>,
    facts: FactsView,
)
    requires
        eval_view(conjunction(first, rest), row, facts) is Done,
        eval_view(first, row, facts) is Done ==> eval_view(first, row, facts)->Done_0 is Boolean,
    ensures
        eval_view(first, row, facts) is Done,
        forall|i: int| 0 <= i < rest.len() ==> eval_view(#[trigger] rest[i], row, facts) is Done,
        eval_view(conjunction(first, rest), row, facts) == StepView::Done(
            ValueView::Boolean(
                eval_view(first, row, facts) == StepView::Done(ValueView::Boolean(true)) && (
                forall|i: int|
                    0 <= i < rest.len() ==> eval_view(#[trigger] rest[i], row, facts)
                        == StepView::Done(ValueView::Boolean(true))),
            ),
        ),
    decreases rest.len(),
{
    if rest.len() > 0 {
        let shorter = rest.drop_last();
        lemma_conjunction_holds(first, shorter, row, facts);
        assert forall|i: int| 0 <= i < rest.len() implies eval_view(#[trigger] rest[i], row, facts)
            is Done by {
            if i < shorter.len() {
                assert(shorter[i] == rest[i]);
            }
        }
        let all = forall|i: int|
            0 <= i < rest.len() ==> eval_view(#[trigger] rest[i], row, facts) == StepView::Done(
                ValueView::Boolean(true),
            );
        let front = forall|i: int|
            0 <= i < shorter.len() ==> eval_view(#[trigger] shorter[i], row, facts)
                == StepView::Done(ValueView::Boolean(true));
        assert(all == (front && eval_view(rest.last(), row, facts) == StepView::Done(
            ValueView::Boolean(true),
        ))) by {
            if all {
                assert forall|i: int| 0 <= i < shorter.len() implies eval_view(
                    #[trigger] shorter[i],
                    row,
                    facts,
                ) == StepView::Done(ValueView::Boolean(true)) by {
                    assert(shorter[i] == rest[i]);
                }
                assert(rest[rest.len() - 1] == rest.last());
            }
            if front && eval_view(rest.last(), row, facts) == StepView::Done(
                ValueView::Boolean(true),
            ) {
                assert forall|i: int| 0 <= i < rest.len() implies eval_view(
                    #[trigger] rest[i],
                    row,
                    facts,
                ) == StepView::Done(ValueView::Boolean(true)) by {
                    if i < shorter.len() {
                        assert(shorter[i] == rest[i]);
                    }
                }
            }
        }
    }
}

/// The predicate of a composite key is true on just the rows that have the key.
pub proof fn law_key_predicate_selects_key(
    table: Seq<char>,
    columns: Seq<IndexedColumnView>,
    values: Seq<ValueView>,
    row: Seq<ValueView>,
    facts: FactsView,
)
    requires
        composite_predicate(table, columns, values) is Some,
        eval_view(composite_predicate(table, columns, values)->0, row, facts) is Done,
    ensures
        eval_view(composite_predicate(table, columns, values)->0, row, facts) == StepView::Done(
            ValueView::Boolean(has_key(row, columns, values, facts)),
        ),
{
    reveal_with_fuel(eval_view, 3);
    let equalities = composite_equalities(table, columns, values);
    let first = equalities.last();
    let rest = equalities.drop_last();
    lemma_conjunction_holds(first, rest, row, facts);
    let truth = ValueView::Boolean(true);
    assert forall|i: int| 0 <= i < columns.len() && eval_view(equalities[i], row, facts)
        is Done implies (eval_view(#[trigger] equalities[i], row, facts) == StepView::Done(truth)
        <==> comparison_of(column_value(row, columns[i].index), values[i], facts) == StepView::Done(
        Comparison::Equal,
    )) by {}
    assert forall|i: int| 0 <= i < columns.len() implies eval_view(
        #[trigger] equalities[i],
        row,
        facts,
    ) is Done by {
        if i < rest.len() {
            assert(rest[i] == equalities[i]);
        }
    }
    if has_key(row, columns, values, facts) {
        assert forall|i: int| 0 <= i < rest.len() implies eval_view(#[trigger] rest[i], row, facts)
            == StepView::Done(truth) by {
            assert(rest[i] == equalities[i]);
            assert(columns[i] == columns[i]);
        }
        assert(columns[columns.len() - 1] == columns.last());
        assert(equalities[columns.len() - 1] == first);
    } else {
        let i = choose|i: int|
            0 <= i < columns.len() && comparison_of(
                column_value(row, (#[trigger] columns[i]).index),
                values[i],
                facts,
            ) != StepView::Done(Comparison::Equal);
        assert(eval_view(equalities[i], row, facts) != StepView::Done(truth));
        if i < rest.len() {
            assert(rest[i] == equalities[i]);
        }
    }
}

} // verus!
