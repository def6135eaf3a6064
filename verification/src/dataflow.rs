//! Compilation of physical plans into dataflow graphs for incremental maintenance.
//!
//! Operators that cannot be maintained incrementally (sorts, limits, first rows, unions) make
//! the compilation return `None`; the query is then run again on each change.
use vstd::prelude::*;

use crate::binding::{
    bind_expr_to_layout, bind_exprs_to_layout, bound_view, bound_views, collect_equi_join_keys,
    column_index_of, column_indices_of, equi_join_pairs, extract_column_index,
    extract_column_indices, left_positions, right_positions,
};
use crate::expr::{
    binary_view, clone_expr, exprs_view, lemma_list_views, AggregateFunc, BinaryOp, Expr, ExprView,
};
use crate::index_predicate::{
    build_index_scan_predicate, column_expr, column_view, index_columns_of, index_scan_predicate,
    lookup_index_columns,
};
use crate::layout::{CompileLayout, LayoutView};
use crate::plan::{incrementalizable, JoinType, PhysicalPlan};
use crate::schema::{SchemaCatalog, TableId, TableIdMap};
use crate::text::names_view;
use crate::value::{values_view, Value, ValueView};

verus! {

/// The kinds of joins of a dataflow graph.
#[derive(Clone, Copy, Debug, PartialEq, Eq, Structural)]
pub enum IvmJoinType {
    Inner,
    LeftOuter,
    RightOuter,
    FullOuter,
}

/// The aggregates of a dataflow graph.
#[derive(Clone, Copy, Debug, PartialEq, Eq, Structural)]
pub enum AggregateType {
    Count,
    Sum,
    Avg,
    Min,
    Max,
}

/// How a side of a join gets its key: from columns of the row, from the whole row, or a
/// constant that makes every pair of rows match.
#[derive(Debug)]
pub enum JoinKeySpec {
    Columns(Vec<usize>),
    Dynamic,
    Constant(Vec<Value>),
}

/// What a [`JoinKeySpec`] describes.
pub enum JoinKeyView {
    Columns(Seq<usize>),
    Dynamic,
    Constant(Seq<ValueView>),
}

impl View for JoinKeySpec {
    type V = JoinKeyView;

    open spec fn view(&self) -> JoinKeyView {
        match self {
            JoinKeySpec::Columns(columns) => JoinKeyView::Columns(columns@),
            JoinKeySpec::Dynamic => JoinKeyView::Dynamic,
            JoinKeySpec::Constant(values) => JoinKeyView::Constant(values_view(values@)),
        }
    }
}

/// A node of a dataflow graph. A filter keeps the rows on which its predicate is true; a computation
/// replaces the values of each row by those of its expressions.
#[derive(Debug)]
#[allow(inconsistent_fields)]
pub enum DataflowNode {
    Source { table_id: TableId },
    Filter { input: Box<DataflowNode>, predicate: Expr },
    Project { input: Box<DataflowNode>, columns: Vec<usize> },
    Compute { input: Box<DataflowNode>, exprs: Vec<Expr> },
    Join {
        left: Box<DataflowNode>,
        right: Box<DataflowNode>,
        left_key: JoinKeySpec,
        right_key: JoinKeySpec,
        join_type: IvmJoinType,
        left_width: usize,
        right_width: usize,
    },
    Aggregate {
        input: Box<DataflowNode>,
        group_by: Vec<usize>,
        functions: Vec<(usize, AggregateType)>,
    },
}

/// The graph that a [`DataflowNode`] is.
#[allow(inconsistent_fields)]
pub enum NodeView {
    Source { table_id: TableId },
    Filter { input: Box<NodeView>, predicate: ExprView },
    Project { input: Box<NodeView>, columns: Seq<usize> },
    Compute { input: Box<NodeView>, exprs: Seq<ExprView> },
    Join {
        left: Box<NodeView>,
        right: Box<NodeView>,
        left_key: JoinKeyView,
        right_key: JoinKeyView,
        join_type: IvmJoinType,
        left_width: usize,
        right_width: usize,
    },
    Aggregate { input: Box<NodeView>, group_by: Seq<usize>, functions: Seq<(usize, AggregateType)> },
}

impl DataflowNode {
    /// The graph of this node.
    pub open spec fn view(&self) -> NodeView
        decreases self,
    {
        match self {
            DataflowNode::Source { table_id } => NodeView::Source { table_id: *table_id },
            DataflowNode::Filter { input, predicate } => NodeView::Filter {
                input: Box::new(input.view()),
                predicate: predicate@,
            },
            DataflowNode::Project { input, columns } => NodeView::Project {
                input: Box::new(input.view()),
                columns: columns@,
            },
            DataflowNode::Compute { input, exprs } => NodeView::Compute {
                input: Box::new(input.view()),
                exprs: exprs_view(exprs@),
            },
            DataflowNode::Join {
                left,
                right,
                left_key,
                right_key,
                join_type,
                left_width,
                right_width,
            } => NodeView::Join {
                left: Box::new(left.view()),
                right: Box::new(right.view()),
                left_key: left_key@,
                right_key: right_key@,
                join_type: *join_type,
                left_width: *left_width,
                right_width: *right_width,
            },
            DataflowNode::Aggregate { input, group_by, functions } => NodeView::Aggregate {
                input: Box::new(input.view()),
                group_by: group_by@,
                functions: functions@,
            },
        }
    }
}

/// Gives each table of a plan its identifier: the registered one, or a fresh one.
pub struct TableIdResolver<'a> {
    existing: &'a TableIdMap,
    used: TableIdMap,
    next_id: TableId,
}

/// What a [`TableIdResolver`] knows.
pub struct ResolverView {
    pub existing: Map<Seq<char>, TableId>,
    pub used: Map<Seq<char>, TableId>,
    pub next_id: TableId,
}

impl ResolverView {
    /// The identifier of a table.
    pub open spec fn id_of(self, table: Seq<char>) -> TableId {
        if self.used.dom().contains(table) {
            self.used[table]
        } else if self.existing.dom().contains(table) {
            self.existing[table]
        } else {
            self.next_id
        }
    }

    /// What is known after a table was given its identifier.
    pub open spec fn after(self, table: Seq<char>) -> ResolverView {
        if self.used.dom().contains(table) {
            self
        } else {
            ResolverView {
                existing: self.existing,
                used: self.used.insert(table, self.id_of(table)),
                next_id: if self.existing.dom().contains(table) {
                    self.next_id
                } else {
                    self.next_id.saturating_add(1)
                },
            }
        }
    }

    /// What is known at the start: the first fresh identifier follows the largest registered
    /// one.
    pub open spec fn initial(self, existing: Map<Seq<char>, TableId>) -> bool {
        &&& self.existing == existing
        &&& self.used == Map::<Seq<char>, TableId>::empty()
        &&& self.next_id >= 1
        &&& forall|table: Seq<char>| #[trigger]
            existing.dom().contains(table) ==> (existing[table] < self.next_id || self.next_id
                == TableId::MAX)
        &&& self.next_id == 1 || exists|table: Seq<char>| #[trigger]
            existing.dom().contains(table) && self.next_id == existing[table].saturating_add(1)
    }
}

impl ResolverView {
    /// A table that has an identifier.
    pub open spec fn knows(self, table: Seq<char>) -> bool {
        self.used.dom().contains(table) || self.existing.dom().contains(table)
    }

    /// No two tables share an identifier, and fresh identifiers are above those of all tables.
    pub open spec fn apart(self) -> bool {
        &&& forall|table: Seq<char>| #[trigger]
            self.knows(table) ==> self.id_of(table) < self.next_id
        &&& forall|left: Seq<char>, right: Seq<char>|
            #![trigger self.id_of(left), self.id_of(right)]
            self.knows(left) && self.knows(right) && left != right ==> self.id_of(left)
                != self.id_of(right)
    }
}

/// Registered tables keep their identifiers, other tables get fresh ones, and a table that has an
/// identifier keeps it. This goes on until the identifiers run out.
pub proof fn law_tables_keep_their_ids(ids: ResolverView, table: Seq<char>, other: Seq<char>)
    requires
        ids.apart(),
        ids.next_id < TableId::MAX,
    ensures
        ids.after(table).apart(),
        ids.after(table).knows(table),
        ids.after(table).id_of(table) == ids.id_of(table),
        ids.knows(other) ==> ids.after(table).id_of(other) == ids.id_of(other),
        !ids.knows(table) && ids.knows(other) ==> ids.id_of(table) != ids.id_of(other),
        !ids.used.dom().contains(table) && ids.existing.dom().contains(table) ==> ids.id_of(table)
            == ids.existing[table],
{
    let after = ids.after(table);
    assert forall|known: Seq<char>| #[trigger] after.knows(known) implies after.id_of(known)
        < after.next_id && (known != table ==> ids.knows(known) && after.id_of(known) == ids.id_of(
        known,
    )) by {
        if known != table {
            assert(ids.knows(known));
        } else if ids.knows(table) {
            assert(ids.id_of(table) < ids.next_id);
        }
    }
    assert forall|left: Seq<char>, right: Seq<char>|
        #![trigger after.id_of(left), after.id_of(right)]
        after.knows(left) && after.knows(right) && left != right implies after.id_of(left)
        != after.id_of(right) by {
        if left == table && !ids.knows(table) {
            assert(ids.id_of(right) < ids.next_id);
        } else if right == table && !ids.knows(table) {
            assert(ids.id_of(left) < ids.next_id);
        } else {
            assert(ids.id_of(left) != ids.id_of(right));
        }
    }
    if ids.knows(other) {
        assert(ids.id_of(other) < ids.next_id);
    }
}

/// Before anything is compiled no two tables share an identifier, if no two registered ones do.
pub proof fn law_registered_tables_start_apart(
    ids: ResolverView,
    existing: Map<Seq<char>, TableId>,
)
    requires
        ids.initial(existing),
        ids.next_id < TableId::MAX,
        forall|left: Seq<char>, right: Seq<char>|
            #![trigger existing[left], existing[right]]
            existing.dom().contains(left) && existing.dom().contains(right) && left != right
                ==> existing[left] != existing[right],
    ensures
        ids.apart(),
{
    assert forall|table: Seq<char>| #[trigger] ids.knows(table) implies ids.id_of(table)
        < ids.next_id by {
        assert(existing.dom().contains(table));
    }
}

impl<'a> View for TableIdResolver<'a> {
    type V = ResolverView;

    closed spec fn view(&self) -> ResolverView {
        ResolverView { existing: self.existing@, used: self.used@, next_id: self.next_id }
    }
}

impl<'a> TableIdResolver<'a> {
    /// Starts with the registered identifiers.
    pub fn new(existing: &'a TableIdMap) -> (result: Self)
        ensures
            result@.initial(existing@),
    {
        let max_id = existing.max_id();
        let next_id = max_id.saturating_add(1);
        let result = TableIdResolver { existing, used: TableIdMap::new(), next_id };
        proof {
            if next_id != 1 {
                let table = choose|table: Seq<char>| #[trigger]
                    existing@.dom().contains(table) && existing@[table] == max_id;
                assert(existing@.dom().contains(table));
            }
        }
        result
    }

    /// Gives a table its identifier.
    pub fn resolve(&mut self, table: &str) -> (id: TableId)
        ensures
            id == old(self)@.id_of(table@),
            final(self)@ == old(self)@.after(table@),
    {
        if let Some(id) = self.used.get(table) {
            return id;
        }
        let id = match self.existing.get(table) {
            Some(id) => id,
            None => {
                let allocated = self.next_id;
                self.next_id = self.next_id.saturating_add(1);
                allocated
            },
        };
        self.used.insert(table.to_owned(), id);
        id
    }

    /// The identifiers that were given.
    pub fn into_used(self) -> (result: TableIdMap)
        ensures
            result@ == self@.used,
    {
        self.used
    }
}

/// A compiled plan: its graph and the layout of the rows that the graph emits.
pub struct CompiledNode {
    pub dataflow: DataflowNode,
    pub layout: CompileLayout,
}

/// What a [`CompiledNode`] is.
pub struct CompiledView {
    pub node: NodeView,
    pub layout: LayoutView,
}

impl View for CompiledNode {
    type V = CompiledView;

    open spec fn view(&self) -> CompiledView {
        CompiledView { node: self.dataflow@, layout: self.layout@ }
    }
}

/// A compiled plan together with the identifiers of its tables.
pub struct CompileResult {
    pub dataflow: DataflowNode,
    pub table_ids: TableIdMap,
}

/// What compiling the rows of a table gives, and what the resolver knows afterwards.
pub open spec fn source_result(
    table: Seq<char>,
    ids: ResolverView,
    schemas: SchemaCatalog,
) -> (Option<CompiledView>, ResolverView) {
    match schemas.lookup(table) {
        Some(schema) => (
            Some(
                CompiledView {
                    node: NodeView::Source { table_id: ids.id_of(table) },
                    layout: LayoutView::of_table(table, schema.columns@.len() as usize),
                },
            ),
            ids.after(table),
        ),
        None => (None, ids.after(table)),
    }
}

/// What filtering compiled rows by a predicate gives.
pub open spec fn filter_result(input: CompiledView, predicate: ExprView) -> CompiledView {
    CompiledView {
        node: NodeView::Filter {
            input: Box::new(input.node),
            predicate: bound_view(predicate, input.layout),
        },
        layout: input.layout,
    }
}

/// What compiling the rows of a table under a predicate gives.
pub open spec fn filtered_source_result(
    table: Seq<char>,
    predicate: Option<ExprView>,
    ids: ResolverView,
    schemas: SchemaCatalog,
) -> (Option<CompiledView>, ResolverView) {
    let (source, after) = source_result(table, ids, schemas);
    match (source, predicate) {
        (Some(source), Some(predicate)) => (Some(filter_result(source, predicate)), after),
        _ => (source, after),
    }
}

/// The graph that a result stands for, if there is one.
pub open spec fn compiled_view(result: Option<CompiledNode>) -> Option<CompiledView> {
    match result {
        Some(node) => Some(node@),
        None => None,
    }
}

/// Compiles the rows of a table.
pub fn compile_source_node(
    table: &str,
    table_ids: &mut TableIdResolver<'_>,
    table_schemas: &SchemaCatalog,
) -> (result: Option<CompiledNode>)
    ensures
        (compiled_view(result), final(table_ids)@) == source_result(
            table@,
            old(table_ids)@,
            *table_schemas,
        ),
{
    let table_id = table_ids.resolve(table);
    match table_schemas.get(table) {
        Some(schema) => Some(
            CompiledNode {
                dataflow: DataflowNode::Source { table_id },
                layout: CompileLayout::table(table, schema.columns.len()),
            },
        ),
        None => None,
    }
}

/// Compiles the rows of a table under a predicate.
pub fn compile_filtered_source(
    table: &str,
    predicate: Option<Expr>,
    table_ids: &mut TableIdResolver<'_>,
    table_schemas: &SchemaCatalog,
) -> (result: Option<CompiledNode>)
    ensures
        (compiled_view(result), final(table_ids)@) == filtered_source_result(
            table@,
            match predicate {
                Some(expr) => Some(expr@),
                None => None,
            },
            old(table_ids)@,
            *table_schemas,
        ),
{
    match compile_source_node(table, table_ids, table_schemas) {
        Some(source) => match predicate {
            Some(predicate) => {
                let bound = bind_expr_to_layout(&predicate, &source.layout);
                Some(
                    CompiledNode {
                        dataflow: DataflowNode::Filter {
                            input: Box::new(source.dataflow),
                            predicate: bound,
                        },
                        layout: source.layout,
                    },
                )
            },
            None => Some(source),
        },
        None => None,
    }
}

/// The join kind of a graph for the join kind of a query.
pub open spec fn ivm_join_type(join_type: JoinType) -> IvmJoinType {
    match join_type {
        JoinType::Inner => IvmJoinType::Inner,
        JoinType::Cross => IvmJoinType::Inner,
        JoinType::LeftOuter => IvmJoinType::LeftOuter,
        JoinType::RightOuter => IvmJoinType::RightOuter,
        JoinType::FullOuter => IvmJoinType::FullOuter,
    }
}

/// The join kind of a graph for the join kind of a query.
pub fn convert_join_type(join_type: &JoinType) -> (result: IvmJoinType)
    ensures
        result == ivm_join_type(*join_type),
{
    match join_type {
        JoinType::Inner | JoinType::Cross => IvmJoinType::Inner,
        JoinType::LeftOuter => IvmJoinType::LeftOuter,
        JoinType::RightOuter => IvmJoinType::RightOuter,
        JoinType::FullOuter => IvmJoinType::FullOuter,
    }
}

/// The aggregate of a graph for the aggregate of a query; those that graphs do not have
/// count.
pub open spec fn aggregate_type(func: AggregateFunc) -> AggregateType {
    match func {
        AggregateFunc::Sum => AggregateType::Sum,
        AggregateFunc::Avg => AggregateType::Avg,
        AggregateFunc::Min => AggregateType::Min,
        AggregateFunc::Max => AggregateType::Max,
        _ => AggregateType::Count,
    }
}

/// The aggregate of a graph for the aggregate of a query.
pub fn convert_aggregate_func(func: &AggregateFunc) -> (result: AggregateType)
    ensures
        result == aggregate_type(*func),
{
    match func {
        AggregateFunc::Count => AggregateType::Count,
        AggregateFunc::Sum => AggregateType::Sum,
        AggregateFunc::Avg => AggregateType::Avg,
        AggregateFunc::Min => AggregateType::Min,
        AggregateFunc::Max => AggregateType::Max,
        _ => AggregateType::Count,
    }
}

/// The keys of a join: the equated columns, or the whole rows if the condition equates none.
pub open spec fn join_keys(
    condition: ExprView,
    left_layout: LayoutView,
    right_layout: LayoutView,
) -> (JoinKeyView, JoinKeyView) {
    let pairs = equi_join_pairs(condition, left_layout, right_layout);
    if pairs.len() == 0 {
        (JoinKeyView::Dynamic, JoinKeyView::Dynamic)
    } else {
        (JoinKeyView::Columns(left_positions(pairs)), JoinKeyView::Columns(right_positions(pairs)))
    }
}

/// Extracts the keys of both sides from a join condition.
pub fn extract_join_keys(
    condition: &Expr,
    left_layout: &CompileLayout,
    right_layout: &CompileLayout,
) -> (keys: (JoinKeySpec, JoinKeySpec))
    ensures
        (keys.0@, keys.1@) == join_keys(condition@, left_layout@, right_layout@),
{
    let mut left_indices: Vec<usize> = Vec::new();
    let mut right_indices: Vec<usize> = Vec::new();
    collect_equi_join_keys(
        condition,
        left_layout,
        right_layout,
        &mut left_indices,
        &mut right_indices,
    );
    let ghost pairs = equi_join_pairs(condition@, left_layout@, right_layout@);
    assert(left_indices@ =~= left_positions(pairs));
    assert(right_indices@ =~= right_positions(pairs));
    if left_indices.is_empty() || right_indices.is_empty() {
        return (JoinKeySpec::Dynamic, JoinKeySpec::Dynamic);
    }
    (JoinKeySpec::Columns(left_indices), JoinKeySpec::Columns(right_indices))
}

/// A join whose rows are put in the order of the output tables.
pub open spec fn reordered(
    join: NodeView,
    raw: LayoutView,
    output_tables: Seq<Seq<char>>,
) -> CompiledView {
    let desired = LayoutView::join(raw, LayoutView::empty(), output_tables);
    if raw == desired {
        CompiledView { node: join, layout: raw }
    } else {
        CompiledView {
            node: NodeView::Project {
                input: Box::new(join),
                columns: raw.projection(output_tables),
            },
            layout: desired,
        }
    }
}

/// Tells whether two lists hold the same names.
fn same_names(left: &[String], right: &[String]) -> (same: bool)
    ensures
        same == (names_view(left@) == names_view(right@)),
{
    if left.len() != right.len() {
        assert(names_view(left@).len() != names_view(right@).len());
        return false;
    }
    let mut i: usize = 0;
    while i < left.len()
        invariant
            i <= left.len(),
            left.len() == right.len(),
            forall|j: int| 0 <= j < i ==> (#[trigger] left@[j])@ == right@[j]@,
        decreases left.len() - i,
    {
        if left[i] != right[i] {
            assert(names_view(left@)[i as int] != names_view(right@)[i as int]);
            return false;
        }
        i += 1;
    }
    assert(names_view(left@) =~= names_view(right@));
    true
}

/// Tells whether two lists hold the same numbers.
fn same_counts(left: &[usize], right: &[usize]) -> (same: bool)
    ensures
        same == (left@ == right@),
{
    if left.len() != right.len() {
        return false;
    }
    let mut i: usize = 0;
    while i < left.len()
        invariant
            i <= left.len(),
            left.len() == right.len(),
            forall|j: int| 0 <= j < i ==> left@[j] == right@[j],
        decreases left.len() - i,
    {
        if left[i] != right[i] {
            return false;
        }
        i += 1;
    }
    assert(left@ =~= right@);
    true
}

/// Puts the rows of a join in the order of the output tables.
pub fn reorder_join_output(
    join_node: DataflowNode,
    raw_layout: CompileLayout,
    output_tables: &[String],
) -> (result: CompiledNode)
    ensures
        result@ == reordered(join_node@, raw_layout@, names_view(output_tables@)),
{
    let desired_layout = CompileLayout::join(&raw_layout, &CompileLayout::empty(), output_tables);
    if same_names(raw_layout.tables.as_slice(), desired_layout.tables.as_slice()) && same_counts(
        raw_layout.table_column_counts.as_slice(),
        desired_layout.table_column_counts.as_slice(),
    ) {
        return CompiledNode { dataflow: join_node, layout: raw_layout };
    }
    let projection = raw_layout.projection_indices_for(output_tables);
    CompiledNode {
        dataflow: DataflowNode::Project { input: Box::new(join_node), columns: projection },
        layout: desired_layout,
    }
}

/// What joining two compiled sides on a condition gives.
pub open spec fn join_result(
    left: CompiledView,
    right: CompiledView,
    condition: ExprView,
    join_type: JoinType,
    output_tables: Seq<Seq<char>>,
) -> CompiledView {
    let (left_key, right_key) = join_keys(condition, left.layout, right.layout);
    reordered(
        NodeView::Join {
            left: Box::new(left.node),
            right: Box::new(right.node),
            left_key,
            right_key,
            join_type: ivm_join_type(join_type),
            left_width: left.layout.total(),
            right_width: right.layout.total(),
        },
        LayoutView::combined(left.layout, right.layout),
        output_tables,
    )
}

/// Joins two compiled sides on a condition.
fn compile_join(
    left_node: CompiledNode,
    right_node: CompiledNode,
    condition: &Expr,
    join_type: &JoinType,
    output_tables: &[String],
) -> (result: CompiledNode)
    ensures
        result@ == join_result(
            left_node@,
            right_node@,
            condition@,
            *join_type,
            names_view(output_tables@),
        ),
{
    let (left_key, right_key) = extract_join_keys(
        condition,
        &left_node.layout,
        &right_node.layout,
    );
    let raw_layout = CompileLayout::combined(&left_node.layout, &right_node.layout);
    let left_width = left_node.layout.total_width();
    let right_width = right_node.layout.total_width();
    let join_node = DataflowNode::Join {
        left: Box::new(left_node.dataflow),
        right: Box::new(right_node.dataflow),
        left_key,
        right_key,
        join_type: convert_join_type(join_type),
        left_width,
        right_width,
    };
    reorder_join_output(join_node, raw_layout, output_tables)
}

/// What projecting compiled rows to expressions gives: a column selection if every expression
/// is a plain column, and computed values otherwise.
pub open spec fn project_result(input: CompiledView, columns: Seq<ExprView>) -> CompiledView {
    let bound = bound_views(columns, input.layout);
    let indices = column_indices_of(bound);
    CompiledView {
        node: if indices.len() == columns.len() {
            NodeView::Project { input: Box::new(input.node), columns: indices }
        } else {
            NodeView::Compute { input: Box::new(input.node), exprs: bound }
        },
        layout: input.layout.projected(columns.len() as usize),
    }
}

/// The column that an aggregate reads, if it is one. An aggregate of no column reads the first
/// one.
pub open spec fn aggregate_column(expr: ExprView) -> Option<usize> {
    match expr {
        ExprView::Aggregate { expr: Some(inner), .. } => column_index_of(*inner),
        ExprView::Column(column) => Some(column.index),
        _ => Some(0),
    }
}

/// The aggregates of a list that read a column, bound to a layout.
pub open spec fn aggregate_functions(
    aggregates: Seq<(AggregateFunc, Expr)>,
    layout: LayoutView,
) -> Seq<(usize, AggregateType)>
    decreases aggregates.len(),
{
    if aggregates.len() == 0 {
        Seq::empty()
    } else {
        let before = aggregate_functions(aggregates.drop_last(), layout);
        let (func, expr) = aggregates.last();
        match aggregate_column(bound_view(expr@, layout)) {
            Some(column) => before.push((column, aggregate_type(func))),
            None => before,
        }
    }
}

/// Binds the aggregates of a list to a layout and keeps those that read a column.
fn compile_aggregate_functions(
    aggregates: &Vec<(AggregateFunc, Expr)>,
    layout: &CompileLayout,
) -> (functions: Vec<(usize, AggregateType)>)
    ensures
        functions@ == aggregate_functions(aggregates@, layout@),
{
    let mut functions: Vec<(usize, AggregateType)> = Vec::new();
    let mut i: usize = 0;
    while i < aggregates.len()
        invariant
            i <= aggregates.len(),
            functions@ == aggregate_functions(aggregates@.take(i as int), layout@),
        decreases aggregates.len() - i,
    {
        assert(aggregates@.take(i + 1).drop_last() =~= aggregates@.take(i as int));
        let bound = bind_expr_to_layout(&aggregates[i].1, layout);
        let column: Option<usize> = match &bound {
            Expr::Aggregate { expr: Some(inner), .. } => extract_column_index(inner),
            Expr::Column(column) => Some(column.index),
            _ => Some(0),
        };
        if let Some(column) = column {
            functions.push((column, convert_aggregate_func(&aggregates[i].0)));
        }
        i += 1;
    }
    assert(aggregates@.take(aggregates@.len() as int) =~= aggregates@);
    functions
}

/// What grouping and aggregating compiled rows gives.
pub open spec fn aggregate_result(
    input: CompiledView,
    group_by: Seq<ExprView>,
    aggregates: Seq<(AggregateFunc, Expr)>,
) -> CompiledView {
    CompiledView {
        node: NodeView::Aggregate {
            input: Box::new(input.node),
            group_by: column_indices_of(bound_views(group_by, input.layout)),
            functions: aggregate_functions(aggregates, input.layout),
        },
        layout: input.layout.projected(
            (group_by.len() as usize).saturating_add(aggregates.len() as usize),
        ),
    }
}

/// What a product of two compiled sides gives: a join on a constant.
pub open spec fn cross_result(left: CompiledView, right: CompiledView) -> CompiledView {
    let key = JoinKeyView::Constant(seq![ValueView::Int64(0)]);
    CompiledView {
        node: NodeView::Join {
            left: Box::new(left.node),
            right: Box::new(right.node),
            left_key: key,
            right_key: key,
            join_type: IvmJoinType::Inner,
            left_width: left.layout.total(),
            right_width: right.layout.total(),
        },
        layout: LayoutView::combined(left.layout, right.layout),
    }
}

/// What compiling a plan gives, and what the resolver knows afterwards.
pub open spec fn plan_result(
    plan: PhysicalPlan,
    ids: ResolverView,
    schemas: SchemaCatalog,
) -> (Option<CompiledView>, ResolverView)
    decreases plan,
{
    match plan {
        PhysicalPlan::TableScan { table } => source_result(table@, ids, schemas),
        PhysicalPlan::IndexScan { table, index, bounds, limit, offset, reverse } => {
            if reverse || limit is Some || (offset matches Some(skipped) && skipped > 0) {
                (None, ids)
            } else {
                match index_columns_of(schemas, table@, index@) {
                    Some(columns) => match index_scan_predicate(table@, columns, bounds) {
                        Ok(predicate) => filtered_source_result(table@, predicate, ids, schemas),
                        Err(_) => (None, ids),
                    },
                    None => (None, ids),
                }
            }
        },
        PhysicalPlan::IndexGet { table, index, key, limit } => {
            if limit is Some {
                (None, ids)
            } else {
                match index_columns_of(schemas, table@, index@) {
                    Some(columns) => if columns.len() == 1 {
                        filtered_source_result(
                            table@,
                            Some(
                                binary_view(
                                    column_view(table@, columns[0]),
                                    BinaryOp::Eq,
                                    ExprView::Literal(key@),
                                ),
                            ),
                            ids,
                            schemas,
                        )
                    } else {
                        (None, ids)
                    },
                    None => (None, ids),
                }
            }
        },
        PhysicalPlan::IndexInGet { table, index, keys } => {
            match index_columns_of(schemas, table@, index@) {
                Some(columns) => if columns.len() == 1 {
                    filtered_source_result(
                        table@,
                        Some(
                            ExprView::In {
                                expr: Box::new(column_view(table@, columns[0])),
                                list: values_view(keys@).map_values(
                                    |key: ValueView| ExprView::Literal(key),
                                ),
                            },
                        ),
                        ids,
                        schemas,
                    )
                } else {
                    (None, ids)
                },
                None => (None, ids),
            }
        },
        PhysicalPlan::GinIndexScan { table, recheck, .. } => match recheck {
            Some(recheck) => filtered_source_result(table@, Some(recheck@), ids, schemas),
            None => (None, ids),
        },
        PhysicalPlan::GinIndexScanMulti { table, recheck, .. } => match recheck {
            Some(recheck) => filtered_source_result(table@, Some(recheck@), ids, schemas),
            None => (None, ids),
        },
        PhysicalPlan::Filter { input, predicate } => {
            let (input_result, after) = plan_result(*input, ids, schemas);
            match input_result {
                Some(input_view) => (Some(filter_result(input_view, predicate@)), after),
                None => (None, after),
            }
        },
        PhysicalPlan::Project { input, columns } => {
            let (input_result, after) = plan_result(*input, ids, schemas);
            match input_result {
                Some(input_view) => (
                    Some(project_result(input_view, exprs_view(columns@))),
                    after,
                ),
                None => (None, after),
            }
        },
        PhysicalPlan::HashJoin { left, right, condition, join_type, output_tables } => {
            let (left_result, after_left) = plan_result(*left, ids, schemas);
            match left_result {
                Some(left_view) => {
                    let (right_result, after_right) = plan_result(*right, after_left, schemas);
                    match right_result {
                        Some(right_view) => (
                            Some(
                                join_result(
                                    left_view,
                                    right_view,
                                    condition@,
                                    join_type,
                                    names_view(output_tables@),
                                ),
                            ),
                            after_right,
                        ),
                        None => (None, after_right),
                    }
                },
                None => (None, after_left),
            }
        },
        PhysicalPlan::SortMergeJoin { left, right, condition, join_type, output_tables } => {
            let (left_result, after_left) = plan_result(*left, ids, schemas);
            match left_result {
                Some(left_view) => {
                    let (right_result, after_right) = plan_result(*right, after_left, schemas);
                    match right_result {
                        Some(right_view) => (
                            Some(
                                join_result(
                                    left_view,
                                    right_view,
                                    condition@,
                                    join_type,
                                    names_view(output_tables@),
                                ),
                            ),
                            after_right,
                        ),
                        None => (None, after_right),
                    }
                },
                None => (None, after_left),
            }
        },
        PhysicalPlan::NestedLoopJoin { left, right, condition, join_type, output_tables } => {
            let (left_result, after_left) = plan_result(*left, ids, schemas);
            match left_result {
                Some(left_view) => {
                    let (right_result, after_right) = plan_result(*right, after_left, schemas);
                    match right_result {
                        Some(right_view) => (
                            Some(
                                join_result(
                                    left_view,
                                    right_view,
                                    condition@,
                                    join_type,
                                    names_view(output_tables@),
                                ),
                            ),
                            after_right,
                        ),
                        None => (None, after_right),
                    }
                },
                None => (None, after_left),
            }
        },
        PhysicalPlan::IndexNestedLoopJoin {
            outer,
            inner_table,
            inner_index,
            condition,
            join_type,
            outer_is_left,
            output_tables,
        } => {
            let (outer_result, after_outer) = plan_result(*outer, ids, schemas);
            match outer_result {
                Some(outer_view) => {
                    let (inner_result, after_inner) = source_result(
                        inner_table@,
                        after_outer,
                        schemas,
                    );
                    match inner_result {
                        Some(inner_view) => (
                            Some(
                                join_result(
                                    if outer_is_left {
                                        outer_view
                                    } else {
                                        inner_view
                                    },
                                    if outer_is_left {
                                        inner_view
                                    } else {
                                        outer_view
                                    },
                                    condition@,
                                    join_type,
                                    names_view(output_tables@),
                                ),
                            ),
                            after_inner,
                        ),
                        None => (None, after_inner),
                    }
                },
                None => (None, after_outer),
            }
        },
        PhysicalPlan::CrossProduct { left, right } => {
            let (left_result, after_left) = plan_result(*left, ids, schemas);
            match left_result {
                Some(left_view) => {
                    let (right_result, after_right) = plan_result(*right, after_left, schemas);
                    match right_result {
                        Some(right_view) => (
                            Some(cross_result(left_view, right_view)),
                            after_right,
                        ),
                        None => (None, after_right),
                    }
                },
                None => (None, after_left),
            }
        },
        PhysicalPlan::HashAggregate { input, group_by, aggregates } => {
            let (input_result, after) = plan_result(*input, ids, schemas);
            match input_result {
                Some(input_view) => (
                    Some(aggregate_result(input_view, exprs_view(group_by@), aggregates@)),
                    after,
                ),
                None => (None, after),
            }
        },
        PhysicalPlan::NoOp { input } => plan_result(*input, ids, schemas),
        PhysicalPlan::Empty => (
            Some(
                CompiledView {
                    node: NodeView::Source { table_id: TableId::MAX },
                    layout: LayoutView::empty(),
                },
            ),
            ids,
        ),
        PhysicalPlan::Sort { .. } => (None, ids),
        PhysicalPlan::Limit { .. } => (None, ids),
        PhysicalPlan::TopN { .. } => (None, ids),
        PhysicalPlan::Union { .. } => (None, ids),
    }
}

/// Compiles a plan into a graph.
pub fn compile_node(
    plan: &PhysicalPlan,
    table_ids: &mut TableIdResolver<'_>,
    table_schemas: &SchemaCatalog,
) -> (result: Option<CompiledNode>)
    ensures
        (compiled_view(result), final(table_ids)@) == plan_result(
            *plan,
            old(table_ids)@,
            *table_schemas,
        ),
    decreases plan,
{
    match plan {
        PhysicalPlan::TableScan { table } => compile_source_node(
            table.as_str(),
            table_ids,
            table_schemas,
        ),
        PhysicalPlan::IndexScan { table, index, bounds, limit, offset, reverse } => {
            let skipped: usize = match offset {
                Some(skipped) => *skipped,
                None => 0,
            };
            if *reverse || limit.is_some() || skipped > 0 {
                return None;
            }
            let columns = lookup_index_columns(table_schemas, table.as_str(), index.as_str())?;
            match build_index_scan_predicate(table.as_str(), columns.as_slice(), bounds) {
                Ok(predicate) => compile_filtered_source(
                    table.as_str(),
                    predicate,
                    table_ids,
                    table_schemas,
                ),
                Err(_) => None,
            }
        },
        PhysicalPlan::IndexGet { table, index, key, limit } => {
            if limit.is_some() {
                return None;
            }
            let columns = lookup_index_columns(table_schemas, table.as_str(), index.as_str())?;
            if columns.len() != 1 {
                return None;
            }
            let predicate = Expr::binary(
                column_expr(table.as_str(), &columns[0]),
                BinaryOp::Eq,
                Expr::literal(key.clone()),
            );
            compile_filtered_source(table.as_str(), Some(predicate), table_ids, table_schemas)
        },
        PhysicalPlan::IndexInGet { table, index, keys } => {
            let columns = lookup_index_columns(table_schemas, table.as_str(), index.as_str())?;
            if columns.len() != 1 {
                return None;
            }
            let predicate = in_list_predicate(
                column_expr(table.as_str(), &columns[0]),
                keys.as_slice(),
            );
            compile_filtered_source(table.as_str(), Some(predicate), table_ids, table_schemas)
        },
        PhysicalPlan::GinIndexScan { table, recheck, .. } => match recheck {
            Some(recheck) => compile_filtered_source(
                table.as_str(),
                Some(clone_expr(recheck)),
                table_ids,
                table_schemas,
            ),
            None => None,
        },
        PhysicalPlan::GinIndexScanMulti { table, recheck, .. } => match recheck {
            Some(recheck) => compile_filtered_source(
                table.as_str(),
                Some(clone_expr(recheck)),
                table_ids,
                table_schemas,
            ),
            None => None,
        },
        PhysicalPlan::Filter { input, predicate } => {
            let input_node = compile_node(input, table_ids, table_schemas)?;
            let bound = bind_expr_to_layout(predicate, &input_node.layout);
            Some(
                CompiledNode {
                    dataflow: DataflowNode::Filter {
                        input: Box::new(input_node.dataflow),
                        predicate: bound,
                    },
                    layout: input_node.layout,
                },
            )
        },
        PhysicalPlan::Project { input, columns } => {
            let input_node = compile_node(input, table_ids, table_schemas)?;
            let bound = bind_exprs_to_layout(columns, &input_node.layout);
            let indices = extract_column_indices(&bound);
            let layout = input_node.layout.projected(columns.len());
            if indices.len() == columns.len() {
                Some(
                    CompiledNode {
                        dataflow: DataflowNode::Project {
                            input: Box::new(input_node.dataflow),
                            columns: indices,
                        },
                        layout,
                    },
                )
            } else {
                Some(
                    CompiledNode {
                        dataflow: DataflowNode::Compute {
                            input: Box::new(input_node.dataflow),
                            exprs: bound,
                        },
                        layout,
                    },
                )
            }
        },
        PhysicalPlan::HashJoin { left, right, condition, join_type, output_tables } => {
            let left_node = compile_node(left, table_ids, table_schemas)?;
            let right_node = compile_node(right, table_ids, table_schemas)?;
            Some(
                compile_join(
                    left_node,
                    right_node,
                    condition,
                    join_type,
                    output_tables.as_slice(),
                ),
            )
        },
        PhysicalPlan::SortMergeJoin { left, right, condition, join_type, output_tables } => {
            let left_node = compile_node(left, table_ids, table_schemas)?;
            let right_node = compile_node(right, table_ids, table_schemas)?;
            Some(
                compile_join(
                    left_node,
                    right_node,
                    condition,
                    join_type,
                    output_tables.as_slice(),
                ),
            )
        },
        PhysicalPlan::NestedLoopJoin { left, right, condition, join_type, output_tables } => {
            let left_node = compile_node(left, table_ids, table_schemas)?;
            let right_node = compile_node(right, table_ids, table_schemas)?;
            Some(
                compile_join(
                    left_node,
                    right_node,
                    condition,
                    join_type,
                    output_tables.as_slice(),
                ),
            )
        },
        PhysicalPlan::IndexNestedLoopJoin {
            outer,
            inner_table,
            inner_index: _,
            condition,
            join_type,
            outer_is_left,
            output_tables,
        } => {
            let outer_node = compile_node(outer, table_ids, table_schemas)?;
            let inner_node = compile_source_node(inner_table.as_str(), table_ids, table_schemas)?;
            let (left_node, right_node) = if *outer_is_left {
                (outer_node, inner_node)
            } else {
                (inner_node, outer_node)
            };
            Some(
                compile_join(
                    left_node,
                    right_node,
                    condition,
                    join_type,
                    output_tables.as_slice(),
                ),
            )
        },
        PhysicalPlan::CrossProduct { left, right } => {
            let left_node = compile_node(left, table_ids, table_schemas)?;
            let right_node = compile_node(right, table_ids, table_schemas)?;
            let layout = CompileLayout::combined(&left_node.layout, &right_node.layout);
            let left_width = left_node.layout.total_width();
            let right_width = right_node.layout.total_width();
            Some(
                CompiledNode {
                    dataflow: DataflowNode::Join {
                        left: Box::new(left_node.dataflow),
                        right: Box::new(right_node.dataflow),
                        left_key: constant_key(),
                        right_key: constant_key(),
                        join_type: IvmJoinType::Inner,
                        left_width,
                        right_width,
                    },
                    layout,
                },
            )
        },
        PhysicalPlan::HashAggregate { input, group_by, aggregates } => {
            let input_node = compile_node(input, table_ids, table_schemas)?;
            let bound_group_by = bind_exprs_to_layout(group_by, &input_node.layout);
            let group_by_indices = extract_column_indices(&bound_group_by);
            let functions = compile_aggregate_functions(aggregates, &input_node.layout);
            let layout = input_node.layout.projected(
                group_by.len().saturating_add(aggregates.len()),
            );
            Some(
                CompiledNode {
                    dataflow: DataflowNode::Aggregate {
                        input: Box::new(input_node.dataflow),
                        group_by: group_by_indices,
                        functions,
                    },
                    layout,
                },
            )
        },
        PhysicalPlan::NoOp { input } => compile_node(input, table_ids, table_schemas),
        PhysicalPlan::Empty => Some(
            CompiledNode {
                dataflow: DataflowNode::Source { table_id: TableId::MAX },
                layout: CompileLayout::empty(),
            },
        ),
        PhysicalPlan::Sort { .. } => None,
        PhysicalPlan::Limit { .. } => None,
        PhysicalPlan::TopN { .. } => None,
        PhysicalPlan::Union { .. } => None,
    }
}

/// The key that every row has.
fn constant_key() -> (key: JoinKeySpec)
    ensures
        key@ == JoinKeyView::Constant(seq![ValueView::Int64(0)]),
{
    let values = vec![Value::Int64(0)];
    assert(values_view(values@) =~= seq![ValueView::Int64(0)]);
    JoinKeySpec::Constant(values)
}

/// The predicate that a column holds one of the keys.
fn in_list_predicate(column: Expr, keys: &[Value]) -> (result: Expr)
    ensures
        result@ == (ExprView::In {
            expr: Box::new(column@),
            list: values_view(keys@).map_values(|key: ValueView| ExprView::Literal(key)),
        }),
{
    let ghost literals = values_view(keys@).map_values(|key: ValueView| ExprView::Literal(key));
    let mut list: Vec<Expr> = Vec::new();
    let mut i: usize = 0;
    while i < keys.len()
        invariant
            i <= keys.len(),
            list.len() == i,
            literals == values_view(keys@).map_values(|key: ValueView| ExprView::Literal(key)),
            forall|j: int| 0 <= j < i ==> (#[trigger] list@[j])@ == literals[j],
        decreases keys.len() - i,
    {
        list.push(Expr::literal(keys[i].clone()));
        i += 1;
    }
    proof {
        assert(exprs_view(list@) =~= literals);
        lemma_list_views(Expr::In { expr: Box::new(column), list });
    }
    Expr::In { expr: Box::new(column), list }
}

/// Compiles a plan into a graph for incremental maintenance. There is none for plans with
/// operators that cannot be maintained incrementally.
pub fn compile_to_dataflow(
    plan: &PhysicalPlan,
    table_id_map: &TableIdMap,
    table_schemas: &SchemaCatalog,
) -> (result: Option<CompileResult>)
    ensures
        exists|ids: ResolverView| #[trigger]
            ids.initial(table_id_map@) && dataflow_result(result, *plan, ids, *table_schemas),
{
    let mut table_ids = TableIdResolver::new(table_id_map);
    let ghost ids = table_ids@;
    assert(ids.initial(table_id_map@));
    if !plan.is_incrementalizable() {
        assert(dataflow_result(None, *plan, ids, *table_schemas));
        return None;
    }
    match compile_node(plan, &mut table_ids, table_schemas) {
        Some(compiled) => {
            let result = Some(
                CompileResult { dataflow: compiled.dataflow, table_ids: table_ids.into_used() },
            );
            assert(dataflow_result(result, *plan, ids, *table_schemas));
            result
        },
        None => {
            assert(dataflow_result(None, *plan, ids, *table_schemas));
            None
        },
    }
}

/// What a compilation hands out, given what the resolver knew at the start: the graph of the
/// plan and the identifiers of the tables that the plan reads.
pub open spec fn dataflow_result(
    result: Option<CompileResult>,
    plan: PhysicalPlan,
    ids: ResolverView,
    schemas: SchemaCatalog,
) -> bool {
    let (compiled, after) = plan_result(plan, ids, schemas);
    if incrementalizable(plan) && compiled is Some {
        &&& result is Some
        &&& result->0.dataflow@ == compiled->0.node
        &&& result->0.table_ids@ == after.used
    } else {
        result is None
    }
}

/// A plan can be maintained: it has no operator that a graph lacks, the schemas of all its tables
/// are known, and what its index reads select can be said as a predicate.
pub open spec fn maintainable(plan: PhysicalPlan, schemas: SchemaCatalog) -> bool
    decreases plan,
{
    match plan {
        PhysicalPlan::TableScan { table } => schemas.lookup(table@) is Some,
        PhysicalPlan::IndexScan { table, index, bounds, limit, offset, reverse } => {
            &&& !reverse
            &&& limit is None
            &&& !(offset matches Some(skipped) && skipped > 0)
            &&& schemas.lookup(table@) is Some
            &&& index_columns_of(schemas, table@, index@) matches Some(columns)
                && index_scan_predicate(table@, columns, bounds) is Ok
        },
        PhysicalPlan::IndexGet { table, index, limit, .. } => {
            &&& limit is None
            &&& schemas.lookup(table@) is Some
            &&& index_columns_of(schemas, table@, index@) matches Some(columns) && columns.len()
                == 1
        },
        PhysicalPlan::IndexInGet { table, index, .. } => {
            &&& schemas.lookup(table@) is Some
            &&& index_columns_of(schemas, table@, index@) matches Some(columns) && columns.len()
                == 1
        },
        PhysicalPlan::GinIndexScan { table, recheck, .. } => recheck is Some && schemas.lookup(
            table@,
        ) is Some,
        PhysicalPlan::GinIndexScanMulti { table, recheck, .. } => recheck is Some
            && schemas.lookup(table@) is Some,
        PhysicalPlan::Filter { input, .. } => maintainable(*input, schemas),
        PhysicalPlan::Project { input, .. } => maintainable(*input, schemas),
        PhysicalPlan::HashAggregate { input, .. } => maintainable(*input, schemas),
        PhysicalPlan::NoOp { input } => maintainable(*input, schemas),
        PhysicalPlan::HashJoin { left, right, .. } => maintainable(*left, schemas) && maintainable(
            *right,
            schemas,
        ),
        PhysicalPlan::SortMergeJoin { left, right, .. } => maintainable(*left, schemas)
            && maintainable(*right, schemas),
        PhysicalPlan::NestedLoopJoin { left, right, .. } => maintainable(*left, schemas)
            && maintainable(*right, schemas),
        PhysicalPlan::CrossProduct { left, right } => maintainable(*left, schemas) && maintainable(
            *right,
            schemas,
        ),
        PhysicalPlan::IndexNestedLoopJoin { outer, inner_table, .. } => maintainable(
            *outer,
            schemas,
        ) && schemas.lookup(inner_table@) is Some,
        PhysicalPlan::Empty => true,
        PhysicalPlan::Sort { .. } => false,
        PhysicalPlan::Limit { .. } => false,
        PhysicalPlan::TopN { .. } => false,
        PhysicalPlan::Union { .. } => false,
    }
}

/// A plan compiles to a graph.
spec fn compiles(plan: PhysicalPlan, ids: ResolverView, schemas: SchemaCatalog) -> bool {
    incrementalizable(plan) && plan_result(plan, ids, schemas).0 is Some
}

proof fn lemma_leaf_compiles(plan: PhysicalPlan, ids: ResolverView, schemas: SchemaCatalog)
    requires
        plan is TableScan || plan is IndexScan || plan is IndexGet || plan is IndexInGet
            || plan is GinIndexScan || plan is GinIndexScanMulti || plan is Empty || plan is Sort
            || plan is Limit || plan is TopN || plan is Union,
    ensures
        compiles(plan, ids, schemas) <==> maintainable(plan, schemas),
{
}

proof fn lemma_input_compiles(
    plan: PhysicalPlan,
    input: PhysicalPlan,
    ids: ResolverView,
    schemas: SchemaCatalog,
)
    requires
        match plan {
            PhysicalPlan::Filter { input: inner, .. } => *inner == input,
            PhysicalPlan::Project { input: inner, .. } => *inner == input,
            PhysicalPlan::HashAggregate { input: inner, .. } => *inner == input,
            PhysicalPlan::NoOp { input: inner } => *inner == input,
            _ => false,
        },
    ensures
        compiles(plan, ids, schemas) <==> compiles(input, ids, schemas),
        maintainable(plan, schemas) <==> maintainable(input, schemas),
{
}

proof fn lemma_join_compiles(
    plan: PhysicalPlan,
    left: PhysicalPlan,
    right: PhysicalPlan,
    ids: ResolverView,
    schemas: SchemaCatalog,
)
    requires
        match plan {
            PhysicalPlan::HashJoin { left: l, right: r, .. } => *l == left && *r == right,
            PhysicalPlan::SortMergeJoin { left: l, right: r, .. } => *l == left && *r == right,
            PhysicalPlan::NestedLoopJoin { left: l, right: r, .. } => *l == left && *r == right,
            PhysicalPlan::CrossProduct { left: l, right: r } => *l == left && *r == right,
            _ => false,
        },
    ensures
        compiles(plan, ids, schemas) <==> compiles(left, ids, schemas) && compiles(
            right,
            plan_result(left, ids, schemas).1,
            schemas,
        ),
        maintainable(plan, schemas) <==> maintainable(left, schemas) && maintainable(
            right,
            schemas,
        ),
{
}

proof fn lemma_index_join_compiles(
    plan: PhysicalPlan,
    outer: PhysicalPlan,
    ids: ResolverView,
    schemas: SchemaCatalog,
)
    requires
        plan matches PhysicalPlan::IndexNestedLoopJoin { outer: o, .. } && *o == outer,
    ensures
        compiles(plan, ids, schemas) <==> compiles(outer, ids, schemas) && schemas.lookup(
            plan->inner_table@,
        ) is Some,
{
}

/// A plan compiles to a graph exactly if it can be maintained, whatever identifiers its tables are
/// given: joins do, as long as the schemas of all joined tables are known.
pub proof fn law_maintainable_plans_compile(
    plan: PhysicalPlan,
    ids: ResolverView,
    schemas: SchemaCatalog,
)
    ensures
        incrementalizable(plan) && plan_result(plan, ids, schemas).0 is Some <==> maintainable(
            plan,
            schemas,
        ),
    decreases plan,
{
    match plan {
        PhysicalPlan::Filter { input, .. } | PhysicalPlan::Project { input, .. }
        | PhysicalPlan::HashAggregate { input, .. } | PhysicalPlan::NoOp { input } => {
            lemma_input_compiles(plan, *input, ids, schemas);
            law_maintainable_plans_compile(*input, ids, schemas);
        },
        PhysicalPlan::HashJoin { left, right, .. }
        | PhysicalPlan::SortMergeJoin { left, right, .. }
        | PhysicalPlan::NestedLoopJoin { left, right, .. }
        | PhysicalPlan::CrossProduct { left, right } => {
            lemma_join_compiles(plan, *left, *right, ids, schemas);
            law_maintainable_plans_compile(*left, ids, schemas);
            law_maintainable_plans_compile(*right, plan_result(*left, ids, schemas).1, schemas);
        },
        PhysicalPlan::IndexNestedLoopJoin { outer, .. } => {
            lemma_index_join_compiles(plan, *outer, ids, schemas);
            law_maintainable_plans_compile(*outer, ids, schemas);
        },
        _ => {
            lemma_leaf_compiles(plan, ids, schemas);
        },
    }
}

} // verus!
