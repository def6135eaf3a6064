//! What a query planner is told about the tables of a plan.
use vstd::prelude::*;

use crate::gin_cost::{
    candidates_view, plan_candidates, register_plan_gin_costs, GinCandidate,
    LogicalPlan,
};
use crate::refresh_policy::{
    mode_of, RestrictedAccessMode, RootSubsetCostPolicy, RootSubsetPlanVariant,
};
use crate::schema::{IndexDef, IndexType, Table};
use crate::tables::NameTable;
use crate::text::{clone_names, find_name, lemma_first_position, names_view};

verus! {

/// What a planner is told about an index.
#[derive(Debug)]
pub struct IndexInfo {
    pub name: String,
    pub columns: Vec<String>,
    pub unique: bool,
    pub index_type: IndexType,
    pub gin_paths: Option<Vec<String>>,
}

/// What a planner is told about an index.
#[verifier::ext_equal]
pub struct IndexInfoView {
    pub name: Seq<char>,
    pub columns: Seq<Seq<char>>,
    pub unique: bool,
    pub index_type: IndexType,
    pub gin_paths: Option<Seq<Seq<char>>>,
}

/// The names of an optional list.
pub open spec fn optional_names(names: Option<Vec<String>>) -> Option<Seq<Seq<char>>> {
    match names {
        Some(names) => Some(names_view(names@)),
        None => None,
    }
}

impl View for IndexInfo {
    type V = IndexInfoView;

    open spec fn view(&self) -> IndexInfoView {
        IndexInfoView {
            name: self.name@,
            columns: names_view(self.columns@),
            unique: self.unique,
            index_type: self.index_type,
            gin_paths: optional_names(self.gin_paths),
        }
    }
}

/// What a planner is told about an index of a table.
pub open spec fn info_of(index: IndexDef) -> IndexInfoView {
    IndexInfoView {
        name: index.name@,
        columns: names_view(index.columns@),
        unique: index.unique,
        index_type: index.index_type,
        gin_paths: optional_names(index.gin_paths),
    }
}

/// What a planner is told about a table: its rows, its indexes, and which of these have a number
/// of distinct keys.
#[derive(Debug)]
pub struct TableContext {
    pub table: String,
    pub row_count: usize,
    pub is_sorted: bool,
    pub indexes: Vec<IndexInfo>,
    pub counted_indexes: Vec<String>,
}

/// What a planner is told about a table.
#[verifier::ext_equal]
pub struct TableContextView {
    pub table: Seq<char>,
    pub row_count: usize,
    pub is_sorted: bool,
    pub indexes: Seq<IndexInfoView>,
    pub counted_indexes: Seq<Seq<char>>,
}

impl View for TableContext {
    type V = TableContextView;

    open spec fn view(&self) -> TableContextView {
        TableContextView {
            table: self.table@,
            row_count: self.row_count,
            is_sorted: self.is_sorted,
            indexes: self.indexes@.map_values(|index: IndexInfo| index@),
            counted_indexes: names_view(self.counted_indexes@),
        }
    }
}

/// The names of the indexes that have a number of distinct keys: all but those on documents.
pub open spec fn counted_names(indices: Seq<IndexDef>) -> Seq<Seq<char>>
    decreases indices.len(),
{
    if indices.len() == 0 {
        Seq::empty()
    } else if indices.last().index_type == IndexType::Gin {
        counted_names(indices.drop_last())
    } else {
        counted_names(indices.drop_last()).push(indices.last().name@)
    }
}

/// A table with the number of its rows.
#[derive(Debug)]
pub struct TableInfo {
    pub schema: Table,
    pub row_count: usize,
}

/// What a planner is told about a table under a name.
pub open spec fn context_of(name: Seq<char>, info: TableInfo) -> TableContextView {
    TableContextView {
        table: name,
        row_count: info.row_count,
        is_sorted: false,
        indexes: info.schema.indices@.map_values(|index: IndexDef| info_of(index)),
        counted_indexes: counted_names(info.schema.indices@),
    }
}

fn index_info(index: &IndexDef) -> (info: IndexInfo)
    ensures
        info@ == info_of(*index),
{
    IndexInfo {
        name: index.name.clone(),
        columns: clone_names(index.columns.as_slice()),
        unique: index.unique,
        index_type: index.index_type,
        gin_paths: match &index.gin_paths {
            Some(paths) => Some(clone_names(paths.as_slice())),
            None => None,
        },
    }
}

/// Tells a planner about a table.
pub fn register_table_context(name: &str, info: &TableInfo) -> (context: TableContext)
    ensures
        context@ == context_of(name@, *info),
{
    let ghost indices = info.schema.indices@;
    let mut indexes: Vec<IndexInfo> = Vec::new();
    let mut counted: Vec<String> = Vec::new();
    let mut i: usize = 0;
    assert(indices.take(0) =~= Seq::empty());
    assert(names_view(counted@) =~= Seq::empty());
    while i < info.schema.indices.len()
        invariant
            i <= info.schema.indices.len(),
            indices == info.schema.indices@,
            indexes.len() == i,
            forall|j: int| 0 <= j < i ==> (#[trigger] indexes@[j])@ == info_of(indices[j]),
            names_view(counted@) == counted_names(indices.take(i as int)),
        decreases info.schema.indices.len() - i,
    {
        let index = &info.schema.indices[i];
        assert(indices.take(i + 1).drop_last() =~= indices.take(i as int));
        assert(indices.take(i + 1).last() == indices[i as int]);
        indexes.push(index_info(index));
        if index.index_type != IndexType::Gin {
            let ghost before = names_view(counted@);
            counted.push(index.name.clone());
            assert(names_view(counted@) =~= before.push(index.name@));
        }
        i += 1;
    }
    assert(indices.take(indices.len() as int) =~= indices);
    let context = TableContext {
        table: name.to_owned(),
        row_count: info.row_count,
        is_sorted: false,
        indexes,
        counted_indexes: counted,
    };
    assert(context@ =~= context_of(name@, *info));
    context
}

/// What a planner is told about the table that a plan is restricted on.
#[derive(Debug)]
pub struct PlanningIntent {
    pub restricted_table: String,
    pub exact_subset_rows: usize,
    /// The rows of the whole table, for the part of them that the subset is.
    pub table_rows: usize,
    pub preferred_access_mode: RestrictedAccessMode,
    pub allow_global_fallback: bool,
}

/// What a planner is told about the table that a plan is restricted on.
#[verifier::ext_equal]
pub struct IntentView {
    pub restricted_table: Seq<char>,
    pub exact_subset_rows: usize,
    pub table_rows: usize,
    pub preferred_access_mode: RestrictedAccessMode,
    pub allow_global_fallback: bool,
}

impl View for PlanningIntent {
    type V = IntentView;

    open spec fn view(&self) -> IntentView {
        IntentView {
            restricted_table: self.restricted_table@,
            exact_subset_rows: self.exact_subset_rows,
            table_rows: self.table_rows,
            preferred_access_mode: self.preferred_access_mode,
            allow_global_fallback: self.allow_global_fallback,
        }
    }
}

/// The intent for a table of so many rows.
pub open spec fn intent_of(
    table: Seq<char>,
    table_rows: usize,
    variant: RootSubsetPlanVariant,
) -> Option<IntentView> {
    match RootSubsetCostPolicy::standard_policy().effective_rows(variant, table_rows) {
        None => None,
        Some(rows) => Some(
            IntentView {
                restricted_table: table,
                exact_subset_rows: rows,
                table_rows,
                preferred_access_mode: mode_of(variant),
                allow_global_fallback: true,
            },
        ),
    }
}

/// What an optional intent is.
pub open spec fn optional_intent(intent: Option<PlanningIntent>) -> Option<IntentView> {
    match intent {
        Some(intent) => Some(intent@),
        None => None,
    }
}

/// Tells a planner about the table that a plan is restricted on.
pub fn register_restricted_relation_intent(
    table: &str,
    table_rows: usize,
    variant: RootSubsetPlanVariant,
) -> (intent: Option<PlanningIntent>)
    ensures
        optional_intent(intent) == intent_of(table@, table_rows, variant),
{
    let exact_subset_rows = match RootSubsetCostPolicy::standard().effective_subset_rows(
        variant,
        table_rows,
    ) {
        Some(rows) => rows,
        None => {
            return None;
        },
    };
    Some(
        PlanningIntent {
            restricted_table: table.to_owned(),
            exact_subset_rows,
            table_rows,
            preferred_access_mode: variant.preferred_access_mode(),
            allow_global_fallback: true,
        },
    )
}

/// For which kind of refresh a plan is made.
#[derive(Clone, Copy, Debug, PartialEq, Eq, Structural)]
pub enum CompilePlanProfile {
    Default,
    RootSubset(RootSubsetPlanVariant),
}

/// The tables that a planner is told about: those of the plan, and the given one.
pub open spec fn context_tables(plan_tables: Seq<Seq<char>>, table: Seq<char>) -> Seq<Seq<char>> {
    if plan_tables.contains(table) {
        plan_tables
    } else {
        plan_tables.push(table)
    }
}

/// What a planner is told about tables; those that do not exist are passed over.
pub open spec fn contexts_of(stores: Map<Seq<char>, TableInfo>, tables: Seq<Seq<char>>) -> Seq<
    TableContextView,
>
    decreases tables.len(),
{
    if tables.len() == 0 {
        Seq::empty()
    } else if stores.dom().contains(tables.last()) {
        contexts_of(stores, tables.drop_last()).push(
            context_of(tables.last(), stores[tables.last()]),
        )
    } else {
        contexts_of(stores, tables.drop_last())
    }
}

/// The rows of a table, none if there is no such table.
pub open spec fn rows_of_table(stores: Map<Seq<char>, TableInfo>, table: Seq<char>) -> usize {
    if stores.dom().contains(table) {
        stores[table].row_count
    } else {
        0
    }
}

/// What a planner is told about a plan.
#[derive(Debug)]
pub struct ExecutionContext {
    pub tables: Vec<TableContext>,
    pub intent: Option<PlanningIntent>,
    pub gin_candidates: Vec<GinCandidate>,
}

/// What a planner is told about tables.
pub open spec fn contexts_view(contexts: Seq<TableContext>) -> Seq<TableContextView> {
    contexts.map_values(|context: TableContext| context@)
}

/// Tells a planner about a plan: about its tables, about the table that it is restricted on, and
/// for which conditions it may ask indexes on documents. `plan_tables` are the tables of the plan.
pub fn build_execution_context_for_plan_with_profile(
    stores: &NameTable<TableInfo>,
    table: &str,
    plan_tables: &[String],
    plan: &LogicalPlan,
    profile: CompilePlanProfile,
) -> (context: ExecutionContext)
    ensures
        contexts_view(context.tables@) == contexts_of(
            stores@,
            context_tables(names_view(plan_tables@), table@),
        ),
        optional_intent(context.intent) == (match profile {
            CompilePlanProfile::Default => None,
            CompilePlanProfile::RootSubset(variant) => intent_of(
                table@,
                rows_of_table(stores@, table@),
                variant,
            ),
        }),
        candidates_view(context.gin_candidates@) == plan_candidates(*plan),
{
    let mut names = clone_names(plan_tables);
    let ghost listed = names_view(plan_tables@);
    let known = find_name(plan_tables, table);
    proof {
        lemma_first_position(listed, table@);
        if known is Some {
            assert(listed[known->0 as int] == table@);
            assert(listed.contains(table@));
        } else {
            assert(!listed.contains(table@));
        }
    }
    if known.is_none() {
        names.push(table.to_owned());
        assert(names_view(names@) =~= listed.push(table@));
    }
    let ghost views = names_view(names@);
    assert(views == context_tables(listed, table@));
    let mut tables: Vec<TableContext> = Vec::new();
    let mut i: usize = 0;
    assert(views.take(0) =~= Seq::empty());
    assert(contexts_view(tables@) =~= Seq::empty());
    while i < names.len()
        invariant
            i <= names.len(),
            views == names_view(names@),
            contexts_view(tables@) == contexts_of(stores@, views.take(i as int)),
        decreases names.len() - i,
    {
        assert(views.take(i + 1).drop_last() =~= views.take(i as int));
        assert(views.take(i + 1).last() == names@[i as int]@);
        match stores.get(names[i].as_str()) {
            Some(info) => {
                let ghost before = contexts_view(tables@);
                let next = register_table_context(names[i].as_str(), info);
                let ghost added = next@;
                tables.push(next);
                assert(contexts_view(tables@) =~= before.push(added));
            },
            None => {},
        }
        i += 1;
    }
    assert(views.take(views.len() as int) =~= views);
    let intent = match profile {
        CompilePlanProfile::Default => None,
        CompilePlanProfile::RootSubset(variant) => {
            let table_rows = match stores.get(table) {
                Some(info) => info.row_count,
                None => 0,
            };
            register_restricted_relation_intent(table, table_rows, variant)
        },
    };
    let mut gin_candidates: Vec<GinCandidate> = Vec::new();
    register_plan_gin_costs(plan, &mut gin_candidates);
    assert(candidates_view(gin_candidates@) =~= plan_candidates(*plan));
    ExecutionContext { tables, intent, gin_candidates }
}

/// Tells a planner about a plan that is run as a whole.
pub fn build_execution_context_for_plan(
    stores: &NameTable<TableInfo>,
    table: &str,
    plan_tables: &[String],
    plan: &LogicalPlan,
) -> (context: ExecutionContext)
    ensures
        contexts_view(context.tables@) == contexts_of(
            stores@,
            context_tables(names_view(plan_tables@), table@),
        ),
        context.intent is None,
        candidates_view(context.gin_candidates@) == plan_candidates(*plan),
{
    build_execution_context_for_plan_with_profile(
        stores,
        table,
        plan_tables,
        plan,
        CompilePlanProfile::Default,
    )
}

/// A planner is told of an index what the schema says of it, and is told the entries of every index
/// but those on documents, in their order.
pub proof fn law_contexts_tell_of_every_index(name: Seq<char>, info: TableInfo, at: int)
    requires
        0 <= at < info.schema.indices@.len(),
    ensures
        ({
            let index = info.schema.indices@[at];
            let context = context_of(name, info);
            &&& context.table == name
            &&& context.row_count == info.row_count
            &&& context.indexes.len() == info.schema.indices@.len()
            &&& context.indexes[at].name == index.name@
            &&& context.indexes[at].columns == names_view(index.columns@)
            &&& context.indexes[at].unique == index.unique
            &&& context.indexes[at].index_type == index.index_type
            &&& context.indexes[at].gin_paths == optional_names(index.gin_paths)
            &&& index.index_type != IndexType::Gin ==> context.counted_indexes.contains(index.name@)
            &&& index.index_type == IndexType::Gin && (forall|other: int|
                0 <= other < info.schema.indices@.len() && other != at ==> (
                #[trigger] info.schema.indices@[other]).name@ != index.name@)
                ==> !context.counted_indexes.contains(index.name@)
        }),
{
    lemma_counted_names(info.schema.indices@, info.schema.indices@[at].name@);
}

proof fn lemma_counted_names(indices: Seq<IndexDef>, name: Seq<char>)
    ensures
        counted_names(indices).contains(name) <==> exists|i: int|
            0 <= i < indices.len() && (#[trigger] indices[i]).name@ == name && indices[i].index_type
                != IndexType::Gin,
    decreases indices.len(),
{
    if indices.len() > 0 {
        let front = indices.drop_last();
        let last = indices.len() - 1;
        lemma_counted_names(front, name);
        let before = counted_names(front);
        assert(forall|i: int| 0 <= i < last ==> front[i] == indices[i]);
        assert(indices[last] == indices.last());
        if before.contains(name) {
            let i = choose|i: int|
                0 <= i < front.len() && (#[trigger] front[i]).name@ == name && front[i].index_type
                    != IndexType::Gin;
            assert(indices[i].name@ == name);
            if indices.last().index_type != IndexType::Gin {
                assert(counted_names(indices)[before.index_of(name)] == name);
            }
        }
        if indices.last().index_type != IndexType::Gin {
            let all = before.push(indices.last().name@);
            assert(all[before.len() as int] == indices.last().name@);
            if all.contains(name) && name != indices.last().name@ {
                assert(before[all.index_of(name)] == name);
            }
        }
        if exists|i: int|
            0 <= i < indices.len() && (#[trigger] indices[i]).name@ == name && indices[i].index_type
                != IndexType::Gin {
            let i = choose|i: int|
                0 <= i < indices.len() && (#[trigger] indices[i]).name@ == name
                    && indices[i].index_type != IndexType::Gin;
            if i < last {
                assert(front[i].name@ == name);
            }
        }
    }
}

/// A planner is told of every known table of a plan, also of the table that the query is about where
/// the plan does not read it, and of no other table.
pub proof fn law_planners_know_the_tables_of_a_plan(
    stores: Map<Seq<char>, TableInfo>,
    plan_tables: Seq<Seq<char>>,
    table: Seq<char>,
    name: Seq<char>,
)
    ensures
        ({
            let contexts = contexts_of(stores, context_tables(plan_tables, table));
            &&& stores.dom().contains(name) && (plan_tables.contains(name) || name == table)
                ==> contexts.contains(context_of(name, stores[name]))
            &&& forall|i: int|
                0 <= i < contexts.len() ==> stores.dom().contains((#[trigger] contexts[i]).table)
                    && (plan_tables.contains(contexts[i].table) || contexts[i].table == table)
                    && contexts[i] == context_of(contexts[i].table, stores[contexts[i].table])
        }),
{
    let tables = context_tables(plan_tables, table);
    if plan_tables.contains(name) && !plan_tables.contains(table) {
        assert(tables[plan_tables.index_of(name)] == name);
    }
    if !plan_tables.contains(table) {
        assert(tables[plan_tables.len() as int] == table);
    }
    lemma_contexts(stores, tables, name);
    assert forall|other: Seq<char>| #[trigger] tables.contains(other) implies plan_tables.contains(
        other,
    ) || other == table by {
        let i = tables.index_of(other);
        if i < plan_tables.len() {
            assert(plan_tables[i] == other);
        }
    }
}

proof fn lemma_contexts(
    stores: Map<Seq<char>, TableInfo>,
    tables: Seq<Seq<char>>,
    name: Seq<char>,
)
    ensures
        stores.dom().contains(name) && tables.contains(name) ==> contexts_of(
            stores,
            tables,
        ).contains(context_of(name, stores[name])),
        forall|i: int|
            0 <= i < contexts_of(stores, tables).len() ==> stores.dom().contains(
                (#[trigger] contexts_of(stores, tables)[i]).table,
            ) && tables.contains(contexts_of(stores, tables)[i].table) && contexts_of(
                stores,
                tables,
            )[i] == context_of(
                contexts_of(stores, tables)[i].table,
                stores[contexts_of(stores, tables)[i].table],
            ),
    decreases tables.len(),
{
    if tables.len() > 0 {
        let front = tables.drop_last();
        lemma_contexts(stores, front, name);
        let before = contexts_of(stores, front);
        let all = contexts_of(stores, tables);
        if tables.contains(name) && name != tables.last() {
            assert(front[tables.index_of(name)] == name);
        }
        if stores.dom().contains(tables.last()) {
            assert(all[before.len() as int] == context_of(tables.last(), stores[tables.last()]));
        }
        if stores.dom().contains(name) && front.contains(name) {
            let i = before.index_of(context_of(name, stores[name]));
            assert(all[i] == context_of(name, stores[name]));
        }
        assert forall|i: int| 0 <= i < all.len() implies stores.dom().contains(
            (#[trigger] all[i]).table,
        ) && tables.contains(all[i].table) && all[i] == context_of(
            all[i].table,
            stores[all[i].table],
        ) by {
            if i < before.len() {
                assert(all[i] == before[i]);
                assert(front.contains(before[i].table));
                assert(tables[front.index_of(before[i].table)] == before[i].table);
            } else {
                assert(tables[tables.len() - 1] == tables.last());
            }
        }
    }
}

/// A planner that is told of a restriction is told of the table that it is on, and never of more
/// rows than the table has. Where few rows are expected they drive the execution, else indexes do.
pub proof fn law_restrictions_stay_within_the_table(
    table: Seq<char>,
    table_rows: usize,
    variant: RootSubsetPlanVariant,
)
    requires
        table_rows > 0,
    ensures
        intent_of(table, table_rows, variant) matches Some(intent) && {
            &&& intent.restricted_table == table
            &&& intent.table_rows == table_rows
            &&& 1 <= intent.exact_subset_rows <= table_rows
            &&& intent.allow_global_fallback
            &&& intent.preferred_access_mode is SubsetDriven <==> variant is Small
        },
{
    crate::refresh_policy::law_effective_rows_within_table(variant, table_rows);
}

} // verus!
