//! Tables of a database, and how GraphQL operations reach its live queries.
use vstd::prelude::*;

use crate::bootstrap::{
    bindings_view, collect_trace_bootstrap_source_bindings, sources, with_sources,
    TraceBootstrapSourceBinding,
};
use crate::collections::RowIdSet;
use crate::dataflow::{
    compile_to_dataflow, dataflow_result, law_maintainable_plans_compile, maintainable,
    CompileResult, ResolverView,
};
use crate::facts::Comparison;
use crate::live_registry::{
    row_deltas_view, DeltaView, LiveDependencySet, LiveOutputKind,
    LivePlanDescriptor, LiveRegistry, LiveView, RowDelta,
};
use crate::order::{compare_chars, law_text_order_equal, text_order};
use crate::plan::PhysicalPlan;
use crate::query_context::context_tables;
use crate::row::{Row, RowView};
use crate::schema::{SchemaCatalog, TableId, TableIdMap};
use crate::tables::NameTable;
use crate::text::{
    chars_of, clone_names, find_name, lemma_first_position, names_view, string_of,
};
use crate::transaction::{changed_rows, delta_rows, net_count};

verus! {

/// Why an operation of a database fails.
#[derive(Debug)]
pub enum DatabaseError {
    Storage(String),
    SubscriptionNotExecutable,
    NotSubscription,
    RootFieldCount,
    RootFieldKind,
    TableIdNotFound(String),
    TableNotFound(String),
}

/// Why an operation of a database fails.
pub enum DatabaseErrorView {
    Storage(Seq<char>),
    SubscriptionNotExecutable,
    NotSubscription,
    RootFieldCount,
    RootFieldKind,
    TableIdNotFound(Seq<char>),
    TableNotFound(Seq<char>),
}

impl View for DatabaseError {
    type V = DatabaseErrorView;

    open spec fn view(&self) -> DatabaseErrorView {
        match self {
            DatabaseError::Storage(text) => DatabaseErrorView::Storage(text@),
            DatabaseError::SubscriptionNotExecutable => {
                DatabaseErrorView::SubscriptionNotExecutable
            },
            DatabaseError::NotSubscription => DatabaseErrorView::NotSubscription,
            DatabaseError::RootFieldCount => DatabaseErrorView::RootFieldCount,
            DatabaseError::RootFieldKind => DatabaseErrorView::RootFieldKind,
            DatabaseError::TableIdNotFound(name) => DatabaseErrorView::TableIdNotFound(name@),
            DatabaseError::TableNotFound(name) => DatabaseErrorView::TableNotFound(name@),
        }
    }
}

impl DatabaseErrorView {
    /// The text of the error.
    pub open spec fn text(self) -> Seq<char> {
        match self {
            DatabaseErrorView::Storage(text) => text,
            DatabaseErrorView::SubscriptionNotExecutable => {
                "subscription operations must use subscribeGraphql() or PreparedGraphqlQuery.subscribe()"@
            },
            DatabaseErrorView::NotSubscription => {
                "subscribeGraphql() only accepts subscription operations"@
            },
            DatabaseErrorView::RootFieldCount => {
                "GraphQL subscriptions must select exactly one root field"@
            },
            DatabaseErrorView::RootFieldKind => {
                "GraphQL subscriptions must select a concrete root field"@
            },
            DatabaseErrorView::TableIdNotFound(name) => "Table ID not found: "@ + name,
            DatabaseErrorView::TableNotFound(name) => "Table not found: "@ + name,
        }
    }
}

fn with_name(text: &str, name: &str) -> (result: String)
    ensures
        result@ == text@ + name@,
{
    let mut chars = chars_of(text);
    let mut rest = chars_of(name);
    chars.append(&mut rest);
    string_of(chars.as_slice())
}

impl DatabaseError {
    /// The text of the error.
    pub fn message(&self) -> (text: String)
        ensures
            text@ == self@.text(),
    {
        match self {
            DatabaseError::Storage(text) => text.clone(),
            DatabaseError::SubscriptionNotExecutable => {
                "subscription operations must use subscribeGraphql() or PreparedGraphqlQuery.subscribe()".to_owned()
            },
            DatabaseError::NotSubscription => {
                "subscribeGraphql() only accepts subscription operations".to_owned()
            },
            DatabaseError::RootFieldCount => {
                "GraphQL subscriptions must select exactly one root field".to_owned()
            },
            DatabaseError::RootFieldKind => {
                "GraphQL subscriptions must select a concrete root field".to_owned()
            },
            DatabaseError::TableIdNotFound(name) => with_name("Table ID not found: ", name.as_str()),
            DatabaseError::TableNotFound(name) => with_name("Table not found: ", name.as_str()),
        }
    }
}

/// The tables of a database.
#[verifier::ext_equal]
pub struct DatabaseView {
    pub name: Seq<char>,
    pub ids: Map<Seq<char>, TableId>,
    pub next_id: TableId,
    pub epoch: u64,
}

impl DatabaseView {
    /// Identifiers that were given out are below the next one, and no two tables share one.
    pub open spec fn consistent(self) -> bool {
        &&& forall|table: Seq<char>| #[trigger]
            self.ids.dom().contains(table) ==> self.ids[table] < self.next_id
        &&& forall|left: Seq<char>, right: Seq<char>|
            #![trigger self.ids[left], self.ids[right]]
            self.ids.dom().contains(left) && self.ids.dom().contains(right) && left != right
                ==> self.ids[left] != self.ids[right]
    }

    /// The database with another table.
    pub open spec fn registered(self, table: Seq<char>) -> DatabaseView {
        DatabaseView {
            ids: self.ids.insert(table, self.next_id),
            next_id: (self.next_id + 1) as TableId,
            epoch: (self.epoch + 1) as u64,
            ..self
        }
    }

    /// The database without a table.
    pub open spec fn dropped(self, table: Seq<char>) -> DatabaseView {
        DatabaseView {
            ids: self.ids.remove(table),
            epoch: (self.epoch + 1) as u64,
            ..self
        }
    }
}

/// The tables of a database: each has an identifier, and the epoch counts changes of the schema.
pub struct Database {
    name: String,
    table_ids: TableIdMap,
    next_table_id: TableId,
    schema_epoch: u64,
}

impl Database {
    #[verifier::type_invariant]
    spec fn keeps_ids_apart(self) -> bool {
        self@.consistent()
    }

    /// The tables of the database.
    pub closed spec fn view(&self) -> DatabaseView {
        DatabaseView {
            name: self.name@,
            ids: self.table_ids@,
            next_id: self.next_table_id,
            epoch: self.schema_epoch,
        }
    }

    /// A database without tables.
    pub fn new(name: &str) -> (result: Self)
        ensures
            result@ == (DatabaseView {
                name: name@,
                ids: Map::empty(),
                next_id: 1,
                epoch: 0,
            }),
    {
        Database {
            name: name.to_owned(),
            table_ids: TableIdMap::new(),
            next_table_id: 1,
            schema_epoch: 0,
        }
    }

    /// The name of the database.
    pub fn name(&self) -> (name: String)
        ensures
            name@ == self@.name,
    {
        self.name.clone()
    }

    /// The number of changes of the schema.
    pub fn schema_epoch(&self) -> (epoch: u64)
        ensures
            epoch == self@.epoch,
    {
        self.schema_epoch
    }

    /// The identifiers of the tables.
    pub fn table_ids(&self) -> (ids: &TableIdMap)
        ensures
            ids@ == self@.ids,
    {
        &self.table_ids
    }

    /// The identifier of a table.
    pub fn get_table_id(&self, table: &str) -> (id: Option<TableId>)
        ensures
            id == (if self@.ids.dom().contains(table@) {
                Some(self@.ids[table@])
            } else {
                None
            }),
    {
        self.table_ids.get(table)
    }

    /// Gives a table that the store has made an identifier. `failure` is the error of the store,
    /// if it has one.
    pub fn register_table(&mut self, table: String, failure: Option<String>) -> (result: Result<
        TableId,
        DatabaseError,
    >)
        requires
            failure is None ==> old(self)@.next_id < TableId::MAX && old(self)@.epoch < u64::MAX,
        ensures
            match failure {
                Some(text) => result matches Err(error) && error@ == DatabaseErrorView::Storage(
                    text@,
                ) && final(self)@ == old(self)@,
                None => result matches Ok(id) && id == old(self)@.next_id && final(self)@ == old(
                    self,
                )@.registered(table@),
            },
    {
        match failure {
            Some(text) => Err(DatabaseError::Storage(text)),
            None => {
                let ghost start = self@;
                let ghost name = table@;
                proof {
                    use_type_invariant(&*self);
                    assert(start.consistent());
                }
                let id = self.next_table_id;
                let mut ids = TableIdMap::new();
                core::mem::swap(&mut self.table_ids, &mut ids);
                self.next_table_id = id + 1;
                ids.insert(table, id);
                assert(ids@ == start.ids.insert(name, id));
                assert((DatabaseView {
                    ids: ids@,
                    next_id: (id + 1) as TableId,
                    ..start
                }).consistent());
                self.table_ids = ids;
                self.schema_epoch = self.schema_epoch + 1;
                assert(self@ =~= start.registered(name));
                Ok(id)
            },
        }
    }

    /// Takes a table that the store has dropped away. `failure` is the error of the store, if it
    /// has one.
    pub fn drop_table(&mut self, table: &str, failure: Option<String>) -> (result: Result<
        (),
        DatabaseError,
    >)
        requires
            failure is None ==> old(self)@.epoch < u64::MAX,
        ensures
            match failure {
                Some(text) => result matches Err(error) && error@ == DatabaseErrorView::Storage(
                    text@,
                ) && final(self)@ == old(self)@,
                None => result is Ok && final(self)@ == old(self)@.dropped(table@),
            },
    {
        match failure {
            Some(text) => Err(DatabaseError::Storage(text)),
            None => {
                let ghost start = self@;
                proof {
                    use_type_invariant(&*self);
                    assert(start.consistent());
                }
                let mut ids = TableIdMap::new();
                core::mem::swap(&mut self.table_ids, &mut ids);
                ids.remove(table);
                assert(ids@ == start.ids.remove(table@));
                assert((DatabaseView { ids: ids@, ..start }).consistent());
                self.table_ids = ids;
                self.schema_epoch = self.schema_epoch + 1;
                assert(self@ =~= start.dropped(table@));
                Ok(())
            },
        }
    }
}

/// Tables keep their identifiers while others come and go, a new table gets one that no table has
/// had before, and each change of the schema starts a new epoch.
pub proof fn law_table_ids_stay_apart(database: DatabaseView, table: Seq<char>, other: Seq<char>)
    requires
        database.consistent(),
        database.next_id < TableId::MAX,
        database.epoch < u64::MAX,
        table != other,
    ensures
        database.registered(table).consistent(),
        database.dropped(table).consistent(),
        database.ids.dom().contains(other) ==> database.registered(table).ids[other]
            == database.ids[other] && database.dropped(table).ids[other] == database.ids[other],
        forall|known: Seq<char>| #[trigger]
            database.ids.dom().contains(known) ==> database.ids[known] < database.registered(
                table,
            ).ids[table],
        database.registered(table).next_id > database.next_id,
        database.dropped(table).next_id == database.next_id,
        database.registered(table).epoch > database.epoch,
        database.dropped(table).epoch > database.epoch,
{
}

/// The kinds of GraphQL operations.
#[derive(Clone, Copy, Debug, PartialEq, Eq, Structural)]
pub enum OperationKind {
    Query,
    Mutation,
    Subscription,
}

/// A root field of an operation, as far as it decides how a subscription is kept.
#[derive(Clone, Copy, Debug, PartialEq, Eq, Structural)]
pub struct RootFieldInfo {
    pub is_typename: bool,
    pub delta_capable: bool,
}

/// Checks that an operation can be run once.
pub fn check_executable(kind: OperationKind) -> (result: Result<(), DatabaseError>)
    ensures
        match result {
            Ok(_) => kind != OperationKind::Subscription,
            Err(error) => kind == OperationKind::Subscription && error@
                == DatabaseErrorView::SubscriptionNotExecutable,
        },
{
    match kind {
        OperationKind::Subscription => Err(DatabaseError::SubscriptionNotExecutable),
        _ => Ok(()),
    }
}

/// Checks that an operation is a subscription of one field of a table, and hands the field out.
pub fn check_subscription(kind: OperationKind, fields: &[RootFieldInfo]) -> (result: Result<
    RootFieldInfo,
    DatabaseError,
>)
    ensures
        match result {
            Ok(field) => kind == OperationKind::Subscription && fields@.len() == 1 && field
                == fields@[0] && !field.is_typename,
            Err(error) => error@ == (if kind != OperationKind::Subscription {
                DatabaseErrorView::NotSubscription
            } else if fields@.len() != 1 {
                DatabaseErrorView::RootFieldCount
            } else {
                DatabaseErrorView::RootFieldKind
            }) && (kind == OperationKind::Subscription && fields@.len() == 1
                ==> fields@[0].is_typename),
        },
{
    if kind != OperationKind::Subscription {
        return Err(DatabaseError::NotSubscription);
    }
    if fields.len() != 1 {
        return Err(DatabaseError::RootFieldCount);
    }
    if fields[0].is_typename {
        return Err(DatabaseError::RootFieldKind);
    }
    Ok(fields[0])
}

/// The first table of a list without an identifier.
pub open spec fn first_unknown(tables: Seq<Seq<char>>, ids: Map<Seq<char>, TableId>) -> Option<
    Seq<char>,
>
    decreases tables.len(),
{
    if tables.len() == 0 {
        None
    } else if first_unknown(tables.drop_last(), ids) is Some {
        first_unknown(tables.drop_last(), ids)
    } else if ids.dom().contains(tables.last()) {
        None
    } else {
        Some(tables.last())
    }
}

proof fn lemma_first_unknown(tables: Seq<Seq<char>>, ids: Map<Seq<char>, TableId>, k: int)
    requires
        0 <= k <= tables.len(),
    ensures
        first_unknown(tables.take(k), ids) is Some ==> first_unknown(tables, ids)
            == first_unknown(tables.take(k), ids),
        first_unknown(tables, ids) is None ==> forall|i: int|
            0 <= i < tables.len() ==> ids.dom().contains(#[trigger] tables[i]),
    decreases tables.len(),
{
    if tables.len() > 0 {
        if k < tables.len() {
            lemma_first_unknown(tables.drop_last(), ids, k);
            assert(tables.drop_last().take(k) =~= tables.take(k));
        } else {
            lemma_first_unknown(tables.drop_last(), ids, k - 1);
            assert(tables.take(k) =~= tables);
        }
        assert forall|i: int| 0 <= i < tables.len() - 1 implies tables[i]
            == tables.drop_last()[i] by {}
    } else {
        assert(tables.take(k) =~= tables);
    }
}

/// The identifiers of tables.
pub open spec fn ids_of_tables(tables: Seq<Seq<char>>, ids: Map<Seq<char>, TableId>) -> Seq<
    TableId,
> {
    tables.map_values(|table: Seq<char>| ids[table])
}

/// Looks up the identifiers of tables.
pub fn table_ids_of(table_ids: &TableIdMap, tables: &[String]) -> (result: Result<
    Vec<TableId>,
    DatabaseError,
>)
    ensures
        match first_unknown(names_view(tables@), table_ids@) {
            Some(table) => result matches Err(error) && error@
                == DatabaseErrorView::TableIdNotFound(table),
            None => result matches Ok(ids) && ids@ == ids_of_tables(
                names_view(tables@),
                table_ids@,
            ),
        },
{
    let ghost views = names_view(tables@);
    let mut result: Vec<TableId> = Vec::new();
    let mut i: usize = 0;
    assert(views.take(0) =~= Seq::empty());
    while i < tables.len()
        invariant
            i <= tables.len(),
            views == names_view(tables@),
            first_unknown(views.take(i as int), table_ids@) is None,
            result@ == ids_of_tables(views.take(i as int), table_ids@),
        decreases tables.len() - i,
    {
        assert(views.take(i + 1).drop_last() =~= views.take(i as int));
        assert(views.take(i + 1).last() == tables@[i as int]@);
        match table_ids.get(tables[i].as_str()) {
            Some(id) => {
                result.push(id);
                assert(result@ =~= ids_of_tables(views.take(i + 1), table_ids@));
            },
            None => {
                proof {
                    lemma_first_unknown(views, table_ids@, i + 1);
                }
                return Err(DatabaseError::TableIdNotFound(tables[i].clone()));
            },
        }
        i += 1;
    }
    assert(views.take(views.len() as int) =~= views);
    Ok(result)
}

/// Tables with their identifiers.
pub open spec fn named_ids(bindings: Seq<(TableId, String)>) -> Seq<(TableId, Seq<char>)> {
    bindings.map_values(|binding: (TableId, String)| (binding.0, binding.1@))
}

/// An identifier is among those of bindings.
pub open spec fn is_bound(bindings: Seq<(TableId, Seq<char>)>, id: TableId) -> bool {
    exists|i: int| 0 <= i < bindings.len() && #[trigger] bindings[i].0 == id
}

/// The identifiers of tables in ascending order, each once and with the first name, in the order of
/// texts, of the tables that it stands for.
pub open spec fn binds(
    bindings: Seq<(TableId, Seq<char>)>,
    tables: Seq<Seq<char>>,
    ids: Map<Seq<char>, TableId>,
) -> bool {
    &&& forall|i: int, j: int|
        0 <= i < j < bindings.len() ==> #[trigger] bindings[i].0 < #[trigger] bindings[j].0
    &&& forall|i: int|
        #![trigger bindings[i]]
        0 <= i < bindings.len() ==> tables.contains(bindings[i].1) && ids[bindings[i].1]
            == bindings[i].0
    &&& forall|i: int, table: Seq<char>|
        #![trigger bindings[i], tables.contains(table)]
        0 <= i < bindings.len() && tables.contains(table) && ids[table] == bindings[i].0
            ==> text_order(bindings[i].1, table) != Comparison::Greater
    &&& forall|table: Seq<char>|
        tables.contains(table) ==> #[trigger] is_bound(bindings, ids[table])
}

proof fn lemma_text_order_flips(left: Seq<char>, right: Seq<char>)
    ensures
        text_order(left, right) == Comparison::Less <==> text_order(right, left)
            == Comparison::Greater,
        text_order(left, right) != Comparison::Unordered,
    decreases left.len(),
{
    if left.len() > 0 && right.len() > 0 && left[0] == right[0] {
        lemma_text_order_flips(left.skip(1), right.skip(1));
    }
}

proof fn lemma_text_order_chains(first: Seq<char>, second: Seq<char>, third: Seq<char>)
    requires
        text_order(first, second) != Comparison::Greater,
        text_order(second, third) != Comparison::Greater,
    ensures
        text_order(first, third) != Comparison::Greater,
    decreases first.len(),
{
    if first.len() > 0 && second.len() > 0 && third.len() > 0 && first[0] == second[0] && second[0]
        == third[0] {
        lemma_text_order_chains(first.skip(1), second.skip(1), third.skip(1));
    }
}

/// Where an identifier stands in ascending bindings, or would stand.
fn binding_position(bindings: &Vec<(TableId, String)>, id: TableId) -> (at: usize)
    requires
        forall|i: int, j: int|
            0 <= i < j < bindings@.len() ==> #[trigger] bindings@[i].0 < #[trigger] bindings@[j].0,
    ensures
        at <= bindings@.len(),
        forall|i: int| 0 <= i < at ==> (#[trigger] bindings@[i]).0 < id,
        forall|i: int| at <= i < bindings@.len() ==> (#[trigger] bindings@[i]).0 >= id,
{
    let mut at: usize = 0;
    while at < bindings.len() && bindings[at].0 < id
        invariant
            at <= bindings.len(),
            forall|i: int| 0 <= i < at ==> (#[trigger] bindings@[i]).0 < id,
        decreases bindings.len() - at,
    {
        at += 1;
    }
    proof {
        if at < bindings@.len() {
            assert forall|i: int| at <= i < bindings@.len() implies (#[trigger] bindings@[i]).0
                >= id by {
                if i > at {
                    assert(bindings@[at as int].0 < bindings@[i].0);
                }
            }
        }
    }
    at
}

proof fn lemma_pushed_tables(tables: Seq<Seq<char>>, table: Seq<char>)
    ensures
        forall|other: Seq<char>| #[trigger]
            tables.push(table).contains(other) <==> (tables.contains(other) || other == table),
{
    let all = tables.push(table);
    assert(all[tables.len() as int] == table);
    assert forall|other: Seq<char>| #[trigger] all.contains(other) <==> (tables.contains(other)
        || other == table) by {
        if tables.contains(other) {
            let k = choose|k: int| 0 <= k < tables.len() && tables[k] == other;
            assert(all[k] == other);
        }
        if all.contains(other) {
            let k = choose|k: int| 0 <= k < all.len() && all[k] == other;
            if k < tables.len() {
                assert(tables[k] == other);
            }
        }
    }
}

proof fn lemma_bindings_grow(
    before: Seq<(TableId, Seq<char>)>,
    tables: Seq<Seq<char>>,
    table: Seq<char>,
    at: int,
    ids: Map<Seq<char>, TableId>,
)
    requires
        binds(before, tables, ids),
        0 <= at <= before.len(),
        forall|i: int| 0 <= i < at ==> (#[trigger] before[i]).0 < ids[table],
        forall|i: int| at <= i < before.len() ==> (#[trigger] before[i]).0 > ids[table],
    ensures
        binds(before.insert(at, (ids[table], table)), tables.push(table), ids),
{
    let all = tables.push(table);
    let id = ids[table];
    let after = before.insert(at, (id, table));
    lemma_pushed_tables(tables, table);
    assert forall|i: int| 0 <= i < after.len() implies after[i] == (if i < at {
        before[i]
    } else if i == at {
        (id, table)
    } else {
        before[i - 1]
    }) by {}
    assert forall|other: Seq<char>| tables.contains(other) implies ids[other] != id by {
        assert(is_bound(before, ids[other]));
        let k = choose|k: int| 0 <= k < before.len() && #[trigger] before[k].0 == ids[other];
        assert(before[k].0 != id);
    }
    law_text_order_equal(table, table);
    assert forall|other: Seq<char>| all.contains(other) implies #[trigger] is_bound(
        after,
        ids[other],
    ) by {
        if other == table {
            assert(after[at].0 == id);
        } else {
            assert(is_bound(before, ids[other]));
            let k = choose|k: int| 0 <= k < before.len() && #[trigger] before[k].0 == ids[other];
            if k >= at {
                assert(after[k + 1].0 == ids[other]);
            } else {
                assert(after[k].0 == ids[other]);
            }
        }
    }
}

proof fn lemma_bindings_keep(
    before: Seq<(TableId, Seq<char>)>,
    tables: Seq<Seq<char>>,
    table: Seq<char>,
    at: int,
    ids: Map<Seq<char>, TableId>,
)
    requires
        binds(before, tables, ids),
        0 <= at < before.len(),
        before[at].0 == ids[table],
    ensures
        text_order(table, before[at].1) == Comparison::Less ==> binds(
            before.update(at, (ids[table], table)),
            tables.push(table),
            ids,
        ),
        text_order(table, before[at].1) != Comparison::Less ==> binds(
            before,
            tables.push(table),
            ids,
        ),
{
    let all = tables.push(table);
    let id = ids[table];
    let shorter = text_order(table, before[at].1) == Comparison::Less;
    let after = if shorter {
        before.update(at, (id, table))
    } else {
        before
    };
    lemma_pushed_tables(tables, table);
    lemma_text_order_flips(table, before[at].1);
    lemma_text_order_flips(before[at].1, table);
    law_text_order_equal(table, table);
    assert forall|i: int| 0 <= i < after.len() && i != at implies #[trigger] before[i].0 != id by {
        if i < at {
            assert(before[i].0 < before[at].0);
        } else {
            assert(before[at].0 < before[i].0);
        }
    }
    assert forall|i: int| 0 <= i < after.len() implies after[i].0 == before[i].0 && (i != at
        ==> after[i] == before[i]) by {}
    assert forall|i: int, other: Seq<char>|
        #![trigger after[i], all.contains(other)]
        0 <= i < after.len() && all.contains(other) && ids[other] == after[i].0 implies text_order(
        after[i].1,
        other,
    ) != Comparison::Greater by {
        if i == at {
            if tables.contains(other) {
                assert(before[i].0 == ids[other]);
                assert(text_order(before[i].1, other) != Comparison::Greater);
                if shorter {
                    lemma_text_order_chains(table, before[i].1, other);
                }
            }
        } else {
            assert(other != table);
            assert(tables.contains(other));
            assert(after[i] == before[i]);
        }
    }
    assert forall|other: Seq<char>| all.contains(other) implies #[trigger] is_bound(
        after,
        ids[other],
    ) by {
        if other == table {
            assert(after[at].0 == id);
        } else {
            assert(is_bound(before, ids[other]));
            let k = choose|k: int| 0 <= k < before.len() && #[trigger] before[k].0 == ids[other];
            assert(after[k].0 == ids[other]);
        }
    }
}

/// Pairs the tables that a subscription reads with their identifiers.
pub fn build_graphql_dependency_bindings(table_ids: &TableIdMap, tables: &[String]) -> (result:
    Result<Vec<(TableId, String)>, DatabaseError>)
    ensures
        match first_unknown(names_view(tables@), table_ids@) {
            Some(table) => result matches Err(error) && error@
                == DatabaseErrorView::TableIdNotFound(table),
            None => result matches Ok(bindings) && binds(
                named_ids(bindings@),
                names_view(tables@),
                table_ids@,
            ),
        },
{
    let ids = match table_ids_of(table_ids, tables) {
        Ok(ids) => ids,
        Err(error) => {
            return Err(error);
        },
    };
    let ghost views = names_view(tables@);
    let ghost numbers = table_ids@;
    let mut bindings: Vec<(TableId, String)> = Vec::new();
    let mut i: usize = 0;
    assert(views.take(0) =~= Seq::empty());
    while i < tables.len()
        invariant
            i <= tables.len(),
            ids.len() == tables.len(),
            views == names_view(tables@),
            numbers == table_ids@,
            ids@ == ids_of_tables(views, numbers),
            binds(named_ids(bindings@), views.take(i as int), numbers),
        decreases tables.len() - i,
    {
        let ghost before = named_ids(bindings@);
        let id = ids[i];
        let table = &tables[i];
        assert(id == numbers[table@]);
        assert forall|k: int, m: int| 0 <= k < m < bindings@.len() implies #[trigger] bindings@[k].0
            < #[trigger] bindings@[m].0 by {
            assert(before[k].0 < before[m].0);
        }
        let at = binding_position(&bindings, id);
        assert forall|k: int| 0 <= k < at implies (#[trigger] before[k]).0 < id by {
            assert(bindings@[k].0 < id);
        }
        assert forall|k: int| at <= k < before.len() implies (#[trigger] before[k]).0 >= id by {
            assert(bindings@[k].0 >= id);
        }
        if at < bindings.len() && bindings[at].0 == id {
            let comparison = compare_chars(
                chars_of(table.as_str()).as_slice(),
                chars_of(bindings[at].1.as_str()).as_slice(),
            );
            proof {
                lemma_bindings_keep(before, views.take(i as int), table@, at as int, numbers);
            }
            if comparison == Comparison::Less {
                bindings.set(at, (id, table.clone()));
                assert(named_ids(bindings@) =~= before.update(at as int, (id, table@)));
            }
        } else {
            proof {
                assert forall|k: int| at <= k < before.len() implies (#[trigger] before[k]).0
                    > id by {
                    assert(before[k].0 >= id);
                    if k > at {
                        assert(before[at as int].0 < before[k].0);
                    }
                    assert(bindings@[at as int].0 == before[at as int].0);
                }
                lemma_bindings_grow(before, views.take(i as int), table@, at as int, numbers);
            }
            bindings.insert(at, (id, table.clone()));
            assert(named_ids(bindings@) =~= before.insert(at as int, (id, table@)));
        }
        assert(views.take(i + 1) =~= views.take(i as int).push(table@));
        i += 1;
    }
    assert(views.take(views.len() as int) =~= views);
    Ok(bindings)
}

/// The tables that a subscription reads, and those of its root rows, by identifier.
pub open spec fn depends(
    dependencies: LiveDependencySet,
    bindings: Seq<(TableId, Seq<char>)>,
    root_ids: Seq<TableId>,
) -> bool {
    &&& dependencies.well_formed()
    &&& forall|id: TableId| #[trigger]
        dependencies.tables@.contains(id) <==> is_bound(bindings, id)
    &&& forall|id: TableId| #[trigger]
        dependencies.root_tables@.contains(id) <==> root_ids.contains(id)
}

/// Lists what a subscription reads.
pub fn build_graphql_dependency_set(
    table_ids: &TableIdMap,
    bindings: &[(TableId, String)],
    root_tables: &[String],
) -> (result: Result<LiveDependencySet, DatabaseError>)
    ensures
        match first_unknown(names_view(root_tables@), table_ids@) {
            Some(table) => result matches Err(error) && error@
                == DatabaseErrorView::TableIdNotFound(table),
            None => result matches Ok(dependencies) && depends(
                dependencies,
                named_ids(bindings@),
                ids_of_tables(names_view(root_tables@), table_ids@),
            ),
        },
{
    let mut ids: Vec<TableId> = Vec::new();
    let mut i: usize = 0;
    while i < bindings.len()
        invariant
            i <= bindings.len(),
            ids.len() == i,
            forall|j: int| 0 <= j < i ==> #[trigger] ids@[j] == bindings@[j].0,
        decreases bindings.len() - i,
    {
        ids.push(bindings[i].0);
        i += 1;
    }
    let ghost listed = ids@;
    let root_ids = match table_ids_of(table_ids, root_tables) {
        Ok(root_ids) => root_ids,
        Err(error) => {
            return Err(error);
        },
    };
    let dependencies = LiveDependencySet::graphql(ids, root_ids);
    proof {
        let named = named_ids(bindings@);
        assert forall|id: TableId| #[trigger]
            dependencies.tables@.contains(id) <==> is_bound(named, id) by {
            if dependencies.tables@.contains(id) {
                assert(listed.contains(id));
                let k = choose|k: int| 0 <= k < listed.len() && listed[k] == id;
                assert(named[k].0 == id);
            }
            if is_bound(named, id) {
                let k = choose|i: int| 0 <= i < named.len() && #[trigger] named[i].0 == id;
                assert(listed[k] == id);
                assert(listed.contains(id));
            }
        }
    }
    Ok(dependencies)
}

/// How the root rows of a subscription are maintained: the graph of the plan and its sources.
pub struct GraphqlDeltaPlan {
    pub compiled: CompileResult,
    pub source_bindings: Vec<TraceBootstrapSourceBinding>,
}

/// What maintaining the root rows of a plan takes, if it can be done.
pub open spec fn delta_plan(
    result: Option<GraphqlDeltaPlan>,
    plan: PhysicalPlan,
    ids: ResolverView,
    catalog: SchemaCatalog,
) -> bool {
    match result {
        None => dataflow_result(None, plan, ids, catalog),
        Some(found) => {
            &&& dataflow_result(Some(found.compiled), plan, ids, catalog)
            &&& bindings_view(found.source_bindings@) == with_sources(
                Seq::empty(),
                sources(plan, catalog),
                found.compiled.table_ids@,
            )
        },
    }
}

/// What maintaining the root rows of a plan takes, whatever identifiers tables without one are
/// given.
pub open spec fn delta_outcome(
    result: Option<GraphqlDeltaPlan>,
    plan: PhysicalPlan,
    known: Map<Seq<char>, TableId>,
    schemas: SchemaCatalog,
) -> bool {
    exists|ids: ResolverView| #[trigger]
        ids.initial(known) && delta_plan(result, plan, ids, schemas)
}

/// Compiles the plan of the root rows of a subscription for incremental maintenance. `schemas`
/// holds the schemas of the tables that the plan reads.
pub fn build_graphql_delta_live_plan(
    table_ids: &TableIdMap,
    table: &str,
    schemas: &SchemaCatalog,
    plan: &PhysicalPlan,
) -> (result: Result<Option<GraphqlDeltaPlan>, DatabaseError>)
    ensures
        match schemas.lookup(table@) {
            None => result matches Err(error) && error@ == DatabaseErrorView::TableNotFound(table@),
            Some(_) => result matches Ok(live) && {
                &&& delta_outcome(live, *plan, table_ids@, *schemas)
                &&& live is Some <==> maintainable(*plan, *schemas)
            },
        },
{
    if schemas.get(table).is_none() {
        return Err(DatabaseError::TableNotFound(table.to_owned()));
    }
    let compiled = compile_to_dataflow(plan, table_ids, schemas);
    let ghost ids = choose|ids: ResolverView| #[trigger]
        ids.initial(table_ids@) && dataflow_result(compiled, *plan, ids, *schemas);
    let live = match compiled {
        None => None,
        Some(compiled) => {
            let source_bindings = collect_trace_bootstrap_source_bindings(
                plan,
                &compiled.table_ids,
                schemas,
            );
            Some(GraphqlDeltaPlan { compiled, source_bindings })
        },
    };
    proof {
        assert(ids.initial(table_ids@) && delta_plan(live, *plan, ids, *schemas));
        law_maintainable_plans_compile(*plan, ids, *schemas);
    }
    Ok(live)
}

/// How a subscription is kept.
pub struct GraphqlLivePlan {
    pub descriptor: LivePlanDescriptor,
    pub bindings: Vec<(TableId, String)>,
    pub delta: Option<GraphqlDeltaPlan>,
}

/// What a subscription selects, as far as it decides how it is kept.
pub struct GraphqlRootPlan {
    /// The table of the root rows.
    pub table: String,
    /// The schemas of the tables of the plan.
    pub schemas: SchemaCatalog,
    /// The tables of the plan of the root rows.
    pub plan_tables: Vec<String>,
    /// The tables that the whole selection reads.
    pub dependency_tables: Vec<String>,
    /// The plan of the root rows.
    pub plan: PhysicalPlan,
}

/// Why a subscription cannot be kept: tables without identifiers first, those of the selection
/// before those of the root rows, then a missing table.
pub open spec fn live_plan_error(
    field: RootFieldInfo,
    root: GraphqlRootPlan,
    ids: Map<Seq<char>, TableId>,
) -> Option<DatabaseErrorView> {
    let root_tables = context_tables(names_view(root.plan_tables@), root.table@);
    match first_unknown(names_view(root.dependency_tables@), ids) {
        Some(table) => Some(DatabaseErrorView::TableIdNotFound(table)),
        None => match first_unknown(root_tables, ids) {
            Some(table) => Some(DatabaseErrorView::TableIdNotFound(table)),
            None => if field.delta_capable && root.schemas.lookup(root.table@) is None {
                Some(DatabaseErrorView::TableNotFound(root.table@))
            } else {
                None
            },
        },
    }
}

/// Decides how a subscription is kept: by following changes if its field and its plan allow that,
/// else by running it anew.
pub fn compile_graphql_live_plan(
    table_ids: &TableIdMap,
    field: RootFieldInfo,
    root: GraphqlRootPlan,
) -> (result: Result<GraphqlLivePlan, DatabaseError>)
    ensures
        match live_plan_error(field, root, table_ids@) {
            Some(error) => result matches Err(reason) && reason@ == error,
            None => result matches Ok(live) && {
                &&& binds(
                    named_ids(live.bindings@),
                    names_view(root.dependency_tables@),
                    table_ids@,
                )
                &&& depends(
                    live.descriptor.dependencies,
                    named_ids(live.bindings@),
                    ids_of_tables(
                        context_tables(names_view(root.plan_tables@), root.table@),
                        table_ids@,
                    ),
                )
                &&& live.descriptor.engine == crate::live_registry::engine_for(
                    live.descriptor.output,
                )
                &&& live.descriptor.output == (if live.delta is Some {
                    LiveOutputKind::GraphqlDelta
                } else {
                    LiveOutputKind::GraphqlSnapshot
                })
                &&& live.delta is Some <==> field.delta_capable && maintainable(
                    root.plan,
                    root.schemas,
                )
                &&& field.delta_capable ==> delta_outcome(
                    live.delta,
                    root.plan,
                    table_ids@,
                    root.schemas,
                )
            },
        },
{
    let bindings = match build_graphql_dependency_bindings(
        table_ids,
        root.dependency_tables.as_slice(),
    ) {
        Ok(bindings) => bindings,
        Err(error) => {
            return Err(error);
        },
    };
    let ghost listed = names_view(root.plan_tables@);
    let mut root_tables = clone_names(root.plan_tables.as_slice());
    let known = find_name(root.plan_tables.as_slice(), root.table.as_str());
    proof {
        lemma_first_position(listed, root.table@);
        if known is Some {
            assert(listed[known->0 as int] == root.table@);
            assert(listed.contains(root.table@));
        } else {
            assert(!listed.contains(root.table@));
        }
    }
    if known.is_none() {
        root_tables.push(root.table.clone());
        assert(names_view(root_tables@) =~= listed.push(root.table@));
    }
    let dependencies = match build_graphql_dependency_set(
        table_ids,
        bindings.as_slice(),
        root_tables.as_slice(),
    ) {
        Ok(dependencies) => dependencies,
        Err(error) => {
            return Err(error);
        },
    };
    let delta = if field.delta_capable {
        match build_graphql_delta_live_plan(
            table_ids,
            root.table.as_str(),
            &root.schemas,
            &root.plan,
        ) {
            Ok(delta) => delta,
            Err(error) => {
                return Err(error);
            },
        }
    } else {
        None
    };
    let output = if delta.is_some() {
        LiveOutputKind::GraphqlDelta
    } else {
        LiveOutputKind::GraphqlSnapshot
    };
    Ok(
        GraphqlLivePlan {
            descriptor: LivePlanDescriptor::new(output, dependencies),
            bindings,
            delta,
        },
    )
}

/// A change of a row by a GraphQL mutation.
#[derive(Debug)]
pub enum RowChange {
    Insert(Row),
    Update { old_row: Row, new_row: Row },
    Delete(Row),
}

/// A change of a row by a GraphQL mutation.
pub enum RowChangeView {
    Insert(RowView),
    Update { old_row: RowView, new_row: RowView },
    Delete(RowView),
}

impl View for RowChange {
    type V = RowChangeView;

    open spec fn view(&self) -> RowChangeView {
        match self {
            RowChange::Insert(row) => RowChangeView::Insert(row@),
            RowChange::Update { old_row, new_row } => RowChangeView::Update {
                old_row: old_row@,
                new_row: new_row@,
            },
            RowChange::Delete(row) => RowChangeView::Delete(row@),
        }
    }
}

/// Changes of the rows of a table.
#[derive(Debug)]
pub struct TableChange {
    pub table_name: String,
    pub row_changes: Vec<RowChange>,
}

/// The rows that a change adds and drops.
pub open spec fn change_deltas(change: RowChangeView) -> Seq<DeltaView> {
    match change {
        RowChangeView::Insert(row) => seq![DeltaView { row, diff: 1 }],
        RowChangeView::Update { old_row, new_row } => seq![
            DeltaView { row: old_row, diff: (-1) as i32 },
            DeltaView { row: new_row, diff: 1 },
        ],
        RowChangeView::Delete(row) => seq![DeltaView { row, diff: (-1) as i32 }],
    }
}

/// The identifier of a changed row.
pub open spec fn changed_id(change: RowChangeView) -> u64 {
    match change {
        RowChangeView::Insert(row) => row.id,
        RowChangeView::Update { old_row, .. } => old_row.id,
        RowChangeView::Delete(row) => row.id,
    }
}

/// The rows that changes add and drop, in order.
pub open spec fn all_deltas(changes: Seq<RowChange>) -> Seq<DeltaView>
    decreases changes.len(),
{
    if changes.len() == 0 {
        Seq::empty()
    } else {
        all_deltas(changes.drop_last()) + change_deltas(changes.last()@)
    }
}

/// The identifiers of changed rows.
pub open spec fn all_changed(changes: Seq<RowChange>) -> Set<u64>
    decreases changes.len(),
{
    if changes.len() == 0 {
        Set::empty()
    } else {
        all_changed(changes.drop_last()).insert(changed_id(changes.last()@))
    }
}

/// The rows of a table that were added and dropped, and the identifiers of its changed rows.
pub type TableNotice = (Seq<DeltaView>, Set<u64>);

/// What changes say of a table.
pub open spec fn notice_of(changes: Seq<TableChange>, table: Seq<char>) -> TableNotice
    decreases changes.len(),
{
    if changes.len() == 0 {
        (Seq::empty(), Set::empty())
    } else {
        let (deltas, ids) = notice_of(changes.drop_last(), table);
        let last = changes.last();
        if last.table_name@ == table {
            (
                deltas + all_deltas(last.row_changes@),
                ids.union(all_changed(last.row_changes@)),
            )
        } else {
            (deltas, ids)
        }
    }
}

/// The tables of changes, in the order in which they first occur.
pub open spec fn changed_tables(changes: Seq<TableChange>) -> Seq<Seq<char>>
    decreases changes.len(),
{
    if changes.len() == 0 {
        Seq::empty()
    } else {
        let front = changed_tables(changes.drop_last());
        if front.contains(changes.last().table_name@) {
            front
        } else {
            front.push(changes.last().table_name@)
        }
    }
}

/// The live queries after they were told what changes say of tables. Tables without an identifier
/// have no live queries.
pub open spec fn notified(
    live: LiveView,
    changes: Seq<TableChange>,
    tables: Seq<Seq<char>>,
    ids: Map<Seq<char>, TableId>,
) -> LiveView
    decreases tables.len(),
{
    if tables.len() == 0 {
        live
    } else {
        let before = notified(live, changes, tables.drop_last(), ids);
        let table = tables.last();
        if ids.dom().contains(table) {
            let (deltas, rows) = notice_of(changes, table);
            before.with_deltas(ids[table] as u64, deltas).with_changes(ids[table] as u64, rows)
        } else {
            before
        }
    }
}

fn note_row_changes(changes: &[RowChange], deltas: &mut Vec<RowDelta>, ids: &mut RowIdSet)
    ensures
        row_deltas_view(final(deltas)@) == row_deltas_view(old(deltas)@) + all_deltas(changes@),
        final(ids)@ == old(ids)@.union(all_changed(changes@)),
{
    let ghost start = row_deltas_view(deltas@);
    let ghost first = ids@;
    let mut i: usize = 0;
    assert(changes@.take(0) =~= Seq::empty());
    assert(start + Seq::<DeltaView>::empty() =~= start);
    assert(first.union(Set::<u64>::empty()) =~= first);
    while i < changes.len()
        invariant
            i <= changes.len(),
            row_deltas_view(deltas@) == start + all_deltas(changes@.take(i as int)),
            ids@ == first.union(all_changed(changes@.take(i as int))),
        decreases changes.len() - i,
    {
        assert(changes@.take(i + 1).drop_last() =~= changes@.take(i as int));
        assert(changes@.take(i + 1).last() == changes@[i as int]);
        let ghost before = row_deltas_view(deltas@);
        let ghost known = ids@;
        let id = match &changes[i] {
            RowChange::Insert(row) => {
                deltas.push(RowDelta::insert(row.clone()));
                row.id()
            },
            RowChange::Update { old_row, new_row } => {
                deltas.push(RowDelta::delete(old_row.clone()));
                deltas.push(RowDelta::insert(new_row.clone()));
                old_row.id()
            },
            RowChange::Delete(row) => {
                deltas.push(RowDelta::delete(row.clone()));
                row.id()
            },
        };
        assert(row_deltas_view(deltas@) =~= before + change_deltas(changes@[i as int]@));
        ids.insert(id);
        proof {
            assert(id == changed_id(changes@[i as int]@));
            assert(row_deltas_view(deltas@) =~= start + all_deltas(changes@.take(i + 1)));
            assert(ids@ =~= first.union(all_changed(changes@.take(i + 1))));
        }
        i += 1;
    }
    assert(changes@.take(changes@.len() as int) =~= changes@);
}

/// What is gathered of tables.
pub open spec fn notices_view(notices: Map<Seq<char>, (Vec<RowDelta>, RowIdSet)>) -> Map<
    Seq<char>,
    TableNotice,
> {
    notices.map_values(
        |notice: (Vec<RowDelta>, RowIdSet)| (row_deltas_view(notice.0@), notice.1@),
    )
}

/// Gathers what changes say of each table.
fn gather_changes(changes: &[TableChange]) -> (notices: NameTable<(Vec<RowDelta>, RowIdSet)>)
    ensures
        notices.order() == changed_tables(changes@),
        forall|table: Seq<char>| #[trigger]
            notices@.dom().contains(table) ==> notices_view(notices@)[table] == notice_of(
                changes@,
                table,
            ),
{
    let mut notices: NameTable<(Vec<RowDelta>, RowIdSet)> = NameTable::new();
    let mut i: usize = 0;
    assert(changes@.take(0) =~= Seq::empty());
    while i < changes.len()
        invariant
            i <= changes.len(),
            notices.order() == changed_tables(changes@.take(i as int)),
            forall|table: Seq<char>| #[trigger]
                notices@.dom().contains(table) ==> notices_view(notices@)[table] == notice_of(
                    changes@.take(i as int),
                    table,
                ),
            forall|table: Seq<char>|
                !(#[trigger] notices@.dom().contains(table)) ==> notice_of(
                    changes@.take(i as int),
                    table,
                ) == (Seq::<DeltaView>::empty(), Set::<u64>::empty()),
        decreases changes.len() - i,
    {
        let ghost order = notices.order();
        let ghost given = notices@;
        let ghost name = changes@[i as int].table_name@;
        let known = notices.len();
        proof {
            assert(known == order.len());
            assert(changes@.take(i + 1).drop_last() =~= changes@.take(i as int));
            assert(changes@.take(i + 1).last() == changes@[i as int]);
            assert(order.contains(name) <==> order.to_set().contains(name));
        }
        let table = &changes[i].table_name;
        let taken = notices.replace(table.as_str(), (Vec::new(), RowIdSet::new()));
        let (mut deltas, mut ids) = match taken {
            Some(notice) => notice,
            None => (Vec::new(), RowIdSet::new()),
        };
        let ghost start = (row_deltas_view(deltas@), ids@);
        proof {
            if given.dom().contains(name) {
                assert(notices_view(given)[name] == start);
            } else {
                assert(start.0 =~= Seq::<DeltaView>::empty());
            }
            assert(start == notice_of(changes@.take(i as int), name));
        }
        note_row_changes(changes[i].row_changes.as_slice(), &mut deltas, &mut ids);
        let ghost finish = (row_deltas_view(deltas@), ids@);
        assert(finish == notice_of(changes@.take(i + 1), name));
        notices.insert(table.clone(), (deltas, ids));
        proof {
            assert(notices@.dom() =~= given.dom().insert(name));
            assert forall|other: Seq<char>| #[trigger]
                notices@.dom().contains(other) implies notices_view(notices@)[other] == notice_of(
                changes@.take(i + 1),
                other,
            ) by {
                if other != name {
                    assert(given.dom().contains(other));
                    assert(notices@[other] == given[other]);
                    assert(notices_view(given)[other] == notices_view(notices@)[other]);
                }
            }
            assert forall|other: Seq<char>|
                !(#[trigger] notices@.dom().contains(other)) implies notice_of(
                changes@.take(i + 1),
                other,
            ) == (Seq::<DeltaView>::empty(), Set::<u64>::empty()) by {
                assert(!given.dom().contains(other));
            }
        }
        i += 1;
    }
    assert(changes@.take(changes@.len() as int) =~= changes@);
    notices
}

/// Tells the live queries of the changes that a GraphQL mutation made: once for each table.
pub fn notify_graphql_changes(
    registry: &mut LiveRegistry,
    table_ids: &TableIdMap,
    changes: &[TableChange],
)
    ensures
        final(registry)@ == notified(
            old(registry)@,
            changes@,
            changed_tables(changes@),
            table_ids@,
        ),
{
    let ghost live = registry@;
    let mut notices = gather_changes(changes);
    let ghost order = notices.order();
    let ghost given = notices@;
    let count = notices.len();
    let mut names: Vec<String> = Vec::new();
    let mut k: usize = 0;
    while k < count
        invariant
            k <= count,
            count == order.len(),
            order == notices.order(),
            notices@ == given,
            names_view(names@) == order.take(k as int),
        decreases count - k,
    {
        let ghost before = names_view(names@);
        names.push(notices.key_at(k).clone());
        assert(names_view(names@) =~= before.push(order[k as int]));
        assert(order.take(k + 1) =~= order.take(k as int).push(order[k as int]));
        k += 1;
    }
    let mut i: usize = 0;
    assert(order.take(0) =~= Seq::empty());
    assert(order.take(order.len() as int) =~= order);
    while i < names.len()
        invariant
            i <= names.len(),
            names_view(names@) == order,
            order.no_duplicates(),
            order.to_set() == given.dom(),
            forall|table: Seq<char>| #[trigger]
                given.dom().contains(table) ==> notices_view(given)[table] == notice_of(
                    changes@,
                    table,
                ),
            forall|table: Seq<char>| #[trigger]
                notices@.dom().contains(table) <==> given.dom().contains(table) && !order.take(
                    i as int,
                ).contains(table),
            forall|table: Seq<char>| #[trigger]
                notices@.dom().contains(table) ==> notices@[table] == given[table],
            registry@ == notified(live, changes@, order.take(i as int), table_ids@),
        decreases names.len() - i,
    {
        let ghost shorter = order.take(i as int);
        let ghost longer = order.take(i + 1);
        let ghost name = order[i as int];
        proof {
            assert(names_view(names@)[i as int] == names@[i as int]@);
            assert(longer.drop_last() =~= shorter);
            assert(longer.last() == name);
            assert(order.to_set().contains(order[i as int]));
            assert(!shorter.contains(name)) by {
                if shorter.contains(name) {
                    let m = choose|m: int| 0 <= m < shorter.len() && shorter[m] == name;
                    assert(order[m] == order[i as int]);
                }
            }
            lemma_pushed_tables(shorter, name);
            assert(longer =~= shorter.push(name));
        }
        match notices.remove(names[i].as_str()) {
            Some((deltas, ids)) => {
                assert(notices_view(given)[name] == (row_deltas_view(deltas@), ids@));
                match table_ids.get(names[i].as_str()) {
                    Some(id) => {
                        let _ = registry.on_table_change_delta(id, deltas, &ids);
                    },
                    None => {},
                }
            },
            None => {},
        }
        i += 1;
    }
}

/// How often a change adds a row, less how often it drops it.
pub open spec fn change_count(change: RowChangeView, row: RowView) -> int {
    match change {
        RowChangeView::Insert(added) => if added == row {
            1int
        } else {
            0
        },
        RowChangeView::Update { old_row, new_row } => (if new_row == row {
            1int
        } else {
            0
        }) - (if old_row == row {
            1int
        } else {
            0
        }),
        RowChangeView::Delete(dropped) => if dropped == row {
            -1int
        } else {
            0
        },
    }
}

/// How often changes add a row, less how often they drop it.
pub open spec fn changes_count(changes: Seq<RowChange>, row: RowView) -> int
    decreases changes.len(),
{
    if changes.len() == 0 {
        0
    } else {
        changes_count(changes.drop_last(), row) + change_count(changes.last()@, row)
    }
}

/// How often changes of a table add a row, less how often they drop it.
pub open spec fn table_count(changes: Seq<TableChange>, table: Seq<char>, row: RowView) -> int
    decreases changes.len(),
{
    if changes.len() == 0 {
        0
    } else {
        table_count(changes.drop_last(), table, row) + (if changes.last().table_name@ == table {
            changes_count(changes.last().row_changes@, row)
        } else {
            0
        })
    }
}

proof fn lemma_net_count_joins(left: Seq<DeltaView>, right: Seq<DeltaView>, row: RowView)
    ensures
        net_count(left + right, row) == net_count(left, row) + net_count(right, row),
    decreases right.len(),
{
    if right.len() == 0 {
        assert(left + right =~= left);
    } else {
        assert((left + right).drop_last() =~= left + right.drop_last());
        assert((left + right).last() == right.last());
        lemma_net_count_joins(left, right.drop_last(), row);
    }
}

proof fn lemma_change_deltas(change: RowChangeView, row: RowView)
    ensures
        net_count(change_deltas(change), row) == change_count(change, row),
{
    let deltas = change_deltas(change);
    match change {
        RowChangeView::Update { old_row, new_row } => {
            let first = seq![DeltaView { row: old_row, diff: (-1) as i32 }];
            assert(deltas.drop_last() =~= first);
            assert(first.drop_last() =~= Seq::empty());
            assert(net_count(first.drop_last(), row) == 0);
            assert(net_count(first, row) == if old_row == row {
                -1int
            } else {
                0
            });
        },
        _ => {
            assert(deltas.drop_last() =~= Seq::empty());
            assert(net_count(deltas.drop_last(), row) == 0);
        },
    }
}

proof fn lemma_all_deltas(changes: Seq<RowChange>, row: RowView)
    ensures
        net_count(all_deltas(changes), row) == changes_count(changes, row),
    decreases changes.len(),
{
    if changes.len() > 0 {
        lemma_all_deltas(changes.drop_last(), row);
        lemma_change_deltas(changes.last()@, row);
        lemma_net_count_joins(
            all_deltas(changes.drop_last()),
            change_deltas(changes.last()@),
            row,
        );
    }
}

proof fn lemma_all_changed(changes: Seq<RowChange>, id: u64)
    ensures
        all_changed(changes).contains(id) <==> exists|i: int|
            0 <= i < changes.len() && changed_id((#[trigger] changes[i])@) == id,
    decreases changes.len(),
{
    if changes.len() > 0 {
        let front = changes.drop_last();
        let last = changes.len() - 1;
        lemma_all_changed(front, id);
        assert(forall|i: int| 0 <= i < last ==> front[i] == changes[i]);
        assert(changes[last] == changes.last());
        if all_changed(front).contains(id) {
            let i = choose|i: int|
                0 <= i < front.len() && changed_id((#[trigger] front[i])@) == id;
            assert(changed_id(changes[i]@) == id);
        }
        if exists|i: int| 0 <= i < changes.len() && changed_id((#[trigger] changes[i])@) == id {
            let i = choose|i: int|
                0 <= i < changes.len() && changed_id((#[trigger] changes[i])@) == id;
            if i < last {
                assert(changed_id(front[i]@) == id);
            }
        }
    }
}

/// What live queries are told of a table turns its rows before the changes into its rows after them:
/// an insertion adds its row, a deletion drops it, and an update drops the old row and adds the new
/// one. Changes of other tables do not count.
pub proof fn law_notices_turn_old_rows_into_new(
    changes: Seq<TableChange>,
    table: Seq<char>,
    row: RowView,
)
    ensures
        net_count(notice_of(changes, table).0, row) == table_count(changes, table, row),
    decreases changes.len(),
{
    if changes.len() > 0 {
        law_notices_turn_old_rows_into_new(changes.drop_last(), table, row);
        lemma_all_deltas(changes.last().row_changes@, row);
        lemma_net_count_joins(
            notice_of(changes.drop_last(), table).0,
            all_deltas(changes.last().row_changes@),
            row,
        );
    }
}

/// Live queries are told the identifiers of just the rows that some change of their table added,
/// dropped or replaced.
pub proof fn law_notices_name_the_changed_rows(
    changes: Seq<TableChange>,
    table: Seq<char>,
    id: u64,
)
    ensures
        notice_of(changes, table).1.contains(id) <==> exists|i: int, j: int|
            #![trigger changes[i].row_changes@[j]]
            0 <= i < changes.len() && changes[i].table_name@ == table && 0 <= j
                < changes[i].row_changes@.len() && changed_id(changes[i].row_changes@[j]@) == id,
        changed_tables(changes).no_duplicates(),
        changed_tables(changes).contains(table) <==> exists|i: int|
            0 <= i < changes.len() && (#[trigger] changes[i]).table_name@ == table,
    decreases changes.len(),
{
    if changes.len() > 0 {
        let front = changes.drop_last();
        let last = changes.len() - 1;
        law_notices_name_the_changed_rows(front, table, id);
        lemma_all_changed(changes.last().row_changes@, id);
        assert(forall|i: int| 0 <= i < last ==> front[i] == changes[i]);
        assert(changes[last] == changes.last());
        let before = changed_tables(front);
        let all = changed_tables(changes);
        if notice_of(front, table).1.contains(id) {
            let (i, j) = choose|i: int, j: int|
                #![trigger front[i].row_changes@[j]]
                0 <= i < front.len() && front[i].table_name@ == table && 0 <= j
                    < front[i].row_changes@.len() && changed_id(front[i].row_changes@[j]@) == id;
            assert(changed_id(changes[i].row_changes@[j]@) == id);
        }
        if all_changed(changes.last().row_changes@).contains(id) {
            let j = choose|j: int|
                0 <= j < changes.last().row_changes@.len() && changed_id(
                    (#[trigger] changes.last().row_changes@[j])@,
                ) == id;
            assert(changed_id(changes[last].row_changes@[j]@) == id);
        }
        if exists|i: int, j: int|
            #![trigger changes[i].row_changes@[j]]
            0 <= i < changes.len() && changes[i].table_name@ == table && 0 <= j
                < changes[i].row_changes@.len() && changed_id(changes[i].row_changes@[j]@) == id {
            let (i, j) = choose|i: int, j: int|
                #![trigger changes[i].row_changes@[j]]
                0 <= i < changes.len() && changes[i].table_name@ == table && 0 <= j
                    < changes[i].row_changes@.len() && changed_id(changes[i].row_changes@[j]@)
                    == id;
            if i < last {
                assert(changed_id(front[i].row_changes@[j]@) == id);
            }
        }
        if before.contains(table) {
            assert(all[before.index_of(table)] == table);
            let i = choose|i: int| 0 <= i < front.len() && (#[trigger] front[i]).table_name@ == table;
            assert(changes[i].table_name@ == table);
        }
        if !before.contains(changes.last().table_name@) {
            assert(all[before.len() as int] == changes.last().table_name@);
        }
        if all.contains(table) && !before.contains(table) {
            let k = all.index_of(table);
            if k < before.len() {
                assert(before[k] == table);
            }
            assert(changes[last].table_name@ == table);
        }
        if exists|i: int| 0 <= i < changes.len() && (#[trigger] changes[i]).table_name@ == table {
            let i = choose|i: int|
                0 <= i < changes.len() && (#[trigger] changes[i]).table_name@ == table;
            if i < last {
                assert(front[i].table_name@ == table);
            }
        }
    }
}

/// Live queries wait with what they were told of every table that has an identifier, behind what
/// they waited with before, and are told nothing of other tables.
pub proof fn law_queries_hear_of_every_known_table(
    live: LiveView,
    changes: Seq<TableChange>,
    tables: Seq<Seq<char>>,
    ids: Map<Seq<char>, TableId>,
    table: Seq<char>,
)
    requires
        tables.no_duplicates(),
        ids.dom().contains(table),
        forall|left: Seq<char>, right: Seq<char>|
            #![trigger ids[left], ids[right]]
            ids.dom().contains(left) && ids.dom().contains(right) && left != right ==> ids[left]
                != ids[right],
    ensures
        ({
            let after = notified(live, changes, tables, ids);
            let key = ids[table] as u64;
            let (deltas, rows) = notice_of(changes, table);
            &&& tables.contains(table) ==> {
                &&& changed_rows(after.pending_changes, key) == changed_rows(
                    live.pending_changes,
                    key,
                ).union(rows)
                &&& delta_rows(after.pending_deltas, key) == delta_rows(live.pending_deltas, key)
                    + deltas
                &&& after.flush_scheduled
            }
            &&& !tables.contains(table) ==> {
                &&& changed_rows(after.pending_changes, key) == changed_rows(
                    live.pending_changes,
                    key,
                )
                &&& delta_rows(after.pending_deltas, key) == delta_rows(live.pending_deltas, key)
            }
            &&& live.flush_scheduled ==> after.flush_scheduled
            &&& after.snapshot_queries == live.snapshot_queries
            &&& after.delta_queries == live.delta_queries
        }),
    decreases tables.len(),
{
    if tables.len() > 0 {
        let front = tables.drop_last();
        let last = tables.last();
        law_queries_hear_of_every_known_table(live, changes, front, ids, table);
        if front.contains(table) {
            assert(tables[front.index_of(table)] == table);
            if table == last {
                assert(tables[front.index_of(table)] == tables[tables.len() - 1]);
            }
        }
        if tables.contains(table) && table != last {
            assert(front[tables.index_of(table)] == table);
        }
        assert(tables[tables.len() - 1] == last);
        let before = notified(live, changes, front, ids);
        let after = notified(live, changes, tables, ids);
        let key = ids[table] as u64;
        if table == last {
            let (deltas, rows) = notice_of(changes, table);
            assert(delta_rows(after.pending_deltas, key) =~= delta_rows(before.pending_deltas, key)
                + deltas);
            assert(changed_rows(after.pending_changes, key) =~= changed_rows(
                before.pending_changes,
                key,
            ).union(rows));
        } else if ids.dom().contains(last) {
            assert(ids[last] != ids[table]);
        }
    }
}

/// Of tables that have no identifier the first one is refused; if all have one, each is looked up
/// in order.
pub proof fn law_first_unknown_table_is_refused(
    tables: Seq<Seq<char>>,
    ids: Map<Seq<char>, TableId>,
    at: int,
)
    ensures
        first_unknown(tables, ids) is None <==> (forall|i: int|
            0 <= i < tables.len() ==> ids.dom().contains(#[trigger] tables[i])),
        0 <= at < tables.len() && !ids.dom().contains(tables[at]) && (forall|earlier: int|
            0 <= earlier < at ==> ids.dom().contains(#[trigger] tables[earlier])) ==> first_unknown(
            tables,
            ids,
        ) == Some(tables[at]),
        ids_of_tables(tables, ids).len() == tables.len(),
        0 <= at < tables.len() ==> ids_of_tables(tables, ids)[at] == ids[tables[at]],
    decreases tables.len(),
{
    if tables.len() > 0 {
        let front = tables.drop_last();
        let last = tables.len() - 1;
        law_first_unknown_table_is_refused(front, ids, at);
        assert(forall|i: int| 0 <= i < last ==> front[i] == tables[i]);
        assert(tables[last] == tables.last());
        if first_unknown(front, ids) is None {
            assert forall|i: int| 0 <= i < last implies ids.dom().contains(#[trigger] tables[i]) by {
                assert(ids.dom().contains(front[i]));
            }
        } else {
            let i = choose|i: int| 0 <= i < front.len() && !ids.dom().contains(#[trigger] front[i]);
            assert(!ids.dom().contains(tables[i]));
        }
    }
}

} // verus!
