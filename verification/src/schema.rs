//! Table schemas.
use vstd::prelude::*;

use crate::collections::NameMap;
use crate::text::{first_position, lemma_first_position, same_text};

verus! {

/// Identifies a table.
pub type TableId = u32;

/// The types that a column can have.
#[derive(Clone, Copy, Debug, PartialEq, Eq, Structural)]
pub enum DataType {
    Boolean,
    Int32,
    Int64,
    Float64,
    String,
    DateTime,
    Bytes,
    Jsonb,
}

/// The kinds of secondary indexes.
#[derive(Clone, Copy, Debug, PartialEq, Eq, Structural)]
pub enum IndexType {
    Hash,
    BTree,
    Gin,
}

/// A column of a table. Its position in the table is its index.
#[derive(Debug)]
pub struct Column {
    pub name: String,
    pub data_type: DataType,
    pub nullable: bool,
}

/// An index of a table.
#[derive(Debug)]
pub struct IndexDef {
    pub name: String,
    pub normalized_name: String,
    pub columns: Vec<String>,
    pub index_type: IndexType,
    pub unique: bool,
    /// The paths that an index on documents is limited to.
    pub gin_paths: Option<Vec<String>>,
}

/// A table schema.
#[derive(Debug)]
pub struct Table {
    pub name: String,
    pub columns: Vec<Column>,
    pub indices: Vec<IndexDef>,
    pub primary_key: Option<IndexDef>,
}

/// The names of the columns, by position.
pub open spec fn column_names(columns: Seq<Column>) -> Seq<Seq<char>> {
    columns.map_values(|column: Column| column.name@)
}

/// The names of the indexes.
pub open spec fn index_names(indices: Seq<IndexDef>) -> Seq<Seq<char>> {
    indices.map_values(|index: IndexDef| index.name@)
}

/// The normalized names of the indexes.
pub open spec fn normalized_index_names(indices: Seq<IndexDef>) -> Seq<Seq<char>> {
    indices.map_values(|index: IndexDef| index.normalized_name@)
}

impl Table {
    /// The position of the named column.
    pub open spec fn column_position(&self, name: Seq<char>) -> Option<int> {
        first_position(column_names(self.columns@), name)
    }

    /// The index that a name stands for: one of that name, or one of that normalized name, or
    /// the primary key if it has either.
    pub open spec fn index_named(&self, index_name: Seq<char>) -> Option<IndexDef> {
        match first_position(index_names(self.indices@), index_name) {
            Some(at) => Some(self.indices@[at]),
            None => match first_position(normalized_index_names(self.indices@), index_name) {
                Some(at) => Some(self.indices@[at]),
                None => match self.primary_key {
                    Some(key) => if key.name@ == index_name || key.normalized_name@
                        == index_name {
                        Some(key)
                    } else {
                        None
                    },
                    None => None,
                },
            },
        }
    }

    /// Finds the position of the named column.
    pub fn get_column_index(&self, name: &str) -> (found: Option<usize>)
        ensures
            match self.column_position(name@) {
                Some(at) => found == Some(at as usize) && 0 <= at < self.columns.len(),
                None => found is None,
            },
    {
        let ghost names = column_names(self.columns@);
        let mut i: usize = 0;
        while i < self.columns.len()
            invariant
                i <= self.columns.len(),
                names == column_names(self.columns@),
                forall|j: int| 0 <= j < i ==> names[j] != name@,
            decreases self.columns.len() - i,
        {
            if same_text(self.columns[i].name.as_str(), name) {
                proof {
                    lemma_first_position(names, name@);
                    assert(names[i as int] == name@);
                }
                return Some(i);
            }
            i += 1;
        }
        proof {
            lemma_first_position(names, name@);
        }
        None
    }

    /// Finds the index that a name stands for.
    pub fn find_index(&self, index_name: &str) -> (found: Option<&IndexDef>)
        ensures
            match self.index_named(index_name@) {
                Some(index) => found == Some(&index),
                None => found is None,
            },
    {
        let ghost names = index_names(self.indices@);
        let ghost normalized = normalized_index_names(self.indices@);
        proof {
            lemma_first_position(names, index_name@);
            lemma_first_position(normalized, index_name@);
        }
        let mut i: usize = 0;
        while i < self.indices.len()
            invariant
                i <= self.indices.len(),
                names == index_names(self.indices@),
                forall|j: int| 0 <= j < i ==> names[j] != index_name@,
            decreases self.indices.len() - i,
        {
            if same_text(self.indices[i].name.as_str(), index_name) {
                proof {
                    lemma_first_position(names, index_name@);
                    assert(names[i as int] == index_name@);
                }
                return Some(&self.indices[i]);
            }
            i += 1;
        }
        let mut k: usize = 0;
        while k < self.indices.len()
            invariant
                k <= self.indices.len(),
                names == index_names(self.indices@),
                first_position(names, index_name@) is None,
                normalized == normalized_index_names(self.indices@),
                forall|j: int| 0 <= j < k ==> normalized[j] != index_name@,
            decreases self.indices.len() - k,
        {
            if same_text(self.indices[k].normalized_name.as_str(), index_name) {
                proof {
                    lemma_first_position(normalized, index_name@);
                    assert(normalized[k as int] == index_name@);
                }
                return Some(&self.indices[k]);
            }
            k += 1;
        }
        match &self.primary_key {
            Some(key) => {
                if same_text(key.name.as_str(), index_name) || same_text(
                    key.normalized_name.as_str(),
                    index_name,
                ) {
                    Some(key)
                } else {
                    None
                }
            },
            None => None,
        }
    }
}

/// A map from table names to table identifiers.
pub struct TableIdMap {
    names: NameMap,
}

impl View for TableIdMap {
    type V = Map<Seq<char>, TableId>;

    closed spec fn view(&self) -> Map<Seq<char>, TableId> {
        self.names@.map_values(|id: u64| id as TableId)
    }
}

impl TableIdMap {
    /// A map without tables.
    pub fn new() -> (result: Self)
        ensures
            result@ == Map::<Seq<char>, TableId>::empty(),
    {
        let result = TableIdMap { names: NameMap::new() };
        assert(result@ =~= Map::<Seq<char>, TableId>::empty());
        result
    }

    /// Gives a table its identifier.
    pub fn insert(&mut self, table: String, id: TableId)
        ensures
            final(self)@ == old(self)@.insert(table@, id),
    {
        self.names.insert(table, id as u64);
        assert(self@ =~= old(self)@.insert(table@, id));
    }

    /// Forgets a table.
    pub fn remove(&mut self, table: &str)
        ensures
            final(self)@ == old(self)@.remove(table@),
    {
        self.names.remove(table);
        assert(self@ =~= old(self)@.remove(table@));
    }

    /// The identifier of the named table.
    pub fn get(&self, table: &str) -> (id: Option<TableId>)
        ensures
            id == (if self@.dom().contains(table@) {
                Some(self@[table@])
            } else {
                None
            }),
    {
        match self.names.get(table) {
            Some(id) => Some(id as TableId),
            None => None,
        }
    }

    /// The largest identifier in use, or zero.
    pub fn max_id(&self) -> (result: TableId)
        ensures
            forall|table: Seq<char>| #[trigger]
                self@.dom().contains(table) ==> self@[table] <= result,
            result == 0 || exists|table: Seq<char>| #[trigger]
                self@.dom().contains(table) && self@[table] == result,
    {
        let values = self.names.values();
        let mut result: TableId = 0;
        let mut i: usize = 0;
        while i < values.len()
            invariant
                i <= values.len(),
                forall|j: int| 0 <= j < i ==> (#[trigger] values@[j]) as TableId <= result,
                result == 0 || exists|j: int|
                    0 <= j < i && (#[trigger] values@[j]) as TableId == result,
            decreases values.len() - i,
        {
            let id = values[i] as TableId;
            if id > result {
                result = id;
            }
            i += 1;
        }
        proof {
            assert forall|table: Seq<char>| #[trigger]
                self@.dom().contains(table) implies self@[table] <= result by {
                let raw = self.names@[table];
                assert(self.names@.dom().contains(table));
                assert(self.names@.values().contains(raw));
                assert(values@.to_set().contains(raw));
                let j = choose|j: int| 0 <= j < values.len() && values@[j] == raw;
                assert(values@[j] as TableId <= result);
            }
            if result != 0 {
                let j = choose|j: int|
                    0 <= j < values.len() && (#[trigger] values@[j]) as TableId == result;
                assert(values@.to_set().contains(values@[j]));
                assert(self.names@.values().contains(values@[j]));
                let table = choose|table: Seq<char>| #[trigger]
                    self.names@.dom().contains(table) && self.names@[table] == values@[j];
                assert(self@.dom().contains(table) && self@[table] == result);
            }
        }
        result
    }
}

/// Schemas of tables, by table name.
pub struct SchemaCatalog {
    slots: NameMap,
    tables: Vec<Table>,
}

impl SchemaCatalog {
    /// The schema stored under a name.
    pub closed spec fn lookup(&self, name: Seq<char>) -> Option<Table> {
        if self.slots@.dom().contains(name) && self.slots@[name] < self.tables@.len() {
            Some(self.tables@[self.slots@[name] as int])
        } else {
            None
        }
    }

    /// Every name stands for a stored schema.
    pub closed spec fn well_formed(&self) -> bool {
        forall|name: Seq<char>| #[trigger]
            self.slots@.dom().contains(name) ==> self.slots@[name] < self.tables@.len()
    }

    /// A catalog without schemas.
    pub fn new() -> (result: Self)
        ensures
            result.well_formed(),
            forall|name: Seq<char>| result.lookup(name) is None,
    {
        SchemaCatalog { slots: NameMap::new(), tables: Vec::new() }
    }

    /// Stores a schema in place of one with the same name.
    pub fn insert(&mut self, name: String, table: Table)
        requires
            old(self).well_formed(),
        ensures
            final(self).well_formed(),
            final(self).lookup(name@) == Some(table),
            forall|other: Seq<char>| other != name@ ==> #[trigger] final(self).lookup(other)
                == old(self).lookup(other),
    {
        let slot = self.tables.len() as u64;
        self.tables.push(table);
        self.slots.insert(name, slot);
    }

    /// The schema stored under a name.
    pub fn get(&self, name: &str) -> (found: Option<&Table>)
        ensures
            match self.lookup(name@) {
                Some(table) => found == Some(&table),
                None => found is None,
            },
    {
        match self.slots.get(name) {
            Some(slot) => if slot < self.tables.len() as u64 {
                Some(&self.tables[slot as usize])
            } else {
                None
            },
            None => None,
        }
    }
}

/// An index is found by its name, or else by its normalized name; the primary key is found by either
/// where no index is. What is found has the name that was looked for, and something is found where
/// anything has it.
pub proof fn law_indexes_are_found_by_name(table: Table, name: Seq<char>, at: int)
    ensures
        table.index_named(name) matches Some(index) ==> {
            &&& index.name@ == name || index.normalized_name@ == name
            &&& table.indices@.contains(index) || table.primary_key == Some(index)
        },
        0 <= at < table.indices@.len() && table.indices@[at].name@ == name && (forall|earlier: int|
            0 <= earlier < at ==> (#[trigger] table.indices@[earlier]).name@ != name)
            ==> table.index_named(name) == Some(table.indices@[at]),
        0 <= at < table.indices@.len() && table.indices@[at].normalized_name@ == name && (forall|
            other: int,
        |
            0 <= other < table.indices@.len() ==> (#[trigger] table.indices@[other]).name@ != name)
            && (forall|earlier: int|
            0 <= earlier < at ==> (#[trigger] table.indices@[earlier]).normalized_name@ != name)
            ==> table.index_named(name) == Some(table.indices@[at]),
        (forall|i: int|
            0 <= i < table.indices@.len() ==> (#[trigger] table.indices@[i]).name@ != name
                && table.indices@[i].normalized_name@ != name) ==> {
            &&& table.index_named(name) is Some <==> table.primary_key is Some && (
            table.primary_key->0.name@ == name || table.primary_key->0.normalized_name@ == name)
            &&& table.index_named(name) is Some ==> table.index_named(name) == table.primary_key
        },
{
    let names = index_names(table.indices@);
    let normalized = normalized_index_names(table.indices@);
    lemma_first_position(names, name);
    lemma_first_position(normalized, name);
    assert(forall|i: int|
        0 <= i < table.indices@.len() ==> names[i] == (#[trigger] table.indices@[i]).name@
            && normalized[i] == table.indices@[i].normalized_name@);
    if let Some(found) = first_position(names, name) {
        assert(table.indices@.contains(table.indices@[found]));
        if 0 <= at < found {
            assert(names[at] != name);
        }
        if found < at {
            assert(table.indices@[found].name@ == name);
        }
    } else {
        if 0 <= at < table.indices@.len() {
            assert(names[at] != name);
        }
        if let Some(found) = first_position(normalized, name) {
            assert(table.indices@.contains(table.indices@[found]));
            if 0 <= at < found {
                assert(normalized[at] != name);
            }
            if found < at {
                assert(table.indices@[found].normalized_name@ == name);
            }
            assert(table.indices@[found].normalized_name@ == name);
        } else if 0 <= at < table.indices@.len() {
            assert(normalized[at] != name);
        }
    }
}

} // verus!
