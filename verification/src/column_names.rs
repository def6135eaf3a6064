//! Names of the properties of result rows.
use vstd::prelude::*;

use crate::collections::NameMap;
use crate::schema::{column_names, Table};
use crate::text::{chars_of, names_view, string_of};

verus! {

/// A name without the part up to its first dot.
pub open spec fn simple_name(name: Seq<char>) -> Seq<char> {
    match name.index_of_first('.') {
        Some(at) => name.skip(at + 1),
        None => name,
    }
}

/// A name occurs at another position of a list too.
pub open spec fn is_repeated(names: Seq<Seq<char>>, at: int) -> bool {
    exists|other: int|
        0 <= other < names.len() && other != at && #[trigger] names[other] == names[at]
}

/// The names without the parts up to their first dots.
pub open spec fn simple_names(names: Seq<Seq<char>>) -> Seq<Seq<char>> {
    names.map_values(|name: Seq<char>| simple_name(name))
}

/// The property name of a projected column: the simple name, or the whole name if the simple
/// name is not the only one.
pub open spec fn projected_name(names: Seq<Seq<char>>, at: int) -> Seq<char> {
    if is_repeated(simple_names(names), at) {
        names[at]
    } else {
        simple_name(names[at])
    }
}

/// The property names of projected columns.
pub open spec fn projected_names(names: Seq<Seq<char>>) -> Seq<Seq<char>> {
    Seq::new(names.len(), |at: int| projected_name(names, at))
}

/// Takes off the part of a name up to its first dot.
pub fn without_table(name: &String) -> (result: String)
    ensures
        result@ == simple_name(name@),
{
    let chars = chars_of(name.as_str());
    let mut i: usize = 0;
    while i < chars.len()
        invariant
            i <= chars.len(),
            chars@ == name@,
            forall|j: int| 0 <= j < i ==> chars@[j] != '.',
        decreases chars.len() - i,
    {
        if chars[i] == '.' {
            let mut rest: Vec<char> = Vec::new();
            let mut k = i + 1;
            while k < chars.len()
                invariant
                    i < k <= chars.len(),
                    rest@ == chars@.subrange(i + 1, k as int),
                decreases chars.len() - k,
            {
                rest.push(chars[k]);
                assert(chars@.subrange(i + 1, k + 1) =~= chars@.subrange(i + 1, k as int).push(
                    chars@[k as int],
                ));
                k += 1;
            }
            proof {
                name@.index_of_first_ensures('.');
                assert(name@[i as int] == '.');
                assert(name@.index_of_first('.') == Some(i as int));
                assert(name@.skip(i + 1) =~= rest@);
            }
            return string_of(rest.as_slice());
        }
        i += 1;
    }
    proof {
        name@.index_of_first_ensures('.');
    }
    name.clone()
}

/// Counts the names of a list up to two.
fn count_names(names: &[String]) -> (counts: NameMap)
    ensures
        forall|at: int|
            #![trigger names_view(names@)[at]]
            0 <= at < names@.len() ==> counts@.dom().contains(names_view(names@)[at]) && (
            counts@[names_view(names@)[at]] > 1 <==> is_repeated(names_view(names@), at)),
{
    let ghost views = names_view(names@);
    let mut counts = NameMap::new();
    let mut i: usize = 0;
    while i < names.len()
        invariant
            i <= names.len(),
            views == names_view(names@),
            forall|name: Seq<char>| #[trigger]
                counts@.dom().contains(name) <==> exists|j: int|
                    0 <= j < i && #[trigger] views[j] == name,
            forall|j: int, k: int|
                0 <= j < k < i && #[trigger] views[j] == #[trigger] views[k] ==> counts@[views[j]]
                    > 1,
            forall|name: Seq<char>| #[trigger]
                counts@.dom().contains(name) && counts@[name] > 1 ==> exists|j: int, k: int|
                    0 <= j < k < i && #[trigger] views[j] == name && #[trigger] views[k] == name,
        decreases names.len() - i,
    {
        let ghost before = counts@;
        let ghost name = views[i as int];
        match counts.get(names[i].as_str()) {
            Some(_) => {
                counts.insert(names[i].clone(), 2);
                proof {
                    let j = choose|j: int| 0 <= j < i && #[trigger] views[j] == name;
                    assert(views[j] == name && views[i as int] == name);
                }
            },
            None => {
                counts.insert(names[i].clone(), 1);
            },
        }
        proof {
            assert(counts@.dom() =~= before.dom().insert(name));
            assert forall|other: Seq<char>| #[trigger]
                counts@.dom().contains(other) <==> exists|j: int|
                    0 <= j < i + 1 && #[trigger] views[j] == other by {
                if before.dom().contains(other) {
                    let j = choose|j: int| 0 <= j < i && #[trigger] views[j] == other;
                    assert(views[j] == other);
                }
                if other == name {
                    assert(views[i as int] == other);
                }
                if exists|j: int| 0 <= j < i + 1 && #[trigger] views[j] == other {
                    let j = choose|j: int| 0 <= j < i + 1 && #[trigger] views[j] == other;
                    if j < i {
                        assert(before.dom().contains(other));
                    }
                }
            }
            assert forall|j: int, k: int|
                0 <= j < k < i + 1 && #[trigger] views[j] == #[trigger] views[
                    k] implies counts@[views[j]] > 1 by {
                if k == i {
                    assert(before.dom().contains(name));
                }
            }
            assert forall|other: Seq<char>| #[trigger]
                counts@.dom().contains(other) && counts@[other] > 1 implies exists|
                j: int,
                k: int,
            |
                0 <= j < k < i + 1 && #[trigger] views[j] == other && #[trigger] views[k]
                    == other by {
                if other == name {
                    let j = choose|j: int| 0 <= j < i && #[trigger] views[j] == name;
                    assert(views[j] == name && views[i as int] == name);
                } else {
                    assert(before.dom().contains(other));
                    let (j, k) = choose|j: int, k: int|
                        0 <= j < k < i && #[trigger] views[j] == other && #[trigger] views[k]
                            == other;
                    assert(views[j] == other && views[k] == other);
                }
            }
        }
        i += 1;
    }
    proof {
        assert forall|at: int| #![trigger views[at]] 0 <= at < views.len() implies (
        counts@.dom().contains(views[at]) && (counts@[views[at]] > 1 <==> is_repeated(views, at))) by {
            assert(counts@.dom().contains(views[at]));
            if counts@[views[at]] > 1 {
                let (j, k) = choose|j: int, k: int|
                    0 <= j < k < views.len() && #[trigger] views[j] == views[at]
                        && #[trigger] views[k] == views[at];
                assert(j != at || k != at);
            }
            if is_repeated(views, at) {
                let other = choose|other: int|
                    0 <= other < views.len() && other != at && #[trigger] views[other]
                        == views[at];
                if other < at {
                    assert(views[other] == views[at]);
                } else {
                    assert(views[at] == views[other]);
                }
            }
        }
    }
    counts
}

/// Names the properties of projected columns.
pub fn projected_column_names(names: &[String]) -> (result: Vec<String>)
    ensures
        names_view(result@) == projected_names(names_view(names@)),
{
    let ghost views = names_view(names@);
    let mut simple: Vec<String> = Vec::new();
    let mut i: usize = 0;
    while i < names.len()
        invariant
            i <= names.len(),
            simple.len() == i,
            views == names_view(names@),
            forall|j: int| 0 <= j < i ==> (#[trigger] simple@[j])@ == simple_name(views[j]),
        decreases names.len() - i,
    {
        simple.push(without_table(&names[i]));
        i += 1;
    }
    assert(names_view(simple@) =~= simple_names(views));
    let counts = count_names(simple.as_slice());
    let mut result: Vec<String> = Vec::new();
    let mut k: usize = 0;
    while k < names.len()
        invariant
            k <= names.len(),
            result.len() == k,
            views == names_view(names@),
            simple.len() == names.len(),
            names_view(simple@) == simple_names(views),
            forall|at: int|
                #![trigger names_view(simple@)[at]]
                0 <= at < simple@.len() ==> counts@.dom().contains(names_view(simple@)[at]) && (
                counts@[names_view(simple@)[at]] > 1 <==> is_repeated(names_view(simple@), at)),
            forall|j: int| 0 <= j < k ==> (#[trigger] result@[j])@ == projected_name(views, j),
        decreases names.len() - k,
    {
        assert(names_view(simple@)[k as int] == simple@[k as int]@);
        assert(simple_names(views)[k as int] == simple_name(views[k as int]));
        let repeated = match counts.get(simple[k].as_str()) {
            Some(count) => count > 1,
            None => false,
        };
        if repeated {
            result.push(names[k].clone());
        } else {
            result.push(simple[k].clone());
        }
        k += 1;
    }
    assert(names_view(result@) =~= projected_names(views));
    result
}

/// A column of a joined row: its table and its name.
pub open spec fn joined_columns(schemas: Seq<Table>) -> Seq<(Seq<char>, Seq<char>)>
    decreases schemas.len(),
{
    if schemas.len() == 0 {
        Seq::empty()
    } else {
        joined_columns(schemas.drop_last()) + column_names(schemas.last().columns@).map_values(
            |name: Seq<char>| (schemas.last().name@, name),
        )
    }
}

/// The names of the columns of joined rows, without their tables.
pub open spec fn bare_names(columns: Seq<(Seq<char>, Seq<char>)>) -> Seq<Seq<char>> {
    columns.map_values(|column: (Seq<char>, Seq<char>)| column.1)
}

/// The property name of a column of joined rows: its name, with the table in front if another
/// column has the same name.
pub open spec fn joined_name(columns: Seq<(Seq<char>, Seq<char>)>, at: int) -> Seq<char> {
    if is_repeated(bare_names(columns), at) {
        columns[at].0 + seq!['.'] + columns[at].1
    } else {
        columns[at].1
    }
}

/// The property names of the columns of joined rows.
pub open spec fn joined_names(columns: Seq<(Seq<char>, Seq<char>)>) -> Seq<Seq<char>> {
    Seq::new(columns.len(), |at: int| joined_name(columns, at))
}

/// A table name, a dot and a column name.
fn qualified_name(table: &String, column: &String) -> (result: String)
    ensures
        result@ == table@ + seq!['.'] + column@,
{
    let mut chars = chars_of(table.as_str());
    chars.push('.');
    let mut rest = chars_of(column.as_str());
    chars.append(&mut rest);
    assert(chars@ =~= table@ + seq!['.'] + column@);
    string_of(chars.as_slice())
}

/// Names the properties of joined rows.
pub fn joined_column_names(schemas: &[Table]) -> (result: Vec<String>)
    ensures
        names_view(result@) == joined_names(joined_columns(schemas@)),
{
    let ghost columns = joined_columns(schemas@);
    let mut tables: Vec<String> = Vec::new();
    let mut names: Vec<String> = Vec::new();
    let mut i: usize = 0;
    while i < schemas.len()
        invariant
            i <= schemas.len(),
            tables.len() == names.len(),
            joined_columns(schemas@.take(i as int)).len() == names.len(),
            forall|j: int|
                0 <= j < names.len() ==> joined_columns(schemas@.take(i as int))[j] == (
                    (#[trigger] tables@[j])@,
                    (#[trigger] names@[j])@,
                ),
        decreases schemas.len() - i,
    {
        let ghost front = joined_columns(schemas@.take(i as int));
        assert(schemas@.take(i + 1).drop_last() =~= schemas@.take(i as int));
        assert(schemas@.take(i + 1).last() == schemas@[i as int]);
        let ghost all = joined_columns(schemas@.take(i + 1));
        let mut k: usize = 0;
        while k < schemas[i].columns.len()
            invariant
                i < schemas.len(),
                k <= schemas[i as int].columns.len(),
                tables.len() == names.len(),
                names.len() == front.len() + k,
                all.len() == front.len() + schemas[i as int].columns.len(),
                forall|j: int| 0 <= j < front.len() ==> all[j] == front[j],
                forall|j: int|
                    0 <= j < schemas[i as int].columns.len() ==> #[trigger] all[front.len() + j]
                        == (schemas@[i as int].name@, schemas@[i as int].columns@[j].name@),
                forall|j: int|
                    0 <= j < names.len() ==> all[j] == (
                        (#[trigger] tables@[j])@,
                        (#[trigger] names@[j])@,
                    ),
            decreases schemas[i as int].columns.len() - k,
        {
            assert(all[front.len() + k as int] == (
                schemas@[i as int].name@,
                schemas@[i as int].columns@[k as int].name@,
            ));
            tables.push(schemas[i].name.clone());
            names.push(schemas[i].columns[k].name.clone());
            k += 1;
        }
        i += 1;
    }
    assert(schemas@.take(schemas@.len() as int) =~= schemas@);
    assert forall|j: int| 0 <= j < names.len() implies columns[j] == (
        (#[trigger] tables@[j])@,
        (#[trigger] names@[j])@,
    ) by {}
    assert forall|j: int| 0 <= j < names.len() implies names_view(names@)[j] == bare_names(
        columns,
    )[j] by {
        assert(columns[j] == (tables@[j]@, names@[j]@));
    }
    assert(names_view(names@) =~= bare_names(columns));
    let counts = count_names(names.as_slice());
    let mut result: Vec<String> = Vec::new();
    let mut k: usize = 0;
    while k < names.len()
        invariant
            k <= names.len(),
            result.len() == k,
            tables.len() == names.len(),
            columns.len() == names.len(),
            names_view(names@) == bare_names(columns),
            forall|j: int|
                0 <= j < names.len() ==> columns[j] == (
                    (#[trigger] tables@[j])@,
                    (#[trigger] names@[j])@,
                ),
            forall|at: int|
                #![trigger names_view(names@)[at]]
                0 <= at < names@.len() ==> counts@.dom().contains(names_view(names@)[at]) && (
                counts@[names_view(names@)[at]] > 1 <==> is_repeated(names_view(names@), at)),
            forall|j: int| 0 <= j < k ==> (#[trigger] result@[j])@ == joined_name(columns, j),
        decreases names.len() - k,
    {
        assert(names_view(names@)[k as int] == names@[k as int]@);
        assert(columns[k as int] == (tables@[k as int]@, names@[k as int]@));
        let repeated = match counts.get(names[k].as_str()) {
            Some(count) => count > 1,
            None => false,
        };
        if repeated {
            result.push(qualified_name(&tables[k], &names[k]));
        } else {
            result.push(names[k].clone());
        }
        k += 1;
    }
    assert(names_view(result@) =~= joined_names(columns));
    result
}

/// Columns with different names keep different property names, as long as no name holds two
/// dots.
pub proof fn law_projected_names_stay_apart(names: Seq<Seq<char>>, left: int, right: int)
    requires
        0 <= left < names.len(),
        0 <= right < names.len(),
        names[left] != names[right],
        forall|at: int|
            0 <= at < names.len() ==> !(#[trigger] simple_name(names[at])).contains('.'),
    ensures
        projected_names(names)[left] != projected_names(names)[right],
{
    let simple = simple_names(names);
    assert(simple[left] == simple_name(names[left]));
    assert(simple[right] == simple_name(names[right]));
    names[left].index_of_first_ensures('.');
    names[right].index_of_first_ensures('.');
    if simple[left] == simple[right] {
        assert(is_repeated(simple, left));
        assert(is_repeated(simple, right));
    }
}

/// Columns of the same name of tables with different names keep different property names.
pub proof fn law_joined_names_stay_apart(
    columns: Seq<(Seq<char>, Seq<char>)>,
    left: int,
    right: int,
)
    requires
        0 <= left < columns.len(),
        0 <= right < columns.len(),
        columns[left].1 == columns[right].1,
        columns[left].0 != columns[right].0,
    ensures
        joined_names(columns)[left] != joined_names(columns)[right],
{
    let bare = bare_names(columns);
    assert(bare[left] == bare[right]);
    assert(is_repeated(bare, left));
    assert(is_repeated(bare, right));
    let first = columns[left].0 + seq!['.'] + columns[left].1;
    let second = columns[right].0 + seq!['.'] + columns[right].1;
    if first == second {
        assert(first.len() == columns[left].0.len() + 1 + columns[left].1.len());
        assert(second.len() == columns[right].0.len() + 1 + columns[right].1.len());
        assert(columns[left].0.len() == columns[right].0.len());
        assert(columns[left].0 =~= first.take(columns[left].0.len() as int));
        assert(columns[right].0 =~= second.take(columns[right].0.len() as int));
    }
}

/// The simple name of a column is what follows its table and the dot, and all of a name without a
/// dot.
pub proof fn law_simple_names_drop_the_table(table: Seq<char>, column: Seq<char>)
    requires
        !table.contains('.'),
    ensures
        simple_name(table + seq!['.'] + column) == column,
        simple_name(table) == table,
{
    let name = table + seq!['.'] + column;
    name.index_of_first_ensures('.');
    table.index_of_first_ensures('.');
    let at = name.index_of_first('.');
    assert(name[table.len() as int] == '.');
    assert(name.contains('.'));
    if at->0 < table.len() {
        assert(table[at->0] == '.');
    }
    assert(at == Some(table.len() as int));
    assert(name.skip(table.len() as int + 1) =~= column);
}

/// A column is named by its simple name where no other column has that name, and by its whole name
/// otherwise. A column of joined rows has its table in front just where another column has the same
/// name.
pub proof fn law_only_repeated_names_are_qualified(
    names: Seq<Seq<char>>,
    columns: Seq<(Seq<char>, Seq<char>)>,
    at: int,
)
    ensures
        projected_names(names).len() == names.len(),
        joined_names(columns).len() == columns.len(),
        0 <= at < names.len() ==> {
            &&& (forall|other: int|
                0 <= other < names.len() && other != at ==> simple_name(#[trigger] names[other])
                    != simple_name(names[at])) ==> projected_names(names)[at] == simple_name(
                names[at],
            )
            &&& (exists|other: int|
                0 <= other < names.len() && other != at && simple_name(#[trigger] names[other])
                    == simple_name(names[at])) ==> projected_names(names)[at] == names[at]
        },
        0 <= at < columns.len() ==> {
            &&& (forall|other: int|
                0 <= other < columns.len() && other != at ==> (#[trigger] columns[other]).1
                    != columns[at].1) ==> joined_names(columns)[at] == columns[at].1
            &&& (exists|other: int|
                0 <= other < columns.len() && other != at && (#[trigger] columns[other]).1
                    == columns[at].1) ==> joined_names(columns)[at] == columns[at].0 + seq!['.']
                + columns[at].1
        },
{
    let simple = simple_names(names);
    let bare = bare_names(columns);
    assert(forall|i: int|
        0 <= i < names.len() ==> #[trigger] simple[i] == simple_name(names[i]));
    assert(forall|i: int| 0 <= i < columns.len() ==> #[trigger] bare[i] == columns[i].1);
    if 0 <= at < names.len() {
        if exists|other: int|
            0 <= other < names.len() && other != at && simple_name(#[trigger] names[other])
                == simple_name(names[at]) {
            let other = choose|other: int|
                0 <= other < names.len() && other != at && simple_name(#[trigger] names[other])
                    == simple_name(names[at]);
            assert(simple[other] == simple[at]);
            assert(is_repeated(simple, at));
        } else if is_repeated(simple, at) {
            let other = choose|other: int|
                0 <= other < simple.len() && other != at && #[trigger] simple[other] == simple[at];
            assert(simple_name(names[other]) == simple_name(names[at]));
        }
    }
    if 0 <= at < columns.len() {
        if exists|other: int|
            0 <= other < columns.len() && other != at && (#[trigger] columns[other]).1
                == columns[at].1 {
            let other = choose|other: int|
                0 <= other < columns.len() && other != at && (#[trigger] columns[other]).1
                    == columns[at].1;
            assert(bare[other] == bare[at]);
            assert(is_repeated(bare, at));
        } else if is_repeated(bare, at) {
            let other = choose|other: int|
                0 <= other < bare.len() && other != at && #[trigger] bare[other] == bare[at];
            assert(columns[other].1 == columns[at].1);
        }
    }
}

/// The columns of joined rows are those of the tables, one table after the other, each under the
/// name of its table.
pub proof fn law_joined_columns_follow_the_tables(schemas: Seq<Table>, i: int, column: int)
    requires
        0 <= i < schemas.len(),
        0 <= column < schemas[i].columns@.len(),
    ensures
        ({
            let at = joined_columns(schemas.take(i)).len() + column;
            &&& at < joined_columns(schemas).len()
            &&& joined_columns(schemas)[at as int] == (
                schemas[i].name@,
                schemas[i].columns@[column].name@,
            )
        }),
    decreases schemas.len(),
{
    let front = schemas.drop_last();
    if i < schemas.len() - 1 {
        law_joined_columns_follow_the_tables(front, i, column);
        assert(front.take(i) =~= schemas.take(i));
        assert(front[i] == schemas[i]);
    } else {
        assert(schemas.take(i) =~= front);
    }
}

} // verus!
