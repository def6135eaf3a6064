//! Column layouts of intermediate rows.
use vstd::prelude::*;

use crate::text::{clone_names, find_name, first_position, lemma_first_position, names_view};

verus! {

/// The tables whose columns make up a row, with the number of columns of each.
pub struct CompileLayout {
    pub tables: Vec<String>,
    pub table_column_counts: Vec<usize>,
}

/// What a [`CompileLayout`] lists.
pub struct LayoutView {
    pub tables: Seq<Seq<char>>,
    pub counts: Seq<usize>,
}

/// The number of columns in front of table number `k`.
pub open spec fn width_before(counts: Seq<usize>, k: int) -> usize
    decreases k,
{
    if k <= 0 {
        0
    } else {
        width_before(counts, k - 1).wrapping_add(
            if k - 1 < counts.len() {
                counts[k - 1]
            } else {
                0
            },
        )
    }
}

/// The indices `start`, `start + 1` and so on below `end`.
pub open spec fn index_range(start: usize, end: usize) -> Seq<usize> {
    if start < end {
        Seq::new((end - start) as nat, |i: int| (start + i) as usize)
    } else {
        Seq::empty()
    }
}

/// The widths of the listed tables, taken from the left layout or else from the right one.
pub open spec fn joined_counts(
    left: LayoutView,
    right: LayoutView,
    output_tables: Seq<Seq<char>>,
) -> Seq<usize>
    decreases output_tables.len(),
{
    if output_tables.len() == 0 {
        Seq::empty()
    } else {
        let before = joined_counts(left, right, output_tables.drop_last());
        match left.width_of(output_tables.last()) {
            Some(width) => before.push(width),
            None => match right.width_of(output_tables.last()) {
                Some(width) => before.push(width),
                None => before,
            },
        }
    }
}

impl LayoutView {
    /// The layout of rows without columns.
    pub open spec fn empty() -> LayoutView {
        LayoutView { tables: Seq::empty(), counts: Seq::empty() }
    }

    /// The layout of the rows of one table.
    pub open spec fn of_table(table: Seq<char>, column_count: usize) -> LayoutView {
        LayoutView { tables: seq![table], counts: seq![column_count] }
    }

    /// The layout after a projection to a number of columns.
    pub open spec fn projected(self, output_column_count: usize) -> LayoutView {
        LayoutView { tables: self.tables, counts: seq![output_column_count] }
    }

    /// The width of the named table.
    pub open spec fn width_of(self, table: Seq<char>) -> Option<usize> {
        match first_position(self.tables, table) {
            Some(at) => if at < self.counts.len() {
                Some(self.counts[at])
            } else {
                None
            },
            None => None,
        }
    }

    /// Where a column of the named table stands in a row.
    pub open spec fn resolve(self, table: Seq<char>, index: usize) -> usize {
        if table.len() == 0 {
            index
        } else {
            match first_position(self.tables, table) {
                Some(at) => width_before(self.counts, at).wrapping_add(index),
                None => index,
            }
        }
    }

    /// The layout of a join that emits the listed tables.
    pub open spec fn join(
        left: LayoutView,
        right: LayoutView,
        output_tables: Seq<Seq<char>>,
    ) -> LayoutView {
        LayoutView {
            tables: output_tables,
            counts: joined_counts(left, right, output_tables),
        }
    }

    /// The layout of the tables of both sides, one after the other.
    pub open spec fn combined(left: LayoutView, right: LayoutView) -> LayoutView {
        LayoutView::join(left, right, left.tables + right.tables)
    }

    /// The columns to pick so that the listed tables follow each other.
    pub open spec fn projection(self, output_tables: Seq<Seq<char>>) -> Seq<usize>
        decreases output_tables.len(),
    {
        if output_tables.len() == 0 {
            Seq::empty()
        } else {
            let table = output_tables.last();
            let start = self.resolve(table, 0);
            let width = match self.width_of(table) {
                Some(width) => width,
                None => 0,
            };
            self.projection(output_tables.drop_last()) + index_range(
                start,
                start.saturating_add(width),
            )
        }
    }

    /// The number of columns of a row.
    pub open spec fn total(self) -> usize {
        width_before(self.counts, self.counts.len() as int)
    }
}

impl View for CompileLayout {
    type V = LayoutView;

    open spec fn view(&self) -> LayoutView {
        LayoutView { tables: names_view(self.tables@), counts: self.table_column_counts@ }
    }
}

impl CompileLayout {
    /// The layout of rows without columns.
    pub fn empty() -> (result: Self)
        ensures
            result@ == LayoutView::empty(),
    {
        let result = CompileLayout { tables: Vec::new(), table_column_counts: Vec::new() };
        assert(result@.tables =~= Seq::empty());
        result
    }

    /// Copies the layout.
    pub fn copy(&self) -> (result: Self)
        ensures
            result@ == self@,
    {
        let table_column_counts = self.table_column_counts.clone();
        assert(table_column_counts@ =~= self.table_column_counts@);
        CompileLayout { tables: clone_names(self.tables.as_slice()), table_column_counts }
    }

    /// The layout of the rows of one table.
    pub fn table(table: &str, column_count: usize) -> (result: Self)
        ensures
            result@ == LayoutView::of_table(table@, column_count),
    {
        let result = CompileLayout {
            tables: vec![table.to_owned()],
            table_column_counts: vec![column_count],
        };
        assert(result@.tables =~= seq![table@]);
        assert(result@.counts =~= seq![column_count]);
        result
    }

    /// The layout after a projection to a number of columns.
    pub fn projected(&self, output_column_count: usize) -> (result: Self)
        ensures
            result@ == self@.projected(output_column_count),
    {
        let result = CompileLayout {
            tables: clone_names(self.tables.as_slice()),
            table_column_counts: vec![output_column_count],
        };
        assert(result@.counts =~= seq![output_column_count]);
        result
    }

    /// The layout of a join that emits the listed tables.
    pub fn join(left: &Self, right: &Self, output_tables: &[String]) -> (result: Self)
        ensures
            result@ == LayoutView::join(left@, right@, names_view(output_tables@)),
    {
        let mut table_column_counts: Vec<usize> = Vec::new();
        let mut i: usize = 0;
        while i < output_tables.len()
            invariant
                i <= output_tables.len(),
                table_column_counts@ == joined_counts(
                    left@,
                    right@,
                    names_view(output_tables@).take(i as int),
                ),
            decreases output_tables.len() - i,
        {
            let ghost names = names_view(output_tables@);
            assert(names.take(i + 1).drop_last() =~= names.take(i as int));
            assert(names.take(i + 1).last() == output_tables@[i as int]@);
            if let Some(width) = left.table_width(output_tables[i].as_str()) {
                table_column_counts.push(width);
            } else if let Some(width) = right.table_width(output_tables[i].as_str()) {
                table_column_counts.push(width);
            }
            i += 1;
        }
        assert(names_view(output_tables@).take(output_tables@.len() as int) =~= names_view(
            output_tables@,
        ));
        CompileLayout { tables: clone_names(output_tables), table_column_counts }
    }

    /// The layout of the tables of both sides, one after the other.
    pub fn combined(left: &Self, right: &Self) -> (result: Self)
        ensures
            result@ == LayoutView::combined(left@, right@),
    {
        let mut tables = clone_names(left.tables.as_slice());
        let mut more = clone_names(right.tables.as_slice());
        let ghost front = tables@;
        let ghost back = more@;
        tables.append(&mut more);
        assert(names_view(tables@) =~= names_view(front) + names_view(back));
        Self::join(left, right, tables.as_slice())
    }

    /// Tells whether the named table is part of the layout.
    pub fn contains_table(&self, table: &str) -> (found: bool)
        ensures
            found == self@.tables.contains(table@),
    {
        proof {
            lemma_first_position(self@.tables, table@);
        }
        find_name(self.tables.as_slice(), table).is_some()
    }

    /// Where a column of the named table stands in a row. A column without a table name, or
    /// of a table that the layout does not hold, stands at its own index.
    pub fn resolve_column_index(&self, table_name: &str, table_relative_index: usize) -> (result:
        usize)
        ensures
            result == self@.resolve(table_name@, table_relative_index),
    {
        if table_name.is_empty() {
            return table_relative_index;
        }
        match find_name(self.tables.as_slice(), table_name) {
            Some(at) => {
                let mut offset: usize = 0;
                let mut i: usize = 0;
                while i < at
                    invariant
                        i <= at,
                        offset == width_before(self.table_column_counts@, i as int),
                    decreases at - i,
                {
                    let width: usize = if i < self.table_column_counts.len() {
                        self.table_column_counts[i]
                    } else {
                        0
                    };
                    offset = offset.wrapping_add(width);
                    i += 1;
                }
                offset.wrapping_add(table_relative_index)
            },
            None => table_relative_index,
        }
    }

    /// The width of the named table.
    pub fn table_width(&self, table_name: &str) -> (width: Option<usize>)
        ensures
            width == self@.width_of(table_name@),
    {
        match find_name(self.tables.as_slice(), table_name) {
            Some(at) => if at < self.table_column_counts.len() {
                Some(self.table_column_counts[at])
            } else {
                None
            },
            None => None,
        }
    }

    /// The columns to pick so that the listed tables follow each other.
    pub fn projection_indices_for(&self, output_tables: &[String]) -> (indices: Vec<usize>)
        ensures
            indices@ == self@.projection(names_view(output_tables@)),
    {
        let mut indices: Vec<usize> = Vec::new();
        let mut i: usize = 0;
        while i < output_tables.len()
            invariant
                i <= output_tables.len(),
                indices@ == self@.projection(names_view(output_tables@).take(i as int)),
            decreases output_tables.len() - i,
        {
            let ghost names = names_view(output_tables@);
            let ghost before = indices@;
            assert(names.take(i + 1).drop_last() =~= names.take(i as int));
            assert(names.take(i + 1).last() == output_tables@[i as int]@);
            let start = self.resolve_column_index(output_tables[i].as_str(), 0);
            let width: usize = match self.table_width(output_tables[i].as_str()) {
                Some(width) => width,
                None => 0,
            };
            let end = start.saturating_add(width);
            let mut next: usize = start;
            while next < end
                invariant
                    start <= next,
                    start <= end ==> next <= end,
                    start < end ==> indices@ == before + index_range(start, end).take(
                        next - start,
                    ),
                    start >= end ==> indices@ == before,
                decreases end - next,
            {
                indices.push(next);
                assert(index_range(start, end).take(next + 1 - start) =~= index_range(
                    start,
                    end,
                ).take(next - start).push(next));
                next += 1;
            }
            assert(start < end ==> index_range(start, end).take(end - start) =~= index_range(
                start,
                end,
            ));
            assert(indices@ =~= before + index_range(start, end));
            i += 1;
        }
        assert(names_view(output_tables@).take(output_tables@.len() as int) =~= names_view(
            output_tables@,
        ));
        indices
    }

    /// The number of columns of a row.
    pub fn total_width(&self) -> (width: usize)
        ensures
            width == self@.total(),
    {
        let mut width: usize = 0;
        let mut i: usize = 0;
        while i < self.table_column_counts.len()
            invariant
                i <= self.table_column_counts.len(),
                width == width_before(self.table_column_counts@, i as int),
            decreases self.table_column_counts.len() - i,
        {
            width = width.wrapping_add(self.table_column_counts[i]);
            i += 1;
        }
        width
    }
}

/// The number of columns in front of table number `k`, without bounds.
pub open spec fn columns_before(counts: Seq<usize>, k: int) -> int
    decreases k,
{
    if k <= 0 {
        0
    } else {
        columns_before(counts, k - 1) + counts[k - 1]
    }
}

impl LayoutView {
    /// Each table has a name of its own and a width, and the columns of a row can be numbered.
    pub open spec fn sound(self) -> bool {
        &&& self.tables.len() == self.counts.len()
        &&& self.tables.no_duplicates()
        &&& forall|i: int| 0 <= i < self.tables.len() ==> (#[trigger] self.tables[i]).len() > 0
        &&& columns_before(self.counts, self.counts.len() as int) <= usize::MAX
    }
}

proof fn lemma_columns_grow(counts: Seq<usize>, k: int, m: int)
    requires
        0 <= k <= m,
    ensures
        0 <= columns_before(counts, k) <= columns_before(counts, m),
    decreases m,
{
    if k < m {
        lemma_columns_grow(counts, k, m - 1);
    } else if k > 0 {
        lemma_columns_grow(counts, k - 1, k - 1);
    }
}

proof fn lemma_width_is_count(counts: Seq<usize>, k: int)
    requires
        0 <= k <= counts.len(),
        columns_before(counts, counts.len() as int) <= usize::MAX,
    ensures
        width_before(counts, k) == columns_before(counts, k),
    decreases k,
{
    if k > 0 {
        lemma_width_is_count(counts, k - 1);
        lemma_columns_grow(counts, k - 1, k);
        lemma_columns_grow(counts, k, counts.len() as int);
    }
}

proof fn lemma_own_position(layout: LayoutView, i: int)
    requires
        layout.sound(),
        0 <= i < layout.tables.len(),
    ensures
        first_position(layout.tables, layout.tables[i]) == Some(i),
        layout.width_of(layout.tables[i]) == Some(layout.counts[i]),
        forall|index: usize|
            #![trigger layout.resolve(layout.tables[i], index)]
            index < layout.counts[i] ==> layout.resolve(layout.tables[i], index) == columns_before(
                layout.counts,
                i,
            ) + index,
{
    lemma_first_position(layout.tables, layout.tables[i]);
    let at = first_position(layout.tables, layout.tables[i]);
    assert(at == Some(i)) by {
        assert(at is Some);
        assert(layout.tables[at->0] == layout.tables[i]);
    }
    lemma_width_is_count(layout.counts, i);
    lemma_columns_grow(layout.counts, i, i);
    lemma_columns_grow(layout.counts, i + 1, layout.counts.len() as int);
    assert(columns_before(layout.counts, i + 1) == columns_before(layout.counts, i)
        + layout.counts[i]);
}

/// The projection picks a column of a table, among the first tables of the wanted layout, for the
/// place that this layout has for it.
spec fn picks(raw: LayoutView, wanted: LayoutView, k: int, i: int, index: usize) -> bool {
    let at = columns_before(wanted.counts, i) + index;
    0 <= at < columns_before(wanted.counts, k) && raw.projection(wanted.tables.take(k))[at]
        == raw.resolve(wanted.tables[i], index)
}

proof fn lemma_projection_columns(
    raw: LayoutView,
    wanted: LayoutView,
    k: int,
)
    requires
        raw.sound(),
        wanted.sound(),
        0 <= k <= wanted.tables.len(),
        forall|i: int|
            0 <= i < wanted.tables.len() ==> raw.tables.contains(#[trigger] wanted.tables[i])
                && raw.width_of(wanted.tables[i]) == Some(wanted.counts[i]),
    ensures
        raw.projection(wanted.tables.take(k)).len() == columns_before(wanted.counts, k),
        forall|i: int, index: usize|
            0 <= i < k && index < wanted.counts[i] ==> #[trigger] picks(raw, wanted, k, i, index),
    decreases k,
{
    let front = wanted.tables.take(k);
    if k == 0 {
        assert(front =~= Seq::empty());
    } else {
        lemma_projection_columns(raw, wanted, k - 1);
        assert(front.drop_last() =~= wanted.tables.take(k - 1));
        assert(front.last() == wanted.tables[k - 1]);
        let table = wanted.tables[k - 1];
        assert(raw.tables.contains(table));
        let r = choose|r: int| 0 <= r < raw.tables.len() && raw.tables[r] == table;
        lemma_own_position(raw, r);
        let width = raw.counts[r];
        assert(width == wanted.counts[k - 1]);
        lemma_width_is_count(raw.counts, r);
        lemma_columns_grow(raw.counts, 0, r);
        lemma_columns_grow(raw.counts, r + 1, raw.counts.len() as int);
        assert(columns_before(raw.counts, r + 1) == columns_before(raw.counts, r) + width);
        let start = raw.resolve(table, 0);
        assert(start == columns_before(raw.counts, r));
        let before = raw.projection(wanted.tables.take(k - 1));
        let added = index_range(start, start.saturating_add(width));
        assert(added.len() == width);
        assert(raw.projection(front) == before + added);
        lemma_columns_grow(wanted.counts, 0, k - 1);
        assert forall|i: int, index: usize| 0 <= i < k && index
            < wanted.counts[i] implies #[trigger] picks(raw, wanted, k, i, index) by {
            lemma_columns_grow(wanted.counts, 0, i);
            if i < k - 1 {
                assert(picks(raw, wanted, k - 1, i, index));
                lemma_columns_grow(wanted.counts, i + 1, k - 1);
                assert(columns_before(wanted.counts, i + 1) == columns_before(wanted.counts, i)
                    + wanted.counts[i]);
            } else {
                assert(raw.resolve(raw.tables[r], index) == columns_before(raw.counts, r) + index);
                assert(added[index as int] == start + index);
            }
        }
    }
}

/// Picking the columns of a projection brings rows from one layout into another: a column of a
/// table stands in the new row where the new layout says, and holds what stood where the old layout
/// said.
pub proof fn law_projection_moves_columns(
    raw: LayoutView,
    wanted: LayoutView,
    table: Seq<char>,
    index: usize,
)
    requires
        raw.sound(),
        wanted.sound(),
        forall|i: int|
            0 <= i < wanted.tables.len() ==> raw.tables.contains(#[trigger] wanted.tables[i])
                && raw.width_of(wanted.tables[i]) == Some(wanted.counts[i]),
        wanted.tables.contains(table),
        index < wanted.width_of(table)->0,
    ensures
        raw.projection(wanted.tables).len() == wanted.total(),
        wanted.resolve(table, index) < wanted.total(),
        raw.projection(wanted.tables)[wanted.resolve(table, index) as int] == raw.resolve(
            table,
            index,
        ),
{
    let count = wanted.tables.len() as int;
    lemma_projection_columns(raw, wanted, count);
    assert(wanted.tables.take(count) =~= wanted.tables);
    lemma_width_is_count(wanted.counts, count);
    let i = choose|i: int| 0 <= i < wanted.tables.len() && wanted.tables[i] == table;
    lemma_own_position(wanted, i);
    assert(wanted.resolve(wanted.tables[i], index) == columns_before(wanted.counts, i) + index);
    assert(picks(raw, wanted, count, i, index));
}

/// The columns of a table in a row, in order.
pub open spec fn table_columns(layout: LayoutView, table: Seq<char>) -> Seq<usize> {
    let start = layout.resolve(table, 0);
    index_range(
        start,
        start.saturating_add(
            match layout.width_of(table) {
                Some(width) => width,
                None => 0,
            },
        ),
    )
}

proof fn lemma_projection_parts(layout: LayoutView, front: Seq<Seq<char>>, back: Seq<Seq<char>>)
    ensures
        layout.projection(front + back) == layout.projection(front) + layout.projection(back),
    decreases back.len(),
{
    if back.len() == 0 {
        assert(front + back =~= front);
        assert(layout.projection(front) + layout.projection(back) =~= layout.projection(front));
    } else {
        lemma_projection_parts(layout, front, back.drop_last());
        assert((front + back).drop_last() =~= front + back.drop_last());
        assert((front + back).last() == back.last());
        let last = table_columns(layout, back.last());
        assert(layout.projection(front) + (layout.projection(back.drop_last()) + last) =~= (
        layout.projection(front) + layout.projection(back.drop_last())) + last);
    }
}

proof fn lemma_projection_of_one(layout: LayoutView, table: Seq<char>)
    ensures
        layout.projection(seq![table]) == table_columns(layout, table),
{
    reveal_with_fuel(LayoutView::projection, 2);
    assert(seq![table].drop_last() =~= Seq::empty());
    assert(layout.projection(seq![table]) =~= table_columns(layout, table));
}

proof fn lemma_projection_without(layout: LayoutView, tables: Seq<Seq<char>>, k: int)
    requires
        0 <= k < tables.len(),
    ensures
        layout.projection(tables).to_multiset() == layout.projection(
            tables.remove(k),
        ).to_multiset().add(table_columns(layout, tables[k]).to_multiset()),
{
    let front = tables.take(k);
    let back = tables.skip(k + 1);
    let middle = seq![tables[k]];
    let columns = table_columns(layout, tables[k]);
    assert(tables =~= front + (middle + back));
    assert(tables.remove(k) =~= front + back);
    lemma_projection_parts(layout, front, middle + back);
    lemma_projection_parts(layout, middle, back);
    lemma_projection_parts(layout, front, back);
    lemma_projection_of_one(layout, tables[k]);
    vstd::seq_lib::lemma_multiset_commutative(
        layout.projection(front),
        layout.projection(middle + back),
    );
    vstd::seq_lib::lemma_multiset_commutative(columns, layout.projection(back));
    vstd::seq_lib::lemma_multiset_commutative(
        layout.projection(front),
        layout.projection(back),
    );
    assert(layout.projection(tables).to_multiset() =~= layout.projection(
        tables.remove(k),
    ).to_multiset().add(columns.to_multiset()));
}

proof fn lemma_projection_permuted(
    layout: LayoutView,
    left: Seq<Seq<char>>,
    right: Seq<Seq<char>>,
)
    requires
        left.to_multiset() == right.to_multiset(),
    ensures
        layout.projection(left).to_multiset() == layout.projection(right).to_multiset(),
    decreases left.len(),
{
    broadcast use vstd::seq_lib::group_to_multiset_ensures;

    vstd::seq_lib::to_multiset_len(left);
    vstd::seq_lib::to_multiset_len(right);
    if left.len() > 0 {
        let last = left.len() - 1;
        assert(left.contains(left[last]));
        assert(right.to_multiset().count(left[last]) > 0);
        let k = choose|k: int| 0 <= k < right.len() && right[k] == left[last];
        lemma_projection_without(layout, left, last);
        lemma_projection_without(layout, right, k);
        assert(left.remove(last).to_multiset() == left.to_multiset().remove(left[last]));
        assert(right.remove(k).to_multiset() == right.to_multiset().remove(right[k]));
        lemma_projection_permuted(layout, left.remove(last), right.remove(k));
    } else {
        assert(left =~= right);
    }
}

proof fn lemma_projection_in_place(layout: LayoutView, k: int)
    requires
        layout.sound(),
        0 <= k <= layout.tables.len(),
    ensures
        layout.projection(layout.tables.take(k)) == index_range(
            0,
            columns_before(layout.counts, k) as usize,
        ),
    decreases k,
{
    lemma_columns_grow(layout.counts, 0, k);
    lemma_columns_grow(layout.counts, k, layout.counts.len() as int);
    let front = layout.tables.take(k);
    if k > 0 {
        lemma_projection_in_place(layout, k - 1);
        lemma_columns_grow(layout.counts, 0, k - 1);
        assert(front.drop_last() =~= layout.tables.take(k - 1));
        assert(front.last() == layout.tables[k - 1]);
        lemma_own_position(layout, k - 1);
        lemma_width_is_count(layout.counts, k - 1);
        let start = columns_before(layout.counts, k - 1) as usize;
        let end = columns_before(layout.counts, k) as usize;
        assert(layout.resolve(layout.tables[k - 1], 0) == start);
        assert(index_range(0, start) + index_range(start, end) =~= index_range(0, end));
    }
}

proof fn lemma_projection_block(layout: LayoutView, output_tables: Seq<Seq<char>>, k: int)
    requires
        layout.sound(),
        output_tables.to_multiset() == layout.tables.to_multiset(),
        0 <= k < output_tables.len(),
    ensures
        ({
            let table = output_tables[k];
            let columns = table_columns(layout, table);
            &&& layout.projection(output_tables) == layout.projection(output_tables.take(k))
                + columns + layout.projection(output_tables.skip(k + 1))
            &&& layout.width_of(table) == Some(columns.len() as usize)
            &&& forall|index: int|
                0 <= index < columns.len() ==> #[trigger] columns[index] == layout.resolve(
                    table,
                    index as usize,
                )
        }),
{
    broadcast use vstd::seq_lib::group_to_multiset_ensures;

    let count = layout.tables.len() as int;
    let table = output_tables[k];
    let front = output_tables.take(k);
    let back = output_tables.skip(k + 1);
    assert(output_tables =~= front + (seq![table] + back));
    lemma_projection_parts(layout, front, seq![table] + back);
    lemma_projection_parts(layout, seq![table], back);
    lemma_projection_of_one(layout, table);
    let columns = table_columns(layout, table);
    assert(layout.projection(front) + (columns + layout.projection(back)) =~= layout.projection(
        front,
    ) + columns + layout.projection(back));
    assert(output_tables.contains(table));
    assert(layout.tables.to_multiset().count(table) > 0);
    let at = choose|at: int| 0 <= at < layout.tables.len() && layout.tables[at] == table;
    lemma_own_position(layout, at);
    lemma_width_is_count(layout.counts, at);
    lemma_columns_grow(layout.counts, 0, at);
    lemma_columns_grow(layout.counts, at + 1, count);
    assert(columns_before(layout.counts, at + 1) == columns_before(layout.counts, at)
        + layout.counts[at]);
    assert forall|index: int| 0 <= index < columns.len() implies #[trigger] columns[index]
        == layout.resolve(table, index as usize) by {
        assert(layout.resolve(layout.tables[at], index as usize) == columns_before(
            layout.counts,
            at,
        ) + index);
    }
}

/// The columns of a row are numbered by its tables: picking all tables in the order of the layout
/// picks every column at its place, and picking them in another order picks every column once. The
/// columns of each table stay together, in order.
pub proof fn law_projection_permutes_columns(
    layout: LayoutView,
    output_tables: Seq<Seq<char>>,
    k: int,
)
    requires
        layout.sound(),
        output_tables.to_multiset() == layout.tables.to_multiset(),
    ensures
        layout.projection(output_tables).to_multiset() == index_range(
            0,
            layout.total(),
        ).to_multiset(),
        output_tables == layout.tables ==> layout.projection(output_tables) == index_range(
            0,
            layout.total(),
        ),
        0 <= k < output_tables.len() ==> {
            let table = output_tables[k];
            let columns = table_columns(layout, table);
            &&& layout.projection(output_tables) == layout.projection(output_tables.take(k))
                + columns + layout.projection(output_tables.skip(k + 1))
            &&& layout.width_of(table) == Some(columns.len() as usize)
            &&& forall|index: int|
                0 <= index < columns.len() ==> #[trigger] columns[index] == layout.resolve(
                    table,
                    index as usize,
                )
        },
{
    broadcast use vstd::seq_lib::group_to_multiset_ensures;

    let count = layout.tables.len() as int;
    lemma_projection_in_place(layout, count);
    lemma_width_is_count(layout.counts, count);
    assert(layout.tables.take(count) =~= layout.tables);
    lemma_projection_permuted(layout, output_tables, layout.tables);
    if 0 <= k < output_tables.len() {
        lemma_projection_block(layout, output_tables, k);
    }
}

proof fn lemma_columns_append(left: Seq<usize>, right: Seq<usize>, k: int)
    requires
        0 <= k <= left.len() + right.len(),
    ensures
        columns_before(left + right, k) == (if k <= left.len() {
            columns_before(left, k)
        } else {
            columns_before(left, left.len() as int) + columns_before(right, k - left.len())
        }),
    decreases k,
{
    if k > 0 {
        lemma_columns_append(left, right, k - 1);
        assert(columns_before(right, 0) == 0);
    }
}

proof fn lemma_joined_counts(left: LayoutView, right: LayoutView, k: int)
    requires
        left.sound(),
        right.sound(),
        forall|table: Seq<char>| #[trigger]
            left.tables.contains(table) ==> !right.tables.contains(table),
        0 <= k <= left.tables.len() + right.tables.len(),
    ensures
        joined_counts(left, right, (left.tables + right.tables).take(k)) == (left.counts
            + right.counts).take(k),
    decreases k,
{
    let tables = left.tables + right.tables;
    let counts = left.counts + right.counts;
    if k == 0 {
        assert(tables.take(0) =~= Seq::empty());
        assert(counts.take(0) =~= Seq::empty());
    } else {
        lemma_joined_counts(left, right, k - 1);
        assert(tables.take(k).drop_last() =~= tables.take(k - 1));
        assert(tables.take(k).last() == tables[k - 1]);
        assert(counts.take(k) =~= counts.take(k - 1).push(counts[k - 1]));
        if k - 1 < left.tables.len() {
            lemma_own_position(left, k - 1);
        } else {
            let at = k - 1 - left.tables.len();
            let table = right.tables[at];
            assert(right.tables.contains(table));
            lemma_first_position(left.tables, table);
            assert(first_position(left.tables, table) is None) by {
                if let Some(found) = first_position(left.tables, table) {
                    assert(left.tables.contains(left.tables[found]));
                }
            }
            lemma_own_position(right, at);
        }
    }
}

/// The rows of a join hold the rows of both sides one after the other: a column of a table of the
/// left side stands where the left layout has it, and one of the right side as far behind the
/// columns of the left side as the right layout has it. This holds of indices beyond the columns
/// of the table too.
pub proof fn law_joined_columns_resolve(
    left: LayoutView,
    right: LayoutView,
    table: Seq<char>,
    index: usize,
)
    requires
        left.sound(),
        right.sound(),
        left.total() + right.total() <= usize::MAX,
        forall|name: Seq<char>| #[trigger]
            left.tables.contains(name) ==> !right.tables.contains(name),
    ensures
        LayoutView::combined(left, right).sound(),
        LayoutView::combined(left, right).tables == left.tables + right.tables,
        LayoutView::combined(left, right).total() == left.total() + right.total(),
        left.tables.contains(table) ==> LayoutView::combined(left, right).resolve(table, index)
            == left.resolve(table, index),
        right.tables.contains(table) ==> LayoutView::combined(left, right).resolve(table, index)
            == left.total().wrapping_add(right.resolve(table, index)),
        right.tables.contains(table) && left.total() + right.resolve(table, index) <= usize::MAX
            ==> LayoutView::combined(left, right).resolve(table, index) == left.total()
            + right.resolve(table, index),
{
    let both = LayoutView::combined(left, right);
    let tables = left.tables + right.tables;
    let counts = left.counts + right.counts;
    let middle = left.tables.len() as int;
    let count = tables.len() as int;
    lemma_joined_counts(left, right, count);
    assert(tables.take(count) =~= tables);
    assert(counts.take(count) =~= counts);
    lemma_width_is_count(left.counts, left.counts.len() as int);
    lemma_width_is_count(right.counts, right.counts.len() as int);
    lemma_columns_append(left.counts, right.counts, count);
    lemma_columns_append(left.counts, right.counts, middle);
    assert(tables.no_duplicates()) by {
        assert forall|i: int, j: int| 0 <= i < j < tables.len() implies tables[i] != tables[j] by {
            if i < middle && j >= middle {
                assert(left.tables.contains(left.tables[i]));
                assert(right.tables.contains(right.tables[j - middle]));
            }
        }
    }
    assert(both.sound());
    lemma_width_is_count(counts, count);
    if left.tables.contains(table) {
        let i = choose|i: int| 0 <= i < left.tables.len() && left.tables[i] == table;
        lemma_own_position(left, i);
        assert(both.tables[i] == table);
        lemma_own_position(both, i);
        lemma_columns_append(left.counts, right.counts, i);
        lemma_width_is_count(left.counts, i);
        lemma_width_is_count(counts, i);
    }
    if right.tables.contains(table) {
        let i = choose|i: int| 0 <= i < right.tables.len() && right.tables[i] == table;
        lemma_own_position(right, i);
        assert(both.tables[middle + i] == table);
        lemma_own_position(both, middle + i);
        lemma_columns_append(left.counts, right.counts, middle + i);
        assert(columns_before(counts, middle + i) == columns_before(left.counts, middle)
            + columns_before(right.counts, i));
        lemma_width_is_count(right.counts, i);
        lemma_width_is_count(counts, middle + i);
    }
}

} // verus!
