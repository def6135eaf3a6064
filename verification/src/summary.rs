//! Summaries of result sets, and comparison of result sets.
use vstd::prelude::*;
use vstd::utf8::encode_utf8;

use crate::row::{rows_view, Row, RowView, DUMMY_ROW_ID};
use crate::value::{same_values, values_view, Value, ValueView};

verus! {

pub const SUMMARY_PRIME: u64 = 0x9E37_79B1_85EB_CA87;

/// The number of rows of a result and a fingerprint of them. Equal results have equal
/// summaries; different results can have equal ones too.
#[derive(Clone, Copy, Debug, PartialEq, Eq, Structural)]
pub struct QueryResultSummary {
    pub len: usize,
    pub fingerprint: u64,
}

/// A fingerprint after one more number.
pub open spec fn mixed(fingerprint: u64, number: u64) -> u64 {
    let shifted = number.wrapping_add(SUMMARY_PRIME);
    (fingerprint ^ ((shifted << 27) | (shifted >> 37))).wrapping_mul(SUMMARY_PRIME)
}

/// A fingerprint after more numbers.
pub open spec fn mixed_all(fingerprint: u64, numbers: Seq<u64>) -> u64
    decreases numbers.len(),
{
    if numbers.len() == 0 {
        fingerprint
    } else {
        mixed(mixed_all(fingerprint, numbers.drop_last()), numbers.last())
    }
}

/// The numbers that a byte string adds to a fingerprint: its length and its bytes.
pub open spec fn byte_numbers(bytes: Seq<u8>) -> Seq<u64> {
    seq![bytes.len() as u64] + bytes.map_values(|byte: u8| byte as u64)
}

/// The numbers that a value adds to a fingerprint: a tag for its kind, then its content.
pub open spec fn value_numbers(value: ValueView) -> Seq<u64> {
    match value {
        ValueView::Null => seq![0u64],
        ValueView::Boolean(b) => seq![
            1u64,
            if b {
                1u64
            } else {
                0u64
            },
        ],
        ValueView::Int32(v) => seq![2u64, v as u32 as u64],
        ValueView::Int64(v) => seq![3u64, v as u64],
        ValueView::Float64(bits) => seq![4u64, bits],
        ValueView::String(text) => seq![5u64] + byte_numbers(encode_utf8(text)),
        ValueView::DateTime(v) => seq![6u64, v as u64],
        ValueView::Bytes(bytes) => seq![7u64] + byte_numbers(bytes),
        ValueView::Jsonb(bytes) => seq![8u64] + byte_numbers(bytes),
    }
}

/// The numbers that a list of values adds to a fingerprint.
pub open spec fn values_numbers(values: Seq<ValueView>) -> Seq<u64>
    decreases values.len(),
{
    if values.len() == 0 {
        Seq::empty()
    } else {
        values_numbers(values.drop_last()) + value_numbers(values.last())
    }
}

/// The numbers that a row adds to a fingerprint: identifier and version, and the values of a row
/// that stands for no stored row.
pub open spec fn row_numbers(row: RowView) -> Seq<u64> {
    if row.id == DUMMY_ROW_ID {
        seq![row.id, row.version, row.values.len() as u64] + values_numbers(row.values)
    } else {
        seq![row.id, row.version]
    }
}

/// The fingerprint of a list of rows.
pub open spec fn rows_fingerprint(rows: Seq<RowView>) -> u64
    decreases rows.len(),
{
    if rows.len() == 0 {
        0
    } else {
        mixed_all(rows_fingerprint(rows.drop_last()), row_numbers(rows.last()))
    }
}

/// The summary of a list of rows.
pub open spec fn summary_of(rows: Seq<RowView>) -> QueryResultSummary {
    QueryResultSummary { len: rows.len() as usize, fingerprint: rows_fingerprint(rows) }
}

/// Mixing numbers one list after the other is mixing both lists.
pub proof fn lemma_mixed_concat(fingerprint: u64, front: Seq<u64>, back: Seq<u64>)
    ensures
        mixed_all(fingerprint, front + back) == mixed_all(mixed_all(fingerprint, front), back),
    decreases back.len(),
{
    if back.len() == 0 {
        assert(front + back =~= front);
    } else {
        assert((front + back).drop_last() =~= front + back.drop_last());
        lemma_mixed_concat(fingerprint, front, back.drop_last());
    }
}

/// Builds a summary row by row.
pub struct QueryResultSummaryBuilder {
    len: usize,
    fingerprint: u64,
}

impl QueryResultSummaryBuilder {
    /// The summary of the rows so far.
    pub closed spec fn view(&self) -> QueryResultSummary {
        QueryResultSummary { len: self.len, fingerprint: self.fingerprint }
    }

    /// Starts without rows.
    pub fn new() -> (result: Self)
        ensures
            result@ == summary_of(Seq::empty()),
    {
        QueryResultSummaryBuilder { len: 0, fingerprint: 0 }
    }

    fn mix_u64(&mut self, value: u64)
        ensures
            final(self).len == old(self).len,
            final(self).fingerprint == mixed(old(self).fingerprint, value),
            final(self).fingerprint == mixed_all(old(self).fingerprint, seq![value]),
    {
        let shifted = value.wrapping_add(SUMMARY_PRIME);
        self.fingerprint = self.fingerprint ^ ((shifted << 27) | (shifted >> 37));
        self.fingerprint = self.fingerprint.wrapping_mul(SUMMARY_PRIME);
        proof {
            assert(seq![value].drop_last() =~= Seq::<u64>::empty());
            assert(mixed_all(old(self).fingerprint, Seq::<u64>::empty()) == old(self).fingerprint);
            assert(seq![value].last() == value);
        }
    }

    fn mix_bytes(&mut self, bytes: &[u8])
        ensures
            final(self).len == old(self).len,
            final(self).fingerprint == mixed_all(old(self).fingerprint, byte_numbers(bytes@)),
    {
        let ghost start = self.fingerprint;
        let ghost numbers = byte_numbers(bytes@);
        self.mix_u64(bytes.len() as u64);
        assert(numbers.take(1) =~= seq![bytes@.len() as u64]);
        let mut i: usize = 0;
        while i < bytes.len()
            invariant
                i <= bytes.len(),
                numbers == byte_numbers(bytes@),
                self.len == old(self).len,
                self.fingerprint == mixed_all(start, numbers.take(i + 1)),
            decreases bytes.len() - i,
        {
            assert(numbers.take(i + 2).drop_last() =~= numbers.take(i + 1));
            assert(numbers.take(i + 2).last() == bytes@[i as int] as u64);
            self.mix_u64(bytes[i] as u64);
            i += 1;
        }
        assert(numbers.take(bytes@.len() as int + 1) =~= numbers);
    }

    fn mix_value(&mut self, value: &Value)
        ensures
            final(self).len == old(self).len,
            final(self).fingerprint == mixed_all(old(self).fingerprint, value_numbers(value@)),
    {
        let ghost start = self.fingerprint;
        match value {
            Value::Null => {
                self.mix_u64(0);
            },
            Value::Boolean(b) => {
                self.mix_u64(1);
                let number: u64 = if *b {
                    1
                } else {
                    0
                };
                self.mix_u64(number);
                proof {
                    lemma_mixed_concat(start, seq![1u64], seq![number]);
                    assert(seq![1u64] + seq![number] =~= value_numbers(value@));
                }
            },
            Value::Int32(v) => {
                self.mix_u64(2);
                self.mix_u64(*v as u32 as u64);
                proof {
                    lemma_mixed_concat(start, seq![2u64], seq![*v as u32 as u64]);
                    assert(seq![2u64] + seq![*v as u32 as u64] =~= value_numbers(value@));
                }
            },
            Value::Int64(v) => {
                self.mix_u64(3);
                self.mix_u64(*v as u64);
                proof {
                    lemma_mixed_concat(start, seq![3u64], seq![*v as u64]);
                    assert(seq![3u64] + seq![*v as u64] =~= value_numbers(value@));
                }
            },
            Value::Float64(v) => {
                self.mix_u64(4);
                self.mix_u64(v.bits);
                proof {
                    lemma_mixed_concat(start, seq![4u64], seq![v.bits]);
                    assert(seq![4u64] + seq![v.bits] =~= value_numbers(value@));
                }
            },
            Value::String(text) => {
                self.mix_u64(5);
                self.mix_bytes(text.as_str().as_bytes());
                proof {
                    lemma_mixed_concat(start, seq![5u64], byte_numbers(encode_utf8(text@)));
                }
            },
            Value::DateTime(v) => {
                self.mix_u64(6);
                self.mix_u64(*v as u64);
                proof {
                    lemma_mixed_concat(start, seq![6u64], seq![*v as u64]);
                    assert(seq![6u64] + seq![*v as u64] =~= value_numbers(value@));
                }
            },
            Value::Bytes(bytes) => {
                self.mix_u64(7);
                self.mix_bytes(bytes.as_slice());
                proof {
                    lemma_mixed_concat(start, seq![7u64], byte_numbers(bytes@));
                }
            },
            Value::Jsonb(bytes) => {
                self.mix_u64(8);
                self.mix_bytes(bytes.as_slice());
                proof {
                    lemma_mixed_concat(start, seq![8u64], byte_numbers(bytes@));
                }
            },
        }
    }

    /// Adds a row.
    pub fn push(&mut self, row: &Row)
        requires
            old(self)@.len < usize::MAX,
        ensures
            final(self)@.len == old(self)@.len + 1,
            final(self)@.fingerprint == mixed_all(old(self)@.fingerprint, row_numbers(row@)),
    {
        let ghost start = self.fingerprint;
        self.len = self.len + 1;
        self.mix_u64(row.id());
        self.mix_u64(row.version());
        proof {
            lemma_mixed_concat(start, seq![row@.id], seq![row@.version]);
            assert(seq![row@.id] + seq![row@.version] =~= seq![row@.id, row@.version]);
        }
        if row.is_dummy() {
            let values = row.values();
            let ghost views = values_view(values@);
            let ghost head = seq![row@.id, row@.version, row@.values.len() as u64];
            self.mix_u64(values.len() as u64);
            proof {
                lemma_mixed_concat(start, seq![row@.id, row@.version], seq![values.len() as u64]);
                assert(seq![row@.id, row@.version] + seq![values.len() as u64] =~= head);
            }
            let mut i: usize = 0;
            assert(head + values_numbers(views.take(0)) =~= head);
            while i < values.len()
                invariant
                    i <= values.len(),
                    views == values_view(values@),
                    self.len == old(self).len + 1,
                    self.fingerprint == mixed_all(start, head + values_numbers(views.take(i as int))),
                decreases values.len() - i,
            {
                assert(views.take(i + 1).drop_last() =~= views.take(i as int));
                assert(views.take(i + 1).last() == values@[i as int]@);
                self.mix_value(&values[i]);
                proof {
                    lemma_mixed_concat(
                        start,
                        head + values_numbers(views.take(i as int)),
                        value_numbers(values@[i as int]@),
                    );
                    assert((head + values_numbers(views.take(i as int))) + value_numbers(
                        values@[i as int]@,
                    ) =~= head + values_numbers(views.take(i + 1)));
                }
                i += 1;
            }
            assert(views.take(views.len() as int) =~= views);
        }
    }

    /// The summary of the rows.
    pub fn finish(self) -> (summary: QueryResultSummary)
        ensures
            summary == self@,
    {
        QueryResultSummary { len: self.len, fingerprint: self.fingerprint }
    }
}

impl QueryResultSummary {
    /// Summarizes a list of rows.
    pub fn from_rows(rows: &[Row]) -> (summary: QueryResultSummary)
        ensures
            summary == summary_of(rows_view(rows@)),
    {
        let ghost views = rows_view(rows@);
        let mut builder = QueryResultSummaryBuilder::new();
        let mut i: usize = 0;
        assert(views.take(0) =~= Seq::empty());
        while i < rows.len()
            invariant
                i <= rows.len(),
                views == rows_view(rows@),
                builder@.len == i,
                builder@.fingerprint == rows_fingerprint(views.take(i as int)),
            decreases rows.len() - i,
        {
            assert(views.take(i + 1).drop_last() =~= views.take(i as int));
            assert(views.take(i + 1).last() == rows@[i as int]@);
            builder.push(&rows[i]);
            i += 1;
        }
        assert(views.take(views.len() as int) =~= views);
        builder.finish()
    }
}

/// A result with its summary.
pub struct QueryExecutionOutput {
    pub rows: Vec<Row>,
    pub summary: QueryResultSummary,
}

impl QueryExecutionOutput {
    /// Summarizes the rows that a query gives, in order.
    pub fn from_rows(rows: Vec<Row>) -> (result: Self)
        ensures
            result.rows == rows,
            result.summary == summary_of(rows_view(rows@)),
    {
        let summary = QueryResultSummary::from_rows(rows.as_slice());
        QueryExecutionOutput { rows, summary }
    }
}

/// Tells whether two results are the same: the summaries are, and row by row identifiers,
/// versions and values are.
pub fn query_results_equal(
    old_summary: &QueryResultSummary,
    new_summary: &QueryResultSummary,
    old_rows: &[Row],
    new_rows: &[Row],
) -> (same: bool)
    ensures
        same == (*old_summary == *new_summary && rows_view(old_rows@) == rows_view(new_rows@)),
{
    if *old_summary != *new_summary || old_rows.len() != new_rows.len() {
        proof {
            if old_rows@.len() != new_rows@.len() {
                assert(rows_view(old_rows@).len() != rows_view(new_rows@).len());
            }
        }
        return false;
    }
    let mut i: usize = 0;
    while i < old_rows.len()
        invariant
            i <= old_rows.len(),
            old_rows.len() == new_rows.len(),
            forall|j: int| 0 <= j < i ==> (#[trigger] old_rows@[j])@ == new_rows@[j]@,
        decreases old_rows.len() - i,
    {
        let left = &old_rows[i];
        let right = &new_rows[i];
        if left.id() != right.id() || left.version() != right.version() || !same_values(
            left.values(),
            right.values(),
        ) {
            assert(rows_view(old_rows@)[i as int] != rows_view(new_rows@)[i as int]);
            return false;
        }
        i += 1;
    }
    assert(rows_view(old_rows@) =~= rows_view(new_rows@));
    true
}

/// A comparison of two results that goes by their own summaries first answers as a comparison of
/// all rows does: a summary never hides a difference, nor makes one up.
pub proof fn law_summaries_do_not_decide(
    left: Seq<RowView>,
    right: Seq<RowView>,
    left_summary: QueryResultSummary,
    right_summary: QueryResultSummary,
)
    requires
        left_summary == summary_of(left),
        right_summary == summary_of(right),
    ensures
        (left_summary == right_summary && left == right) <==> left == right,
{
}

/// The summary of stored rows depends on their identifiers and versions alone.
pub proof fn law_summary_ignores_stored_values(left: Seq<RowView>, right: Seq<RowView>)
    requires
        left.len() == right.len(),
        forall|i: int|
            0 <= i < left.len() ==> (#[trigger] left[i]).id == right[i].id && left[i].version
                == right[i].version && left[i].id != DUMMY_ROW_ID,
    ensures
        summary_of(left) == summary_of(right),
    decreases left.len(),
{
    if left.len() > 0 {
        assert forall|i: int| 0 <= i < left.drop_last().len() implies (
        #[trigger] left.drop_last()[i]).id == right.drop_last()[i].id && left.drop_last()[i].version
            == right.drop_last()[i].version && left.drop_last()[i].id != DUMMY_ROW_ID by {
            assert(left[i].id == right[i].id);
        }
        law_summary_ignores_stored_values(left.drop_last(), right.drop_last());
        assert(left[left.len() - 1].id == right[left.len() - 1].id);
        assert(row_numbers(left.last()) == row_numbers(right.last()));
    }
}

} // verus!
