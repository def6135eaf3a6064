//! Order of values of one kind.
use vstd::prelude::*;

use crate::facts::Comparison;
use crate::text::chars_of;
use crate::value::{Value, ValueView};

verus! {

/// The order of two texts, character by character.
pub open spec fn text_order(left: Seq<char>, right: Seq<char>) -> Comparison
    decreases left.len(),
{
    if left.len() == 0 {
        if right.len() == 0 {
            Comparison::Equal
        } else {
            Comparison::Less
        }
    } else if right.len() == 0 {
        Comparison::Greater
    } else if left[0] < right[0] {
        Comparison::Less
    } else if right[0] < left[0] {
        Comparison::Greater
    } else {
        text_order(left.skip(1), right.skip(1))
    }
}

/// The order of two byte strings, byte by byte.
pub open spec fn bytes_order(left: Seq<u8>, right: Seq<u8>) -> Comparison
    decreases left.len(),
{
    if left.len() == 0 {
        if right.len() == 0 {
            Comparison::Equal
        } else {
            Comparison::Less
        }
    } else if right.len() == 0 {
        Comparison::Greater
    } else if left[0] < right[0] {
        Comparison::Less
    } else if right[0] < left[0] {
        Comparison::Greater
    } else {
        bytes_order(left.skip(1), right.skip(1))
    }
}

/// The order of two integers.
pub open spec fn int_order(left: int, right: int) -> Comparison {
    if left < right {
        Comparison::Less
    } else if right < left {
        Comparison::Greater
    } else {
        Comparison::Equal
    }
}

/// The order of two values whose kind fixes it: both null, or both booleans, integers of one
/// width, texts, times or byte strings.
pub open spec fn plain_order(left: ValueView, right: ValueView) -> Option<Comparison> {
    match (left, right) {
        (ValueView::Null, ValueView::Null) => Some(Comparison::Equal),
        (ValueView::Boolean(l), ValueView::Boolean(r)) => Some(
            if l == r {
                Comparison::Equal
            } else if r {
                Comparison::Less
            } else {
                Comparison::Greater
            },
        ),
        (ValueView::Int32(l), ValueView::Int32(r)) => Some(int_order(l as int, r as int)),
        (ValueView::Int64(l), ValueView::Int64(r)) => Some(int_order(l as int, r as int)),
        (ValueView::DateTime(l), ValueView::DateTime(r)) => Some(int_order(l as int, r as int)),
        (ValueView::String(l), ValueView::String(r)) => Some(text_order(l, r)),
        (ValueView::Bytes(l), ValueView::Bytes(r)) => Some(bytes_order(l, r)),
        _ => None,
    }
}

/// Compares two texts.
pub fn compare_chars(left: &[char], right: &[char]) -> (result: Comparison)
    ensures
        result == text_order(left@, right@),
{
    let mut i: usize = 0;
    assert(left@.skip(0) =~= left@);
    assert(right@.skip(0) =~= right@);
    while i < left.len() && i < right.len()
        invariant
            i <= left.len(),
            i <= right.len(),
            text_order(left@.skip(i as int), right@.skip(i as int)) == text_order(left@, right@),
        decreases left.len() - i,
    {
        let ghost l = left@.skip(i as int);
        let ghost r = right@.skip(i as int);
        assert(l[0] == left@[i as int] && r[0] == right@[i as int]);
        assert(l.skip(1) =~= left@.skip(i + 1));
        assert(r.skip(1) =~= right@.skip(i + 1));
        if left[i] < right[i] {
            return Comparison::Less;
        }
        if right[i] < left[i] {
            return Comparison::Greater;
        }
        i += 1;
    }
    if i < left.len() {
        Comparison::Greater
    } else if i < right.len() {
        Comparison::Less
    } else {
        Comparison::Equal
    }
}

/// Compares two byte strings.
pub fn compare_bytes(left: &[u8], right: &[u8]) -> (result: Comparison)
    ensures
        result == bytes_order(left@, right@),
{
    let mut i: usize = 0;
    assert(left@.skip(0) =~= left@);
    assert(right@.skip(0) =~= right@);
    while i < left.len() && i < right.len()
        invariant
            i <= left.len(),
            i <= right.len(),
            bytes_order(left@.skip(i as int), right@.skip(i as int)) == bytes_order(left@, right@),
        decreases left.len() - i,
    {
        let ghost l = left@.skip(i as int);
        let ghost r = right@.skip(i as int);
        assert(l[0] == left@[i as int] && r[0] == right@[i as int]);
        assert(l.skip(1) =~= left@.skip(i + 1));
        assert(r.skip(1) =~= right@.skip(i + 1));
        if left[i] < right[i] {
            return Comparison::Less;
        }
        if right[i] < left[i] {
            return Comparison::Greater;
        }
        i += 1;
    }
    if i < left.len() {
        Comparison::Greater
    } else if i < right.len() {
        Comparison::Less
    } else {
        Comparison::Equal
    }
}

/// Compares two integers.
pub fn compare_ints(left: i64, right: i64) -> (result: Comparison)
    ensures
        result == int_order(left as int, right as int),
{
    if left < right {
        Comparison::Less
    } else if right < left {
        Comparison::Greater
    } else {
        Comparison::Equal
    }
}

/// Compares two values whose kind fixes the order.
pub fn compare_plain(left: &Value, right: &Value) -> (result: Option<Comparison>)
    ensures
        result == plain_order(left@, right@),
{
    match (left, right) {
        (Value::Null, Value::Null) => Some(Comparison::Equal),
        (Value::Boolean(l), Value::Boolean(r)) => Some(
            if *l == *r {
                Comparison::Equal
            } else if *r {
                Comparison::Less
            } else {
                Comparison::Greater
            },
        ),
        (Value::Int32(l), Value::Int32(r)) => Some(compare_ints(*l as i64, *r as i64)),
        (Value::Int64(l), Value::Int64(r)) => Some(compare_ints(*l, *r)),
        (Value::DateTime(l), Value::DateTime(r)) => Some(compare_ints(*l, *r)),
        (Value::String(l), Value::String(r)) => Some(
            compare_chars(chars_of(l.as_str()).as_slice(), chars_of(r.as_str()).as_slice()),
        ),
        (Value::Bytes(l), Value::Bytes(r)) => Some(compare_bytes(l.as_slice(), r.as_slice())),
        _ => None,
    }
}

/// Texts of equal order are the same text.
pub proof fn law_text_order_equal(left: Seq<char>, right: Seq<char>)
    ensures
        (text_order(left, right) == Comparison::Equal) == (left == right),
    decreases left.len(),
{
    if left.len() == 0 {
        if right.len() == 0 {
            assert(left =~= right);
        }
    } else if right.len() > 0 && left[0] == right[0] {
        law_text_order_equal(left.skip(1), right.skip(1));
        if left.skip(1) == right.skip(1) {
            assert(left =~= seq![left[0]] + left.skip(1));
            assert(right =~= seq![right[0]] + right.skip(1));
        }
    }
}

/// Byte strings of equal order are the same byte string.
pub proof fn law_bytes_order_equal(left: Seq<u8>, right: Seq<u8>)
    ensures
        (bytes_order(left, right) == Comparison::Equal) == (left == right),
    decreases left.len(),
{
    if left.len() == 0 {
        if right.len() == 0 {
            assert(left =~= right);
        }
    } else if right.len() > 0 && left[0] == right[0] {
        law_bytes_order_equal(left.skip(1), right.skip(1));
        if left.skip(1) == right.skip(1) {
            assert(left =~= seq![left[0]] + left.skip(1));
            assert(right =~= seq![right[0]] + right.skip(1));
        }
    }
}

/// Values of one kind compare as equal exactly when they are the same value.
pub proof fn law_plain_order_equal(left: ValueView, right: ValueView)
    requires
        plain_order(left, right) is Some,
    ensures
        (plain_order(left, right) == Some(Comparison::Equal)) == (left == right),
{
    match (left, right) {
        (ValueView::String(l), ValueView::String(r)) => law_text_order_equal(l, r),
        (ValueView::Bytes(l), ValueView::Bytes(r)) => law_bytes_order_equal(l, r),
        _ => {},
    }
}

/// Two values of one kind, of which the values alone fix the order.
pub open spec fn same_kind(left: ValueView, right: ValueView) -> bool {
    ||| left is Null && right is Null
    ||| left is Boolean && right is Boolean
    ||| left is Int32 && right is Int32
    ||| left is Int64 && right is Int64
    ||| left is DateTime && right is DateTime
    ||| left is String && right is String
    ||| left is Bytes && right is Bytes
}

/// Two texts agree up to a position, where the left one ends or has the smaller character.
pub open spec fn smaller_text_at(left: Seq<char>, right: Seq<char>, k: int) -> bool {
    &&& 0 <= k <= left.len()
    &&& k < right.len()
    &&& left.take(k) == right.take(k)
    &&& k == left.len() || left[k] < right[k]
}

/// Two byte strings agree up to a position, where the left one ends or has the smaller byte.
pub open spec fn smaller_bytes_at(left: Seq<u8>, right: Seq<u8>, k: int) -> bool {
    &&& 0 <= k <= left.len()
    &&& k < right.len()
    &&& left.take(k) == right.take(k)
    &&& k == left.len() || left[k] < right[k]
}

/// A value comes before another one of its kind: a smaller number, an earlier time, false before
/// true, and of texts and byte strings the one that is smaller where they first differ.
pub open spec fn value_precedes(left: ValueView, right: ValueView) -> bool {
    match (left, right) {
        (ValueView::Boolean(l), ValueView::Boolean(r)) => !l && r,
        (ValueView::Int32(l), ValueView::Int32(r)) => l < r,
        (ValueView::Int64(l), ValueView::Int64(r)) => l < r,
        (ValueView::DateTime(l), ValueView::DateTime(r)) => l < r,
        (ValueView::String(l), ValueView::String(r)) => exists|k: int| smaller_text_at(l, r, k),
        (ValueView::Bytes(l), ValueView::Bytes(r)) => exists|k: int| smaller_bytes_at(l, r, k),
        _ => false,
    }
}

proof fn lemma_text_step(left: Seq<char>, right: Seq<char>)
    requires
        left.len() > 0,
        right.len() > 0,
        left[0] == right[0],
    ensures
        (exists|k: int| smaller_text_at(left, right, k)) <==> (exists|k: int|
            smaller_text_at(left.skip(1), right.skip(1), k)),
{
    if exists|k: int| smaller_text_at(left, right, k) {
        let k = choose|k: int| smaller_text_at(left, right, k);
        assert(left.skip(1).take(k - 1) =~= left.take(k).skip(1));
        assert(right.skip(1).take(k - 1) =~= right.take(k).skip(1));
        assert(smaller_text_at(left.skip(1), right.skip(1), k - 1));
    }
    if exists|k: int| smaller_text_at(left.skip(1), right.skip(1), k) {
        let k = choose|k: int| smaller_text_at(left.skip(1), right.skip(1), k);
        assert(left.take(k + 1) =~= seq![left[0]] + left.skip(1).take(k));
        assert(right.take(k + 1) =~= seq![right[0]] + right.skip(1).take(k));
        assert(smaller_text_at(left, right, k + 1));
    }
}

proof fn lemma_bytes_step(left: Seq<u8>, right: Seq<u8>)
    requires
        left.len() > 0,
        right.len() > 0,
        left[0] == right[0],
    ensures
        (exists|k: int| smaller_bytes_at(left, right, k)) <==> (exists|k: int|
            smaller_bytes_at(left.skip(1), right.skip(1), k)),
{
    if exists|k: int| smaller_bytes_at(left, right, k) {
        let k = choose|k: int| smaller_bytes_at(left, right, k);
        assert(left.skip(1).take(k - 1) =~= left.take(k).skip(1));
        assert(right.skip(1).take(k - 1) =~= right.take(k).skip(1));
        assert(smaller_bytes_at(left.skip(1), right.skip(1), k - 1));
    }
    if exists|k: int| smaller_bytes_at(left.skip(1), right.skip(1), k) {
        let k = choose|k: int| smaller_bytes_at(left.skip(1), right.skip(1), k);
        assert(left.take(k + 1) =~= seq![left[0]] + left.skip(1).take(k));
        assert(right.take(k + 1) =~= seq![right[0]] + right.skip(1).take(k));
        assert(smaller_bytes_at(left, right, k + 1));
    }
}

proof fn lemma_text_order(left: Seq<char>, right: Seq<char>)
    ensures
        (text_order(left, right) == Comparison::Less) <==> (exists|k: int|
            smaller_text_at(left, right, k)),
        (text_order(left, right) == Comparison::Greater) <==> (exists|k: int|
            smaller_text_at(right, left, k)),
        text_order(left, right) != Comparison::Unordered,
    decreases left.len(),
{
    if left.len() > 0 && right.len() > 0 && left[0] == right[0] {
        lemma_text_order(left.skip(1), right.skip(1));
        lemma_text_step(left, right);
        lemma_text_step(right, left);
    } else {
        assert(left.take(0) =~= right.take(0));
        if left.len() < right.len() && left.len() == 0 || left.len() > 0 && right.len() > 0
            && left[0] < right[0] {
            assert(smaller_text_at(left, right, 0));
        }
        if right.len() < left.len() && right.len() == 0 || left.len() > 0 && right.len() > 0
            && right[0] < left[0] {
            assert(smaller_text_at(right, left, 0));
        }
        assert forall|k: int| smaller_text_at(left, right, k) implies k == 0 by {
            if k > 0 {
                assert(left.take(k)[0] == left[0] && right.take(k)[0] == right[0]);
            }
        }
        assert forall|k: int| smaller_text_at(right, left, k) implies k == 0 by {
            if k > 0 {
                assert(left.take(k)[0] == left[0] && right.take(k)[0] == right[0]);
            }
        }
    }
}

proof fn lemma_bytes_order(left: Seq<u8>, right: Seq<u8>)
    ensures
        (bytes_order(left, right) == Comparison::Less) <==> (exists|k: int|
            smaller_bytes_at(left, right, k)),
        (bytes_order(left, right) == Comparison::Greater) <==> (exists|k: int|
            smaller_bytes_at(right, left, k)),
        bytes_order(left, right) != Comparison::Unordered,
    decreases left.len(),
{
    if left.len() > 0 && right.len() > 0 && left[0] == right[0] {
        lemma_bytes_order(left.skip(1), right.skip(1));
        lemma_bytes_step(left, right);
        lemma_bytes_step(right, left);
    } else {
        assert(left.take(0) =~= right.take(0));
        if left.len() < right.len() && left.len() == 0 || left.len() > 0 && right.len() > 0
            && left[0] < right[0] {
            assert(smaller_bytes_at(left, right, 0));
        }
        if right.len() < left.len() && right.len() == 0 || left.len() > 0 && right.len() > 0
            && right[0] < left[0] {
            assert(smaller_bytes_at(right, left, 0));
        }
        assert forall|k: int| smaller_bytes_at(left, right, k) implies k == 0 by {
            if k > 0 {
                assert(left.take(k)[0] == left[0] && right.take(k)[0] == right[0]);
            }
        }
        assert forall|k: int| smaller_bytes_at(right, left, k) implies k == 0 by {
            if k > 0 {
                assert(left.take(k)[0] == left[0] && right.take(k)[0] == right[0]);
            }
        }
    }
}

/// Values of one kind are compared by the values themselves: the comparison says less just where the
/// left value comes before the right one, greater just where it comes behind it, and equal just
/// where they are the same. Values of different kinds are not compared by their values.
pub proof fn law_values_compare_by_value(left: ValueView, right: ValueView)
    ensures
        plain_order(left, right) is Some <==> same_kind(left, right),
        plain_order(left, right) != Some(Comparison::Unordered),
        same_kind(left, right) ==> {
            &&& plain_order(left, right) == Some(Comparison::Less) <==> value_precedes(left, right)
            &&& plain_order(left, right) == Some(Comparison::Greater) <==> value_precedes(
                right,
                left,
            )
            &&& plain_order(left, right) == Some(Comparison::Equal) <==> left == right
        },
{
    match (left, right) {
        (ValueView::String(l), ValueView::String(r)) => {
            lemma_text_order(l, r);
            law_text_order_equal(l, r);
        },
        (ValueView::Bytes(l), ValueView::Bytes(r)) => {
            lemma_bytes_order(l, r);
            law_bytes_order_equal(l, r);
        },
        _ => {},
    }
}

/// The order of the values of one kind is a strict one: of two different values one comes before the
/// other, and what comes before a value comes before all that this one comes before.
pub proof fn law_value_order_is_strict(a: ValueView, b: ValueView, c: ValueView)
    requires
        same_kind(a, b),
        same_kind(b, c),
    ensures
        !(value_precedes(a, b) && value_precedes(b, a)),
        value_precedes(a, b) || value_precedes(b, a) || a == b,
        value_precedes(a, b) && value_precedes(b, c) ==> value_precedes(a, c),
        !value_precedes(b, a) && !value_precedes(c, b) ==> !value_precedes(c, a),
{
    law_values_compare_by_value(a, b);
    law_values_compare_by_value(b, c);
    law_values_compare_by_value(a, c);
    if value_precedes(a, b) && value_precedes(b, c) {
        lemma_precedes_through(a, b, c);
    }
    if !value_precedes(b, a) && !value_precedes(c, b) && value_precedes(c, a) {
        if a != b && b != c {
            lemma_precedes_through(a, b, c);
        }
    }
}

proof fn lemma_precedes_through(a: ValueView, b: ValueView, c: ValueView)
    requires
        same_kind(a, b),
        same_kind(b, c),
        value_precedes(a, b),
        value_precedes(b, c),
    ensures
        value_precedes(a, c),
{
    match (a, b, c) {
        (ValueView::String(x), ValueView::String(y), ValueView::String(z)) => {
            let i = choose|k: int| smaller_text_at(x, y, k);
            let j = choose|k: int| smaller_text_at(y, z, k);
            let k = if i <= j {
                i
            } else {
                j
            };
            assert(x.take(k) =~= x.take(i).take(k));
            assert(y.take(k) =~= y.take(i).take(k));
            assert(y.take(k) =~= y.take(j).take(k));
            assert(z.take(k) =~= z.take(j).take(k));
            if i < j {
                assert(y.take(j)[i] == y[i] && z.take(j)[i] == z[i]);
            } else if j < i {
                assert(x.take(i)[j] == x[j] && y.take(i)[j] == y[j]);
            }
            assert(smaller_text_at(x, z, k));
        },
        (ValueView::Bytes(x), ValueView::Bytes(y), ValueView::Bytes(z)) => {
            let i = choose|k: int| smaller_bytes_at(x, y, k);
            let j = choose|k: int| smaller_bytes_at(y, z, k);
            let k = if i <= j {
                i
            } else {
                j
            };
            assert(x.take(k) =~= x.take(i).take(k));
            assert(y.take(k) =~= y.take(i).take(k));
            assert(y.take(k) =~= y.take(j).take(k));
            assert(z.take(k) =~= z.take(j).take(k));
            if i < j {
                assert(y.take(j)[i] == y[i] && z.take(j)[i] == z[i]);
            } else if j < i {
                assert(x.take(i)[j] == x[j] && y.take(i)[j] == y[j]);
            }
            assert(smaller_bytes_at(x, z, k));
        },
        _ => {},
    }
}

} // verus!
