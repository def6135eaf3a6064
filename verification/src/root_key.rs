//! Keys made of values, and their encoding as byte strings.
use vstd::prelude::*;

use crate::row::{number_bytes, push_number};
use crate::text::chars_of;
use crate::value::{values_view, Value, ValueView};

verus! {

/// Each byte behind a one, then a zero.
pub open spec fn framed_bytes(bytes: Seq<u8>) -> Seq<u8>
    decreases bytes.len(),
{
    if bytes.len() == 0 {
        seq![0u8]
    } else {
        seq![1u8, bytes[0]] + framed_bytes(bytes.skip(1))
    }
}

/// Each character, as a number, behind a one, then a zero.
pub open spec fn framed_text(text: Seq<char>) -> Seq<u8>
    decreases text.len(),
{
    if text.len() == 0 {
        seq![0u8]
    } else {
        seq![1u8] + number_bytes(text[0] as u64) + framed_text(text.skip(1))
    }
}

/// The code of a value: a tag for its kind, then its content.
pub open spec fn value_code(value: ValueView) -> Seq<u8> {
    match value {
        ValueView::Null => seq![0u8],
        ValueView::Boolean(b) => seq![
            1u8,
            if b {
                1u8
            } else {
                0u8
            },
        ],
        ValueView::Int32(v) => seq![2u8] + number_bytes(v as i64 as u64),
        ValueView::Int64(v) => seq![3u8] + number_bytes(v as u64),
        ValueView::Float64(bits) => seq![4u8] + number_bytes(bits),
        ValueView::String(text) => seq![5u8] + framed_text(text),
        ValueView::DateTime(v) => seq![6u8] + number_bytes(v as u64),
        ValueView::Bytes(bytes) => seq![7u8] + framed_bytes(bytes),
        ValueView::Jsonb(bytes) => seq![8u8] + framed_bytes(bytes),
    }
}

/// The code of a key: the codes of its values, one after the other.
pub open spec fn key_code(key: Seq<ValueView>) -> Seq<u8>
    decreases key.len(),
{
    if key.len() == 0 {
        Seq::empty()
    } else {
        value_code(key[0]) + key_code(key.skip(1))
    }
}

/// Different numbers have different bytes.
pub proof fn lemma_number_bytes_injective(left: u64, right: u64)
    requires
        number_bytes(left) == number_bytes(right),
    ensures
        left == right,
{
    let l = number_bytes(left);
    let r = number_bytes(right);
    assert(l[0] == r[0] && l[1] == r[1] && l[2] == r[2] && l[3] == r[3] && l[4] == r[4] && l[5]
        == r[5] && l[6] == r[6] && l[7] == r[7]);
    assert(left == right) by (bit_vector)
        requires
            left as u8 == right as u8,
            (left >> 8) as u8 == (right >> 8) as u8,
            (left >> 16) as u8 == (right >> 16) as u8,
            (left >> 24) as u8 == (right >> 24) as u8,
            (left >> 32) as u8 == (right >> 32) as u8,
            (left >> 40) as u8 == (right >> 40) as u8,
            (left >> 48) as u8 == (right >> 48) as u8,
            (left >> 56) as u8 == (right >> 56) as u8,
    ;
}

proof fn lemma_framed_bytes_prefix(left: Seq<u8>, right: Seq<u8>, a: Seq<u8>, b: Seq<u8>)
    requires
        framed_bytes(left) + a == framed_bytes(right) + b,
    ensures
        left == right,
        a == b,
    decreases left.len(),
{
    let l = framed_bytes(left) + a;
    let r = framed_bytes(right) + b;
    assert(l[0] == r[0]);
    if left.len() == 0 {
        assert(l[0] == 0u8);
        if right.len() > 0 {
            assert(r[0] == 1u8);
        }
        assert(left =~= right);
        assert(a =~= l.skip(1));
        assert(b =~= r.skip(1));
    } else {
        assert(l[0] == 1u8);
        if right.len() == 0 {
            assert(r[0] == 0u8);
        }
        assert(l[1] == left[0]);
        assert(r[1] == right[0]);
        assert(l.skip(2) =~= framed_bytes(left.skip(1)) + a);
        assert(r.skip(2) =~= framed_bytes(right.skip(1)) + b);
        lemma_framed_bytes_prefix(left.skip(1), right.skip(1), a, b);
        assert(left =~= seq![left[0]] + left.skip(1));
        assert(right =~= seq![right[0]] + right.skip(1));
    }
}

proof fn lemma_char_number(left: char, right: char)
    requires
        left as u64 == right as u64,
    ensures
        left == right,
{
}

proof fn lemma_framed_text_prefix(left: Seq<char>, right: Seq<char>, a: Seq<u8>, b: Seq<u8>)
    requires
        framed_text(left) + a == framed_text(right) + b,
    ensures
        left == right,
        a == b,
    decreases left.len(),
{
    let l = framed_text(left) + a;
    let r = framed_text(right) + b;
    assert(l[0] == r[0]);
    if left.len() == 0 {
        assert(l[0] == 0u8);
        if right.len() > 0 {
            assert(r[0] == 1u8);
        }
        assert(left =~= right);
        assert(a =~= l.skip(1));
        assert(b =~= r.skip(1));
    } else {
        assert(l[0] == 1u8);
        if right.len() == 0 {
            assert(r[0] == 0u8);
        }
        assert(l.subrange(1, 9) =~= number_bytes(left[0] as u64));
        assert(r.subrange(1, 9) =~= number_bytes(right[0] as u64));
        lemma_number_bytes_injective(left[0] as u64, right[0] as u64);
        lemma_char_number(left[0], right[0]);
        assert(l.skip(9) =~= framed_text(left.skip(1)) + a);
        assert(r.skip(9) =~= framed_text(right.skip(1)) + b);
        lemma_framed_text_prefix(left.skip(1), right.skip(1), a, b);
        assert(left =~= seq![left[0]] + left.skip(1));
        assert(right =~= seq![right[0]] + right.skip(1));
    }
}

proof fn lemma_number_prefix(tag: u8, left: u64, right: u64, a: Seq<u8>, b: Seq<u8>)
    requires
        seq![tag] + number_bytes(left) + a == seq![tag] + number_bytes(right) + b,
    ensures
        left == right,
        a == b,
{
    let l = seq![tag] + number_bytes(left) + a;
    let r = seq![tag] + number_bytes(right) + b;
    assert(l.subrange(1, 9) =~= number_bytes(left));
    assert(r.subrange(1, 9) =~= number_bytes(right));
    lemma_number_bytes_injective(left, right);
    assert(l.skip(9) =~= a);
    assert(r.skip(9) =~= b);
}

/// The tag in front of a value's code.
spec fn tag_of(value: ValueView) -> u8 {
    match value {
        ValueView::Null => 0,
        ValueView::Boolean(_) => 1,
        ValueView::Int32(_) => 2,
        ValueView::Int64(_) => 3,
        ValueView::Float64(_) => 4,
        ValueView::String(_) => 5,
        ValueView::DateTime(_) => 6,
        ValueView::Bytes(_) => 7,
        ValueView::Jsonb(_) => 8,
    }
}

/// No code of a value is the start of another one.
#[verifier::spinoff_prover]
#[verifier::rlimit(40)]
proof fn lemma_value_code_prefix(left: ValueView, right: ValueView, a: Seq<u8>, b: Seq<u8>)
    requires
        value_code(left) + a == value_code(right) + b,
    ensures
        left == right,
        a == b,
{
    let l = value_code(left) + a;
    let r = value_code(right) + b;
    assert(l[0] == tag_of(left));
    assert(r[0] == tag_of(right));
    match (left, right) {
        (ValueView::Null, ValueView::Null) => {
            assert(l.skip(1) =~= a);
            assert(r.skip(1) =~= b);
        },
        (ValueView::Boolean(x), ValueView::Boolean(y)) => {
            assert(l[1] == r[1]);
            assert(l.skip(2) =~= a);
            assert(r.skip(2) =~= b);
        },
        (ValueView::Int32(x), ValueView::Int32(y)) => {
            lemma_number_prefix(2, x as i64 as u64, y as i64 as u64, a, b);
            assert(x == y) by (bit_vector)
                requires
                    x as i64 as u64 == y as i64 as u64,
            ;
        },
        (ValueView::Int64(x), ValueView::Int64(y)) => {
            lemma_number_prefix(3, x as u64, y as u64, a, b);
            assert(x == y) by (bit_vector)
                requires
                    x as u64 == y as u64,
            ;
        },
        (ValueView::Float64(x), ValueView::Float64(y)) => {
            lemma_number_prefix(4, x, y, a, b);
        },
        (ValueView::DateTime(x), ValueView::DateTime(y)) => {
            lemma_number_prefix(6, x as u64, y as u64, a, b);
            assert(x == y) by (bit_vector)
                requires
                    x as u64 == y as u64,
            ;
        },
        (ValueView::String(x), ValueView::String(y)) => {
            assert(l.skip(1) =~= framed_text(x) + a);
            assert(r.skip(1) =~= framed_text(y) + b);
            lemma_framed_text_prefix(x, y, a, b);
        },
        (ValueView::Bytes(x), ValueView::Bytes(y)) => {
            assert(l.skip(1) =~= framed_bytes(x) + a);
            assert(r.skip(1) =~= framed_bytes(y) + b);
            lemma_framed_bytes_prefix(x, y, a, b);
        },
        (ValueView::Jsonb(x), ValueView::Jsonb(y)) => {
            assert(l.skip(1) =~= framed_bytes(x) + a);
            assert(r.skip(1) =~= framed_bytes(y) + b);
            lemma_framed_bytes_prefix(x, y, a, b);
        },
        _ => {},
    }
}

/// Different keys have different codes.
pub proof fn law_key_code_injective(left: Seq<ValueView>, right: Seq<ValueView>)
    requires
        key_code(left) == key_code(right),
    ensures
        left == right,
    decreases left.len(),
{
    if left.len() == 0 {
        if right.len() > 0 {
            assert(value_code(right[0]).len() > 0);
        }
        assert(left =~= right);
    } else {
        assert(value_code(left[0]).len() > 0);
        if right.len() > 0 {
            lemma_value_code_prefix(
                left[0],
                right[0],
                key_code(left.skip(1)),
                key_code(right.skip(1)),
            );
            law_key_code_injective(left.skip(1), right.skip(1));
            assert(left =~= seq![left[0]] + left.skip(1));
            assert(right =~= seq![right[0]] + right.skip(1));
        }
    }
}

/// The code of a key grows with the key at its end.
proof fn lemma_key_code_push(key: Seq<ValueView>, value: ValueView)
    ensures
        key_code(key.push(value)) == key_code(key) + value_code(value),
    decreases key.len(),
{
    if key.len() == 0 {
        assert(key.push(value).skip(1) =~= Seq::<ValueView>::empty());
        assert(key_code(Seq::<ValueView>::empty()) =~= Seq::<u8>::empty());
        assert(key_code(key.push(value)) =~= key_code(key) + value_code(value));
    } else {
        assert(key.push(value).skip(1) =~= key.skip(1).push(value));
        lemma_key_code_push(key.skip(1), value);
        assert(key_code(key.push(value)) =~= key_code(key) + value_code(value));
    }
}

fn push_framed_bytes(code: &mut Vec<u8>, bytes: &[u8])
    ensures
        final(code)@ == old(code)@ + framed_bytes(bytes@),
{
    let ghost start = code@;
    let mut i: usize = 0;
    assert(bytes@.skip(0) =~= bytes@);
    while i < bytes.len()
        invariant
            i <= bytes.len(),
            code@ + framed_bytes(bytes@.skip(i as int)) == start + framed_bytes(bytes@),
        decreases bytes.len() - i,
    {
        let ghost before = code@;
        let ghost rest = bytes@.skip(i as int);
        code.push(1);
        code.push(bytes[i]);
        assert(rest.skip(1) =~= bytes@.skip(i + 1));
        assert(code@ + framed_bytes(bytes@.skip(i + 1)) =~= before + framed_bytes(rest));
        i += 1;
    }
    let ghost before = code@;
    code.push(0);
    assert(code@ =~= before + framed_bytes(bytes@.skip(bytes@.len() as int)));
}

fn push_framed_text(code: &mut Vec<u8>, text: &[char])
    ensures
        final(code)@ == old(code)@ + framed_text(text@),
{
    let ghost start = code@;
    let mut i: usize = 0;
    assert(text@.skip(0) =~= text@);
    while i < text.len()
        invariant
            i <= text.len(),
            code@ + framed_text(text@.skip(i as int)) == start + framed_text(text@),
        decreases text.len() - i,
    {
        let ghost before = code@;
        let ghost rest = text@.skip(i as int);
        code.push(1);
        push_number(code, text[i] as u64);
        assert(rest.skip(1) =~= text@.skip(i + 1));
        assert(code@ + framed_text(text@.skip(i + 1)) =~= before + framed_text(rest));
        i += 1;
    }
    let ghost before = code@;
    code.push(0);
    assert(code@ =~= before + framed_text(text@.skip(text@.len() as int)));
}

fn push_value_code(code: &mut Vec<u8>, value: &Value)
    ensures
        final(code)@ == old(code)@ + value_code(value@),
{
    match value {
        Value::Null => {
            code.push(0);
        },
        Value::Boolean(b) => {
            code.push(1);
            if *b {
                code.push(1);
            } else {
                code.push(0);
            }
        },
        Value::Int32(v) => {
            code.push(2);
            push_number(code, *v as i64 as u64);
        },
        Value::Int64(v) => {
            code.push(3);
            push_number(code, *v as u64);
        },
        Value::Float64(v) => {
            code.push(4);
            push_number(code, v.bits);
        },
        Value::String(text) => {
            code.push(5);
            push_framed_text(code, chars_of(text.as_str()).as_slice());
        },
        Value::DateTime(v) => {
            code.push(6);
            push_number(code, *v as u64);
        },
        Value::Bytes(bytes) => {
            code.push(7);
            push_framed_bytes(code, bytes.as_slice());
        },
        Value::Jsonb(bytes) => {
            code.push(8);
            push_framed_bytes(code, bytes.as_slice());
        },
    }
    assert(code@ =~= old(code)@ + value_code(value@));
}

/// Encodes a key.
pub fn encode_key(key: &[Value]) -> (code: Vec<u8>)
    ensures
        code@ == key_code(values_view(key@)),
{
    let ghost views = values_view(key@);
    let mut code: Vec<u8> = Vec::new();
    let mut i: usize = 0;
    assert(views.take(0) =~= Seq::empty());
    while i < key.len()
        invariant
            i <= key.len(),
            views == values_view(key@),
            code@ == key_code(views.take(i as int)),
        decreases key.len() - i,
    {
        push_value_code(&mut code, &key[i]);
        proof {
            lemma_key_code_push(views.take(i as int), views[i as int]);
            assert(views.take(i as int).push(views[i as int]) =~= views.take(i + 1));
        }
        i += 1;
    }
    assert(views.take(views.len() as int) =~= views);
    code
}

} // verus!
